use vstd::prelude::*;
use crate::fixed::{abs, div_floor, isqrt, lemma_root_le, root, ONE};
use crate::geom::{
    keeps_speed, lerp, lerp_spec, lerped, rescale, rescaled, rotate, rotated, sq, Turn, Vec2, COORD_LIMIT, SPEED_LIMIT,
    VEL_LIMIT,
};
use crate::opt::BoidSimOpt;
use crate::rng::draw_between;
use rand_xoshiro::Xoroshiro128Plus;

verus! {

/// One agent of the flock.
#[derive(Clone, Copy, Debug, PartialEq, Eq, Structural)]
pub struct Boid {
    pub pos: Vec2,
    pub vel: Vec2,
    /// Distance to the closest neighbor seen at the last update (diagnostic only).
    pub nearest: i64,
}

/// Bound on the distance between two points of the plane.
pub const DIST_LIMIT: i64 = 12884901888;

impl Boid {
    /// The bounds that every agent of a flock keeps between ticks.
    pub open spec fn wf(self) -> bool {
        &&& self.pos.within(COORD_LIMIT as int)
        &&& self.vel.within(VEL_LIMIT as int)
        &&& 0 <= self.nearest <= DIST_LIMIT
    }
}

pub open spec fn clamp_spec(v: int, lo: int, hi: int) -> int {
    if v < lo {
        lo
    } else if v > hi {
        hi
    } else {
        v
    }
}

/// A plane of positive sides, each at most `COORD_LIMIT`.
pub open spec fn world_ok(width: int, height: int) -> bool {
    1 <= width <= COORD_LIMIT && 1 <= height <= COORD_LIMIT
}

/// The cell of point `p` on a `width` x `height` plane cut into squares of
/// edge `cs`: each axis is clamped into the plane, then
/// `floor(y / cs) * floor(width / cs) + floor(x / cs)`.
pub open spec fn cell_of(p: Vec2, width: int, height: int, cs: int) -> int {
    (clamp_spec(p.y as int, 0, height - 1) / cs) * (width / cs) + clamp_spec(p.x as int, 0, width - 1) / cs
}

/// Number of cells: `ceil(width / cs) * ceil(height / cs)`.
pub open spec fn cell_count(width: int, height: int, cs: int) -> int {
    ((width + cs - 1) / cs) * ((height + cs - 1) / cs)
}

pub proof fn lemma_cell_in_range(p: Vec2, width: int, height: int, cs: int)
    requires
        world_ok(width, height),
        cs >= 1,
    ensures
        0 <= cell_of(p, width, height, cs) < cell_count(width, height, cs),
{
    let x = clamp_spec(p.x as int, 0, width - 1);
    let y = clamp_spec(p.y as int, 0, height - 1);
    let cx = x / cs;
    let cy = y / cs;
    let wf = width / cs;
    let wl = (width - 1) / cs;
    let hl = (height - 1) / cs;
    assert(0 <= cx <= wl) by (nonlinear_arith)
        requires cx == x / cs, wl == (width - 1) / cs, 0 <= x <= width - 1, cs >= 1;
    assert(0 <= cy <= hl) by (nonlinear_arith)
        requires cy == y / cs, hl == (height - 1) / cs, 0 <= y <= height - 1, cs >= 1;
    assert((width + cs - 1) / cs == wl + 1) by (nonlinear_arith)
        requires wl == (width - 1) / cs, cs >= 1, width >= 1;
    assert((height + cs - 1) / cs == hl + 1) by (nonlinear_arith)
        requires hl == (height - 1) / cs, cs >= 1, height >= 1;
    assert(0 <= wf <= wl + 1) by (nonlinear_arith)
        requires wf == width / cs, wl == (width - 1) / cs, cs >= 1, width >= 1;
    assert(0 <= cy * wf <= hl * (wl + 1)) by (nonlinear_arith)
        requires 0 <= cy <= hl, 0 <= wf <= wl + 1;
    assert(hl * (wl + 1) + wl < (hl + 1) * (wl + 1)) by (nonlinear_arith);
}

/// Whether a plane of these sides can be simulated (`world_ok`).
pub fn world_fits(width: i64, height: i64) -> (r: bool)
    ensures
        r == world_ok(width as int, height as int),
{
    1 <= width && width <= COORD_LIMIT && 1 <= height && height <= COORD_LIMIT
}

/// The number of cells of the plane, when it fits in `usize`.
pub fn cell_count_of(width: i64, height: i64, cs: i64) -> (r: Option<usize>)
    requires
        world_ok(width as int, height as int),
        1 <= cs <= COORD_LIMIT,
    ensures
        r == (if cell_count(width as int, height as int, cs as int) <= usize::MAX {
            Some(cell_count(width as int, height as int, cs as int) as usize)
        } else {
            None
        }),
{
    let cw = ((width + cs - 1) / cs) as u128;
    let ch = ((height + cs - 1) / cs) as u128;
    assert(cw * ch <= 0x2_0000_0000 * 0x2_0000_0000) by (nonlinear_arith)
        requires 0 <= cw <= 0x2_0000_0000, 0 <= ch <= 0x2_0000_0000;
    let n = cw * ch;
    if n <= usize::MAX as u128 {
        Some(n as usize)
    } else {
        None
    }
}

/// On a plane whose sides are multiples of the cell edge, the far corner
/// `(width, height)` falls in the last cell.
pub proof fn lemma_far_corner_cell(width: int, height: int, cs: int)
    requires
        world_ok(width, height),
        cs >= 1,
        width % cs == 0,
        height % cs == 0,
        width <= i64::MAX,
        height <= i64::MAX,
    ensures
        cell_of(Vec2 { x: width as i64, y: height as i64 }, width, height, cs) == cell_count(width, height, cs) - 1,
{
    let p = Vec2 { x: width as i64, y: height as i64 };
    assert(clamp_spec(p.x as int, 0, width - 1) == width - 1);
    assert(clamp_spec(p.y as int, 0, height - 1) == height - 1);
    let wq = width / cs;
    let hq = height / cs;
    assert((width - 1) / cs == wq - 1 && (width + cs - 1) / cs == wq) by (nonlinear_arith)
        requires wq == width / cs, width % cs == 0, cs >= 1, width >= 1;
    assert((height - 1) / cs == hq - 1 && (height + cs - 1) / cs == hq) by (nonlinear_arith)
        requires hq == height / cs, height % cs == 0, cs >= 1, height >= 1;
    assert((hq - 1) * wq + (wq - 1) == hq * wq - 1) by (nonlinear_arith);
}

/// The cell that holds `pos`; see `cell_of`.
pub fn get_cell_for_point(pos: Vec2, width: i64, height: i64, opt: &BoidSimOpt) -> (r: usize)
    requires
        world_ok(width as int, height as int),
        opt.wf(),
        cell_count(width as int, height as int, opt.visual_range as int) <= usize::MAX,
    ensures
        r == cell_of(pos, width as int, height as int, opt.visual_range as int),
        r < cell_count(width as int, height as int, opt.visual_range as int),
{
    let cs = opt.visual_range;
    let x = if pos.x < 0 { 0 } else if pos.x > width - 1 { width - 1 } else { pos.x };
    let y = if pos.y < 0 { 0 } else if pos.y > height - 1 { height - 1 } else { pos.y };
    let cx = x / cs;
    let cy = y / cs;
    let wf = width / cs;
    proof {
        lemma_cell_in_range(pos, width as int, height as int, cs as int);
        assert(cy * wf <= COORD_LIMIT * COORD_LIMIT) by (nonlinear_arith)
            requires 0 <= cy <= COORD_LIMIT, 0 <= wf <= COORD_LIMIT;
    }
    let idx = (cy as u128) * (wf as u128) + (cx as u128);
    idx as usize
}

impl Boid {
    pub fn new(pos: Vec2, vel: Vec2) -> (r: Boid)
        ensures
            r.pos == pos,
            r.vel == vel,
            r.nearest == 0,
    {
        Boid { pos, vel, nearest: 0 }
    }

    pub fn get_cell(&self, width: i64, height: i64, opt: &BoidSimOpt) -> (r: usize)
        requires
            world_ok(width as int, height as int),
            opt.wf(),
            cell_count(width as int, height as int, opt.visual_range as int) <= usize::MAX,
        ensures
            r == cell_of(self.pos, width as int, height as int, opt.visual_range as int),
    {
        get_cell_for_point(self.pos, width, height, opt)
    }
}


pub open spec fn sq_dist(a: Vec2, b: Vec2) -> int {
    sq(b.x - a.x) + sq(b.y - a.y)
}

/// Cone test: `b` lies within half the sight angle of `a`'s heading, that is
/// `cos(angle(v, d)) >= sight_cos`, with lengths rounded down to integers. An
/// agent at rest has no heading and sees in every direction; an agent that
/// moves does not see one at its own position.
pub open spec fn sees(opt: BoidSimOpt, a: Boid, b: Boid) -> bool {
    let dx = b.pos.x - a.pos.x;
    let dy = b.pos.y - a.pos.y;
    let vx = a.vel.x as int;
    let vy = a.vel.y as int;
    ||| (vx == 0 && vy == 0)
    ||| {
        &&& (dx != 0 || dy != 0)
        &&& (vx * dx + vy * dy) * ONE >= opt.sight_cos * root((sq(vx) + sq(vy)) as nat) * root(
            (sq(dx) + sq(dy)) as nat,
        )
    }
}

/// `b` is closer than the visual range and within the sight cone of `a`.
pub open spec fn in_sight(opt: BoidSimOpt, a: Boid, b: Boid) -> bool {
    sq_dist(a.pos, b.pos) < sq(opt.visual_range as int) && sees(opt, a, b)
}

/// Over the neighbors that `a` has in sight: their number, the sums of their
/// positions and the sums of their velocities.
pub open spec fn seen_sum(opt: BoidSimOpt, a: Boid, s: Seq<Boid>) -> (int, int, int, int, int)
    decreases s.len(),
{
    if s.len() == 0 {
        (0, 0, 0, 0, 0)
    } else {
        let p = seen_sum(opt, a, s.drop_last());
        let b = s.last();
        if in_sight(opt, a, b) {
            (p.0 + 1, p.1 + b.pos.x, p.2 + b.pos.y, p.3 + b.vel.x, p.4 + b.vel.y)
        } else {
            p
        }
    }
}

/// Sum of `a.pos - b.pos` over the neighbors `b` closer than the avoid range.
pub open spec fn near_sum(opt: BoidSimOpt, a: Boid, s: Seq<Boid>) -> (int, int)
    decreases s.len(),
{
    if s.len() == 0 {
        (0, 0)
    } else {
        let p = near_sum(opt, a, s.drop_last());
        let b = s.last();
        if sq_dist(a.pos, b.pos) < sq(opt.avoid_range as int) {
            (p.0 + a.pos.x - b.pos.x, p.1 + a.pos.y - b.pos.y)
        } else {
            p
        }
    }
}

/// Cohesion: `coherence` times the offset from `a` to the mean position of the
/// neighbors in sight; nothing when none is.
#[verifier::opaque]
pub open spec fn cohesion(opt: BoidSimOpt, a: Boid, s: Seq<Boid>) -> (int, int) {
    let t = seen_sum(opt, a, s);
    if t.0 == 0 {
        (0, 0)
    } else {
        (
            ((t.1 / t.0 - a.pos.x) * opt.coherence) / ONE as int,
            ((t.2 / t.0 - a.pos.y) * opt.coherence) / ONE as int,
        )
    }
}

/// Separation: `separation` times `near_sum`.
#[verifier::opaque]
pub open spec fn separation(opt: BoidSimOpt, a: Boid, s: Seq<Boid>) -> (int, int) {
    let t = near_sum(opt, a, s);
    ((t.0 * opt.separation) / ONE as int, (t.1 * opt.separation) / ONE as int)
}

/// Alignment: `alignment` times the offset from `a`'s velocity to the mean
/// velocity of the neighbors in sight; nothing when none is.
#[verifier::opaque]
pub open spec fn alignment(opt: BoidSimOpt, a: Boid, s: Seq<Boid>) -> (int, int) {
    let t = seen_sum(opt, a, s);
    if t.0 == 0 {
        (0, 0)
    } else {
        (
            ((t.3 / t.0 - a.vel.x) * opt.alignment) / ONE as int,
            ((t.4 / t.0 - a.vel.y) * opt.alignment) / ONE as int,
        )
    }
}

pub open spec fn all_wf(s: Seq<Boid>) -> bool {
    forall|j: int| 0 <= j < s.len() ==> (#[trigger] s[j]).wf()
}

/// Bound on the number of neighbors handed to the steering rules.
pub const NEIGHBOR_LIMIT: usize = 32768;

proof fn lemma_mean_bound(sum: int, n: int, b: int)
    requires
        n >= 1,
        b >= 0,
        abs(sum) <= n * b,
    ensures
        abs(sum / n) <= b,
{
    assert(abs(sum / n) <= b) by (nonlinear_arith)
        requires n >= 1, b >= 0, abs(sum) <= n * b;
}

proof fn lemma_scaled_bound(d: int, c: int, b: int)
    requires
        0 <= c <= ONE,
        b >= 0,
        abs(d) <= b,
    ensures
        abs((d * c) / ONE as int) <= b + 1,
{
    assert(abs(d * c) <= b * ONE) by (nonlinear_arith)
        requires 0 <= c <= ONE, abs(d) <= b;
    assert(abs((d * c) / ONE as int) <= b + 1) by (nonlinear_arith)
        requires abs(d * c) <= b * ONE, b >= 0;
}

impl Boid {
    /// Squared distance between the two positions.
    pub fn sq_distance_to(&self, other: &Boid) -> (r: u128)
        requires
            self.wf(),
            other.wf(),
        ensures
            r == sq_dist(self.pos, other.pos),
            r <= 2 * 0x2_0000_0000 * 0x2_0000_0000,
    {
        let dx = other.pos.x as i128 - self.pos.x as i128;
        let dy = other.pos.y as i128 - self.pos.y as i128;
        assert(dx * dx <= 0x2_0000_0000 * 0x2_0000_0000) by (nonlinear_arith)
            requires abs(dx as int) <= 0x2_0000_0000;
        assert(dy * dy <= 0x2_0000_0000 * 0x2_0000_0000) by (nonlinear_arith)
            requires abs(dy as int) <= 0x2_0000_0000;
        assert(dx * dx >= 0 && dy * dy >= 0) by (nonlinear_arith);
        (dx * dx + dy * dy) as u128
    }

    /// Distance between the two positions, rounded down.
    pub fn distance_to(&self, other: &Boid) -> (r: i64)
        requires
            self.wf(),
            other.wf(),
        ensures
            r == root(sq_dist(self.pos, other.pos) as nat),
            0 <= r <= DIST_LIMIT,
    {
        let d2 = self.sq_distance_to(other);
        proof {
            lemma_root_le(d2 as nat, DIST_LIMIT as nat);
        }
        isqrt(d2) as i64
    }

    /// The cone test of `sees`.
    pub fn in_sight_cone(&self, other: &Boid, opt: &BoidSimOpt) -> (r: bool)
        requires
            self.wf(),
            other.wf(),
            opt.wf(),
        ensures
            r == sees(*opt, *self, *other),
    {
        let vx = self.vel.x as i128;
        let vy = self.vel.y as i128;
        let dx = other.pos.x as i128 - self.pos.x as i128;
        let dy = other.pos.y as i128 - self.pos.y as i128;
        if vx == 0 && vy == 0 {
            return true;
        }
        if dx == 0 && dy == 0 {
            return false;
        }
        proof {
            assert(vx * vx <= VEL_LIMIT * VEL_LIMIT && vy * vy <= VEL_LIMIT * VEL_LIMIT) by (nonlinear_arith)
                requires abs(vx as int) <= VEL_LIMIT, abs(vy as int) <= VEL_LIMIT;
            assert(dx * dx <= 0x2_0000_0000 * 0x2_0000_0000 && dy * dy <= 0x2_0000_0000 * 0x2_0000_0000) by (nonlinear_arith)
                requires abs(dx as int) <= 0x2_0000_0000, abs(dy as int) <= 0x2_0000_0000;
            assert(vx * vx >= 0 && vy * vy >= 0 && dx * dx >= 0 && dy * dy >= 0) by (nonlinear_arith);
            assert(abs(vx * dx) <= VEL_LIMIT * 0x2_0000_0000 && abs(vy * dy) <= VEL_LIMIT * 0x2_0000_0000) by (nonlinear_arith)
                requires abs(vx as int) <= VEL_LIMIT, abs(vy as int) <= VEL_LIMIT,
                    abs(dx as int) <= 0x2_0000_0000, abs(dy as int) <= 0x2_0000_0000;
        }
        let lv = isqrt((vx * vx + vy * vy) as u128) as i128;
        let ld = isqrt((dx * dx + dy * dy) as u128) as i128;
        proof {
            lemma_root_le((vx * vx + vy * vy) as nat, 2 * VEL_LIMIT as nat);
            lemma_root_le((dx * dx + dy * dy) as nat, 0x4_0000_0000);
        }
        let dot = vx * dx + vy * dy;
        assert(abs(dot * ONE) <= 2 * VEL_LIMIT * 0x2_0000_0000 * ONE) by (nonlinear_arith)
            requires abs(dot as int) <= 2 * VEL_LIMIT * 0x2_0000_0000;
        assert(abs(opt.sight_cos * lv) <= ONE * (2 * VEL_LIMIT)) by (nonlinear_arith)
            requires abs(opt.sight_cos as int) <= ONE, 0 <= lv <= 2 * VEL_LIMIT;
        let cl = (opt.sight_cos as i128) * lv;
        assert(abs(cl * ld) <= ONE * (2 * VEL_LIMIT) * 0x4_0000_0000) by (nonlinear_arith)
            requires abs(cl as int) <= ONE * (2 * VEL_LIMIT), 0 <= ld <= 0x4_0000_0000;
        dot * (ONE as i128) >= cl * ld
    }

    /// Whether `other` is closer than the visual range and within the sight cone.
    pub fn in_sight_range(&self, other: &Boid, opt: &BoidSimOpt) -> (r: bool)
        requires
            self.wf(),
            other.wf(),
            opt.wf(),
        ensures
            r == in_sight(*opt, *self, *other),
    {
        let vr = opt.visual_range as u128;
        assert(vr * vr <= COORD_LIMIT * COORD_LIMIT) by (nonlinear_arith)
            requires vr <= COORD_LIMIT;
        self.sq_distance_to(other) < vr * vr && self.in_sight_cone(other, opt)
    }

    /// The distance to `other` when it is in sight.
    pub fn get_dist_if_in_sight(&self, other: &Boid, opt: &BoidSimOpt) -> (r: Option<i64>)
        requires
            self.wf(),
            other.wf(),
            opt.wf(),
        ensures
            r == (if in_sight(*opt, *self, *other) {
                Some(root(sq_dist(self.pos, other.pos) as nat) as i64)
            } else {
                None
            }),
    {
        if self.in_sight_range(other, opt) {
            Some(self.distance_to(other))
        } else {
            None
        }
    }
}


impl Boid {
    /// `seen_sum` over `closest`.
    fn seen_totals(&self, closest: &Vec<Boid>, opt: &BoidSimOpt) -> (r: (i128, i128, i128, i128, i128))
        requires
            self.wf(),
            opt.wf(),
            all_wf(closest@),
            closest@.len() <= NEIGHBOR_LIMIT,
        ensures
            (r.0 as int, r.1 as int, r.2 as int, r.3 as int, r.4 as int) == seen_sum(*opt, *self, closest@),
            0 <= r.0 <= closest@.len(),
            abs(r.1 as int) <= r.0 * COORD_LIMIT,
            abs(r.2 as int) <= r.0 * COORD_LIMIT,
            abs(r.3 as int) <= r.0 * VEL_LIMIT,
            abs(r.4 as int) <= r.0 * VEL_LIMIT,
    {
        let mut n: i128 = 0;
        let mut px: i128 = 0;
        let mut py: i128 = 0;
        let mut vx: i128 = 0;
        let mut vy: i128 = 0;
        let mut j: usize = 0;
        while j < closest.len()
            invariant
                self.wf(),
                opt.wf(),
                all_wf(closest@),
                closest@.len() <= NEIGHBOR_LIMIT,
                j <= closest@.len(),
                (n as int, px as int, py as int, vx as int, vy as int) == seen_sum(*opt, *self, closest@.take(j as int)),
                0 <= n <= j,
                abs(px as int) <= n * COORD_LIMIT,
                abs(py as int) <= n * COORD_LIMIT,
                abs(vx as int) <= n * VEL_LIMIT,
                abs(vy as int) <= n * VEL_LIMIT,
            decreases closest@.len() - j,
        {
            let b = closest[j];
            assert(closest@.take(j + 1).drop_last() =~= closest@.take(j as int));
            assert(b.wf());
            if self.in_sight_range(&b, opt) {
                n = n + 1;
                px = px + b.pos.x as i128;
                py = py + b.pos.y as i128;
                vx = vx + b.vel.x as i128;
                vy = vy + b.vel.y as i128;
            }
            j = j + 1;
        }
        assert(closest@.take(j as int) =~= closest@);
        (n, px, py, vx, vy)
    }

    /// `near_sum` over `closest`.
    fn near_totals(&self, closest: &Vec<Boid>, opt: &BoidSimOpt) -> (r: (i128, i128))
        requires
            self.wf(),
            opt.wf(),
            all_wf(closest@),
            closest@.len() <= NEIGHBOR_LIMIT,
        ensures
            (r.0 as int, r.1 as int) == near_sum(*opt, *self, closest@),
            abs(r.0 as int) <= closest@.len() * (2 * COORD_LIMIT),
            abs(r.1 as int) <= closest@.len() * (2 * COORD_LIMIT),
    {
        let mut sx: i128 = 0;
        let mut sy: i128 = 0;
        let mut j: usize = 0;
        let ar = opt.avoid_range as u128;
        assert(ar * ar <= COORD_LIMIT * COORD_LIMIT) by (nonlinear_arith)
            requires ar <= COORD_LIMIT;
        let ar2 = ar * ar;
        while j < closest.len()
            invariant
                self.wf(),
                opt.wf(),
                all_wf(closest@),
                closest@.len() <= NEIGHBOR_LIMIT,
                j <= closest@.len(),
                ar2 == sq(opt.avoid_range as int),
                (sx as int, sy as int) == near_sum(*opt, *self, closest@.take(j as int)),
                abs(sx as int) <= j * (2 * COORD_LIMIT),
                abs(sy as int) <= j * (2 * COORD_LIMIT),
            decreases closest@.len() - j,
        {
            let b = closest[j];
            assert(closest@.take(j + 1).drop_last() =~= closest@.take(j as int));
            assert(b.wf());
            if self.sq_distance_to(&b) < ar2 {
                sx = sx + (self.pos.x as i128 - b.pos.x as i128);
                sy = sy + (self.pos.y as i128 - b.pos.y as i128);
            }
            j = j + 1;
        }
        assert(closest@.take(j as int) =~= closest@);
        (sx, sy)
    }

    /// Cohesion delta; see `cohesion`.
    pub fn fly_towards_center(&self, closest: &Vec<Boid>, opt: &BoidSimOpt) -> (r: Vec2)
        requires
            self.wf(),
            opt.wf(),
            all_wf(closest@),
            closest@.len() <= NEIGHBOR_LIMIT,
        ensures
            (r.x as int, r.y as int) == cohesion(*opt, *self, closest@),
            r.within(2 * COORD_LIMIT + 1),
    {
        reveal(cohesion);
        let t = self.seen_totals(closest, opt);
        if t.0 == 0 {
            return Vec2 { x: 0, y: 0 };
        }
        proof {
            lemma_mean_bound(t.1 as int, t.0 as int, COORD_LIMIT as int);
            lemma_mean_bound(t.2 as int, t.0 as int, COORD_LIMIT as int);
        }
        let cx = div_floor(t.1, t.0) - self.pos.x as i128;
        let cy = div_floor(t.2, t.0) - self.pos.y as i128;
        proof {
            lemma_scaled_bound(cx as int, opt.coherence as int, 2 * COORD_LIMIT);
            lemma_scaled_bound(cy as int, opt.coherence as int, 2 * COORD_LIMIT);
        }
        let dx = div_floor(cx * opt.coherence as i128, ONE as i128);
        let dy = div_floor(cy * opt.coherence as i128, ONE as i128);
        Vec2 { x: dx as i64, y: dy as i64 }
    }

    /// Separation delta; see `separation`.
    pub fn avoid_other_boids(&self, closest: &Vec<Boid>, opt: &BoidSimOpt) -> (r: Vec2)
        requires
            self.wf(),
            opt.wf(),
            all_wf(closest@),
            closest@.len() <= NEIGHBOR_LIMIT,
        ensures
            (r.x as int, r.y as int) == separation(*opt, *self, closest@),
            r.within(NEIGHBOR_LIMIT * (2 * COORD_LIMIT) + 1),
    {
        reveal(separation);
        let t = self.near_totals(closest, opt);
        proof {
            assert(closest@.len() * (2 * COORD_LIMIT) <= NEIGHBOR_LIMIT * (2 * COORD_LIMIT)) by (nonlinear_arith)
                requires closest@.len() <= NEIGHBOR_LIMIT;
            lemma_scaled_bound(t.0 as int, opt.separation as int, NEIGHBOR_LIMIT * (2 * COORD_LIMIT));
            lemma_scaled_bound(t.1 as int, opt.separation as int, NEIGHBOR_LIMIT * (2 * COORD_LIMIT));
        }
        let dx = div_floor(t.0 * opt.separation as i128, ONE as i128);
        let dy = div_floor(t.1 * opt.separation as i128, ONE as i128);
        Vec2 { x: dx as i64, y: dy as i64 }
    }

    /// Alignment delta; see `alignment`.
    pub fn match_velocities(&self, closest: &Vec<Boid>, opt: &BoidSimOpt) -> (r: Vec2)
        requires
            self.wf(),
            opt.wf(),
            all_wf(closest@),
            closest@.len() <= NEIGHBOR_LIMIT,
        ensures
            (r.x as int, r.y as int) == alignment(*opt, *self, closest@),
            r.within(2 * VEL_LIMIT + 1),
    {
        reveal(alignment);
        let t = self.seen_totals(closest, opt);
        if t.0 == 0 {
            return Vec2 { x: 0, y: 0 };
        }
        proof {
            lemma_mean_bound(t.3 as int, t.0 as int, VEL_LIMIT as int);
            lemma_mean_bound(t.4 as int, t.0 as int, VEL_LIMIT as int);
        }
        let cx = div_floor(t.3, t.0) - self.vel.x as i128;
        let cy = div_floor(t.4, t.0) - self.vel.y as i128;
        proof {
            lemma_scaled_bound(cx as int, opt.alignment as int, 2 * VEL_LIMIT);
            lemma_scaled_bound(cy as int, opt.alignment as int, 2 * VEL_LIMIT);
        }
        let dx = div_floor(cx * opt.alignment as i128, ONE as i128);
        let dy = div_floor(cy * opt.alignment as i128, ONE as i128);
        Vec2 { x: dx as i64, y: dy as i64 }
    }
}


/// Boundary avoidance: near the left or right edge the velocity is lerped
/// toward `(±min_speed, 0)`, then near the top or bottom edge toward
/// `(0, ±min_speed)`, by `edge_turn_factor`.
pub open spec fn bounded_vel(opt: BoidSimOpt, width: int, height: int, p: Vec2, v: Vec2) -> Vec2 {
    let m = opt.edge_turn_margin as int;
    let f = opt.edge_turn_factor as int;
    let s = opt.min_speed;
    let v1 = if p.x < m {
        lerped(v, Vec2 { x: s, y: 0 }, f)
    } else if p.x > width - m {
        lerped(v, Vec2 { x: (-s) as i64, y: 0 }, f)
    } else {
        v
    };
    if p.y < m {
        lerped(v1, Vec2 { x: 0, y: s }, f)
    } else if p.y > height - m {
        lerped(v1, Vec2 { x: 0, y: (-s) as i64 }, f)
    } else {
        v1
    }
}

/// Speed clamp: a velocity longer than `max_speed` or shorter than
/// `min_speed` is rescaled to that length.
pub open spec fn limited(opt: BoidSimOpt, v: Vec2) -> Vec2 {
    if v.sq_len() > sq(opt.max_speed as int) {
        rescaled(v, opt.max_speed as int)
    } else if v.sq_len() < sq(opt.min_speed as int) {
        rescaled(v, opt.min_speed as int)
    } else {
        v
    }
}

/// The speed lies in `[min_speed, max_speed]`, up to the rounding of one
/// rescale: `min_speed² <= |v|² + 132 * max_speed + 2`.
pub open spec fn speed_ok(opt: BoidSimOpt, v: Vec2) -> bool {
    &&& v.sq_len() <= sq(opt.max_speed as int)
    &&& sq(opt.min_speed as int) <= v.sq_len() + 132 * opt.max_speed + 2
}

/// Euler step `p + v`, saturated at `COORD_LIMIT`.
pub open spec fn moved(p: Vec2, v: Vec2) -> Vec2 {
    Vec2 {
        x: clamp_spec(p.x + v.x, -COORD_LIMIT, COORD_LIMIT as int) as i64,
        y: clamp_spec(p.y + v.y, -COORD_LIMIT, COORD_LIMIT as int) as i64,
    }
}

/// Least squared distance from `p` to the agents of a nonempty `s`.
pub open spec fn min_sq(p: Vec2, s: Seq<Boid>) -> int
    decreases s.len(),
{
    if s.len() <= 1 {
        sq_dist(p, s[0].pos)
    } else {
        let m = min_sq(p, s.drop_last());
        let d = sq_dist(p, s.last().pos);
        if d < m {
            d
        } else {
            m
        }
    }
}

/// The velocity after one update against the neighbors `s`: the three rule
/// deltas, each taken from `a` as it was, are added; then the jitter turn `t`,
/// boundary avoidance and the speed clamp are applied in that order.
pub open spec fn steered_vel(opt: BoidSimOpt, width: int, height: int, a: Boid, s: Seq<Boid>, t: Turn) -> Vec2 {
    let c = cohesion(opt, a, s);
    let p = separation(opt, a, s);
    let l = alignment(opt, a, s);
    let v1 = Vec2 { x: (a.vel.x + c.0 + p.0 + l.0) as i64, y: (a.vel.y + c.1 + p.1 + l.1) as i64 };
    limited(opt, bounded_vel(opt, width, height, a.pos, rotated(v1, t)))
}

/// `a` after one update against the neighbors `s` with jitter turn `t`.
pub open spec fn steered(opt: BoidSimOpt, width: int, height: int, a: Boid, s: Seq<Boid>, t: Turn) -> Boid {
    let v = steered_vel(opt, width, height, a, s, t);
    Boid {
        pos: moved(a.pos, v),
        vel: v,
        nearest: if s.len() > 0 {
            root(min_sq(a.pos, s) as nat) as i64
        } else {
            a.nearest
        },
    }
}

proof fn lemma_sum4_bound(v: int, c: int, p: int, l: int)
    requires
        abs(v) <= VEL_LIMIT,
        abs(c) <= 2 * COORD_LIMIT + 1,
        abs(p) <= NEIGHBOR_LIMIT * (2 * COORD_LIMIT) + 1,
        abs(l) <= 2 * VEL_LIMIT + 1,
    ensures
        abs(v + c + p + l) <= 0x4_0000_0000_0000,
{
}

proof fn lemma_near_sum_far(opt: BoidSimOpt, a: Boid, s: Seq<Boid>)
    requires
        forall|j: int| 0 <= j < s.len() ==> sq_dist(a.pos, (#[trigger] s[j]).pos) >= sq(opt.avoid_range as int),
    ensures
        near_sum(opt, a, s) == (0int, 0int),
    decreases s.len(),
{
    if s.len() > 0 {
        let t = s.drop_last();
        assert forall|j: int| 0 <= j < t.len() implies sq_dist(a.pos, (#[trigger] t[j]).pos) >= sq(opt.avoid_range as int) by {
            assert(t[j] == s[j]);
        }
        lemma_near_sum_far(opt, a, t);
        assert(sq_dist(a.pos, s[s.len() - 1].pos) >= sq(opt.avoid_range as int));
    }
}

/// Hard cutoff of separation: neighbors at or beyond the avoid range give no
/// push at all.
pub proof fn lemma_separation_cutoff(opt: BoidSimOpt, a: Boid, s: Seq<Boid>)
    requires
        forall|j: int| 0 <= j < s.len() ==> sq_dist(a.pos, (#[trigger] s[j]).pos) >= sq(opt.avoid_range as int),
    ensures
        separation(opt, a, s) == (0int, 0int),
{
    reveal(separation);
    lemma_near_sum_far(opt, a, s);
}

/// A single neighbor inside the avoid range pushes away from it: the delta is
/// `separation` times the offset from the neighbor, rounded down. A component
/// is negative where the offset is negative, and positive where the offset
/// times `separation` reaches one unit.
pub proof fn lemma_separation_repels(opt: BoidSimOpt, a: Boid, b: Boid)
    requires
        sq_dist(a.pos, b.pos) < sq(opt.avoid_range as int),
        0 < opt.separation <= ONE,
    ensures
        ({
            let d = separation(opt, a, seq![b]);
            let ox = a.pos.x - b.pos.x;
            let oy = a.pos.y - b.pos.y;
            &&& d == ((ox * opt.separation) / ONE as int, (oy * opt.separation) / ONE as int)
            &&& ox < 0 ==> d.0 < 0
            &&& oy < 0 ==> d.1 < 0
            &&& ox * opt.separation >= ONE ==> d.0 >= 1
            &&& oy * opt.separation >= ONE ==> d.1 >= 1
        }),
{
    reveal(separation);
    let s = seq![b];
    assert(s.drop_last() =~= Seq::<Boid>::empty());
    assert(near_sum(opt, a, s.drop_last()) == (0int, 0int));
    let ox = a.pos.x - b.pos.x;
    let oy = a.pos.y - b.pos.y;
    let f = opt.separation as int;
    assert(ox < 0 ==> (ox * f) / (ONE as int) < 0) by (nonlinear_arith)
        requires f > 0;
    assert(oy < 0 ==> (oy * f) / (ONE as int) < 0) by (nonlinear_arith)
        requires f > 0;
    assert(ox * f >= ONE ==> (ox * f) / (ONE as int) >= 1) by (nonlinear_arith);
    assert(oy * f >= ONE ==> (oy * f) / (ONE as int) >= 1) by (nonlinear_arith);
}

/// Cohesion at rest: an agent without velocity that has one neighbor within
/// the visual range steers `coherence` of the way toward it.
pub proof fn lemma_cohesion_at_rest(opt: BoidSimOpt, a: Boid, b: Boid)
    requires
        a.vel.x == 0,
        a.vel.y == 0,
        sq_dist(a.pos, b.pos) < sq(opt.visual_range as int),
    ensures
        cohesion(opt, a, seq![b]) == (
            ((b.pos.x - a.pos.x) * opt.coherence) / ONE as int,
            ((b.pos.y - a.pos.y) * opt.coherence) / ONE as int,
        ),
{
    reveal(cohesion);
    let s = seq![b];
    assert(s.drop_last() =~= Seq::<Boid>::empty());
    assert(seen_sum(opt, a, s.drop_last()) == (0int, 0int, 0int, 0int, 0int));
    assert(in_sight(opt, a, b));
    assert((b.pos.x as int) / 1int == b.pos.x && (b.pos.y as int) / 1int == b.pos.y);
}

/// Boundary turn: an agent left of the margin, and clear of the top and
/// bottom margins, has the x component of its velocity lerped toward
/// `min_speed` by `edge_turn_factor`. Below `min_speed` it does not pass it,
/// and it grows once `(min_speed - vel.x) * edge_turn_factor` reaches one unit.
pub proof fn lemma_boundary_turn(opt: BoidSimOpt, width: int, height: int, p: Vec2, v: Vec2)
    requires
        opt.wf(),
        p.x < opt.edge_turn_margin,
        opt.edge_turn_margin <= p.y <= height - opt.edge_turn_margin,
        v.x < opt.min_speed,
    ensures
        ({
            let r = bounded_vel(opt, width, height, p, v);
            let f = opt.edge_turn_factor as int;
            &&& r.x == lerp_spec(v.x as int, opt.min_speed as int, f)
            &&& v.x <= r.x <= opt.min_speed
            &&& (opt.min_speed - v.x) * f >= ONE ==> r.x > v.x
        }),
{
    let f = opt.edge_turn_factor as int;
    let d = opt.min_speed - v.x;
    let q = (d * f) / (ONE as int);
    assert(0 <= q <= d) by (nonlinear_arith)
        requires q == (d * f) / (ONE as int), d > 0, 0 <= f <= ONE;
    assert(d * f >= ONE ==> q >= 1) by (nonlinear_arith)
        requires q == (d * f) / (ONE as int);
}

/// Bound on a velocity while the rules are being applied.
pub const STEER_LIMIT: i64 = 0x40_0000_0000_0000;

impl Boid {
    /// Boundary avoidance; see `bounded_vel`.
    pub fn keep_within_bounds(&mut self, width: i64, height: i64, opt: &BoidSimOpt)
        requires
            old(self).vel.within(STEER_LIMIT as int),
            opt.wf(),
        ensures
            final(self).vel == bounded_vel(*opt, width as int, height as int, old(self).pos, old(self).vel),
            final(self).pos == old(self).pos,
            final(self).nearest == old(self).nearest,
            final(self).vel.within(STEER_LIMIT + 2 * SPEED_LIMIT + 2),
    {
        let m = opt.edge_turn_margin;
        let f = opt.edge_turn_factor;
        let s = opt.min_speed;
        if self.pos.x < m {
            self.vel = lerp(self.vel, Vec2 { x: s, y: 0 }, f);
        } else if (self.pos.x as i128) > (width as i128) - (m as i128) {
            self.vel = lerp(self.vel, Vec2 { x: -s, y: 0 }, f);
        }
        if self.pos.y < m {
            self.vel = lerp(self.vel, Vec2 { x: 0, y: s }, f);
        } else if (self.pos.y as i128) > (height as i128) - (m as i128) {
            self.vel = lerp(self.vel, Vec2 { x: 0, y: -s }, f);
        }
    }

    /// Speed clamp; see `limited`.
    pub fn limit_speed(&mut self, opt: &BoidSimOpt)
        requires
            old(self).vel.within(0x100_0000_0000_0000),
            opt.wf(),
        ensures
            final(self).vel == limited(*opt, old(self).vel),
            final(self).pos == old(self).pos,
            final(self).nearest == old(self).nearest,
            speed_ok(*opt, final(self).vel),
            final(self).vel.within(opt.max_speed as int),
    {
        let x = self.vel.x as i128;
        let y = self.vel.y as i128;
        assert(x * x <= 0x100_0000_0000_0000 * 0x100_0000_0000_0000 && y * y <= 0x100_0000_0000_0000 * 0x100_0000_0000_0000) by (nonlinear_arith)
            requires abs(x as int) <= 0x100_0000_0000_0000, abs(y as int) <= 0x100_0000_0000_0000;
        assert(x * x >= 0 && y * y >= 0) by (nonlinear_arith);
        let s2 = x * x + y * y;
        let hi = opt.max_speed as i128;
        let lo = opt.min_speed as i128;
        assert(hi * hi <= SPEED_LIMIT * SPEED_LIMIT && lo * lo <= SPEED_LIMIT * SPEED_LIMIT) by (nonlinear_arith)
            requires 0 <= lo <= SPEED_LIMIT, 0 <= hi <= SPEED_LIMIT;
        if s2 > hi * hi {
            self.vel = rescale(self.vel, opt.max_speed);
            proof {
                assert(sq(opt.min_speed as int) <= sq(opt.max_speed as int)) by (nonlinear_arith)
                    requires 0 <= opt.min_speed <= opt.max_speed;
            }
        } else if s2 < lo * lo {
            self.vel = rescale(self.vel, opt.min_speed);
            proof {
                assert(sq(opt.min_speed as int) <= sq(opt.max_speed as int)) by (nonlinear_arith)
                    requires 0 <= opt.min_speed <= opt.max_speed;
            }
        } else {
            proof {
                assert(abs(x as int) <= opt.max_speed && abs(y as int) <= opt.max_speed) by (nonlinear_arith)
                    requires x * x + y * y <= hi * hi, hi >= 0, hi == opt.max_speed;
            }
        }
    }

    /// Euler step; see `moved`.
    pub fn update_pos(&mut self)
        requires
            old(self).pos.within(COORD_LIMIT as int),
            old(self).vel.within(VEL_LIMIT as int),
        ensures
            final(self).pos == moved(old(self).pos, old(self).vel),
            final(self).vel == old(self).vel,
            final(self).nearest == old(self).nearest,
            final(self).pos.within(COORD_LIMIT as int),
    {
        let x = self.pos.x + self.vel.x;
        let y = self.pos.y + self.vel.y;
        let x = if x < -COORD_LIMIT { -COORD_LIMIT } else if x > COORD_LIMIT { COORD_LIMIT } else { x };
        let y = if y < -COORD_LIMIT { -COORD_LIMIT } else if y > COORD_LIMIT { COORD_LIMIT } else { y };
        self.pos = Vec2 { x, y };
    }

    /// Least squared distance to a nonempty `closest`; see `min_sq`.
    fn nearest_sq(&self, closest: &Vec<Boid>) -> (r: u128)
        requires
            self.wf(),
            all_wf(closest@),
            closest@.len() >= 1,
        ensures
            r == min_sq(self.pos, closest@),
            r <= 2 * 0x2_0000_0000 * 0x2_0000_0000,
    {
        let mut m = self.sq_distance_to(&closest[0]);
        let mut j: usize = 1;
        assert(closest@.take(1).len() == 1);
        while j < closest.len()
            invariant
                self.wf(),
                all_wf(closest@),
                1 <= j <= closest@.len(),
                m == min_sq(self.pos, closest@.take(j as int)),
                m <= 2 * 0x2_0000_0000 * 0x2_0000_0000,
            decreases closest@.len() - j,
        {
            assert(closest@.take(j + 1).drop_last() =~= closest@.take(j as int));
            let d = self.sq_distance_to(&closest[j]);
            if d < m {
                m = d;
            }
            j = j + 1;
        }
        assert(closest@.take(j as int) =~= closest@);
        m
    }

    /// The velocity after one update; see `steered_vel`.
    fn steer_velocity(&self, closest: &Vec<Boid>, jitter: Turn, width: i64, height: i64, opt: &BoidSimOpt) -> (r: Vec2)
        requires
            self.wf(),
            opt.wf(),
            jitter.wf(),
            all_wf(closest@),
            closest@.len() <= NEIGHBOR_LIMIT,
        ensures
            r == steered_vel(*opt, width as int, height as int, *self, closest@, jitter),
            speed_ok(*opt, r),
            r.within(opt.max_speed as int),
    {
        let c = self.fly_towards_center(closest, opt);
        let p = self.avoid_other_boids(closest, opt);
        let l = self.match_velocities(closest, opt);
        proof {
            lemma_sum4_bound(self.vel.x as int, c.x as int, p.x as int, l.x as int);
            lemma_sum4_bound(self.vel.y as int, c.y as int, p.y as int, l.y as int);
        }
        let v1 = Vec2 { x: self.vel.x + c.x + p.x + l.x, y: self.vel.y + c.y + p.y + l.y };
        let mut b = *self;
        let v2 = rotate(v1, jitter);
        proof {
            assert(v2.within(STEER_LIMIT as int));
        }
        b.vel = v2;
        b.keep_within_bounds(width, height, opt);
        b.limit_speed(opt);
        b.vel
    }

    /// This agent after one update against the neighbors `closest` with the
    /// jitter turn `jitter`; see `steered`.
    pub fn stepped(&self, closest: &Vec<Boid>, jitter: Turn, width: i64, height: i64, opt: &BoidSimOpt) -> (r: Boid)
        requires
            self.wf(),
            opt.wf(),
            jitter.wf(),
            all_wf(closest@),
            closest@.len() <= NEIGHBOR_LIMIT,
        ensures
            r == steered(*opt, width as int, height as int, *self, closest@, jitter),
            r.wf(),
            speed_ok(*opt, r.vel),
    {
        let mut b = *self;
        b.vel = self.steer_velocity(closest, jitter, width, height, opt);
        b.update_pos();
        if closest.len() > 0 {
            let m = self.nearest_sq(closest);
            proof {
                lemma_root_le(m as nat, DIST_LIMIT as nat);
            }
            b.nearest = isqrt(m) as i64;
        }
        b
    }
}


impl Boid {
    /// Random jitter: turns the velocity by one of `opt.jitter_turns`, drawn
    /// uniformly from `rng`.
    pub fn random_vel_change(&mut self, rng: &mut Xoroshiro128Plus, opt: &BoidSimOpt)
        requires
            old(self).vel.within(0x100_0000_0000_0000),
            opt.wf(),
        ensures
            exists|k: int|
                0 <= k < opt.jitter_turns@.len() && final(self).vel == rotated(
                    old(self).vel,
                    #[trigger] opt.jitter_turns@[k],
                ),
            keeps_speed(old(self).vel, final(self).vel),
            final(self).pos == old(self).pos,
            final(self).nearest == old(self).nearest,
    {
        let k = draw_between(rng, 0, opt.jitter_turns.len() as i64) as usize;
        let t = opt.jitter_turns[k];
        self.vel = rotate(self.vel, t);
    }
}

} // verus!
