use vstd::prelude::*;
use crate::boid::{
    all_wf, cell_count, cell_of, get_cell_for_point, lemma_cell_in_range, sees, speed_ok, steered,
    world_ok, Boid, NEIGHBOR_LIMIT,
};
use crate::fixed::ONE;
use crate::geom::{rescale, rescaled, rotate, rotated, Turn, Vec2};
use crate::opt::{BoidSimOpt, CELL_CAP_LIMIT, SIGHT_SAMPLE_LIMIT};
use crate::rng::draw_between;
use rand_xoshiro::Xoroshiro128Plus;

verus! {

/// A flock on a `width` x `height` plane, its agents kept in buckets, one per
/// grid cell of edge `opt.visual_range`.
pub struct BoidCloud {
    pub width: i64,
    pub height: i64,
    pub boid_cells: Vec<Vec<Boid>>,
    pub boid_count: usize,
    pub opt: BoidSimOpt,
}

pub type Grid = Seq<Seq<Boid>>;

/// Every agent is within bounds and lies in the bucket of its own cell.
pub open spec fn grid_ok(g: Grid, width: int, height: int, cs: int) -> bool {
    forall|c: int, j: int|
        0 <= c < g.len() && 0 <= j < g[c].len() ==> (#[trigger] g[c][j]).wf() && cell_of(
            g[c][j].pos,
            width,
            height,
            cs,
        ) == c
}

/// Number of agents over all buckets.
pub open spec fn total(g: Grid) -> nat
    decreases g.len(),
{
    if g.len() == 0 {
        0
    } else {
        total(g.drop_last()) + g.last().len()
    }
}

/// All agents, bucket after bucket.
pub open spec fn flat(g: Grid) -> Seq<Boid>
    decreases g.len(),
{
    if g.len() == 0 {
        seq![]
    } else {
        flat(g.drop_last()) + g.last()
    }
}

/// Every agent of the first `c` buckets, and of the first `i` slots of bucket
/// `c`, has its speed within bounds.
pub open spec fn settled(opt: BoidSimOpt, g: Grid, c: int, i: int) -> bool {
    &&& forall|c2: int, j: int|
        0 <= c2 < c && c2 < g.len() && 0 <= j < g[c2].len() ==> speed_ok(opt, (#[trigger] g[c2][j]).vel)
    &&& forall|j: int| 0 <= j < i && 0 <= c < g.len() && j < g[c].len() ==> speed_ok(opt, (#[trigger] g[c][j]).vel)
}

/// The point at distance about `visual_range` from `a`, along its heading
/// turned by `t`.
pub open spec fn sample_point(opt: BoidSimOpt, a: Boid, t: Turn) -> Vec2 {
    let h = rotated(rescaled(a.vel, opt.visual_range as int), t);
    Vec2 { x: (a.pos.x + h.x) as i64, y: (a.pos.y + h.y) as i64 }
}

/// The cells sampled along the sight cone of `a` for the first `n` turns of
/// `opt.sight_turns`: each once, in order of first appearance, without `home`.
pub open spec fn sample_cells(opt: BoidSimOpt, width: int, height: int, a: Boid, home: int, n: int) -> Seq<int>
    decreases n,
{
    if n <= 0 {
        seq![]
    } else {
        let prev = sample_cells(opt, width, height, a, home, n - 1);
        let k = cell_of(sample_point(opt, a, opt.sight_turns@[n - 1]), width, height, opt.visual_range as int);
        if k == home || prev.contains(k) {
            prev
        } else {
            prev.push(k)
        }
    }
}

/// The first `cap` agents of `s` from slot `j` on, other than slot `skip`,
/// that lie in the sight cone of `a`.
pub open spec fn pick(opt: BoidSimOpt, a: Boid, s: Seq<Boid>, j: int, skip: int, cap: int) -> Seq<Boid>
    decreases s.len() - j,
{
    if j < 0 || j >= s.len() || cap <= 0 {
        seq![]
    } else if j != skip && sees(opt, a, s[j]) {
        seq![s[j]] + pick(opt, a, s, j + 1, skip, cap - 1)
    } else {
        pick(opt, a, s, j + 1, skip, cap)
    }
}

/// The candidates picked from the first `n` of the sampled `cells`.
pub open spec fn gather(opt: BoidSimOpt, g: Grid, a: Boid, cells: Seq<int>, n: int) -> Seq<Boid>
    decreases n,
{
    if n <= 0 {
        seq![]
    } else {
        gather(opt, g, a, cells, n - 1) + pick(
            opt,
            a,
            g[cells[n - 1]],
            0,
            -1,
            opt.forward_cell_neighbors as int,
        )
    }
}

/// The neighbor sample of the agent in slot `i` of bucket `c`: up to
/// `cur_cell_neighbors` from its own bucket (itself excluded), then up to
/// `forward_cell_neighbors` from each sampled cell; all in its sight cone.
pub open spec fn neighbors(opt: BoidSimOpt, width: int, height: int, g: Grid, c: int, i: int) -> Seq<Boid> {
    let a = g[c][i];
    let cells = sample_cells(opt, width, height, a, c, opt.sight_turns@.len() as int);
    pick(opt, a, g[c], 0, i, opt.cur_cell_neighbors as int) + gather(opt, g, a, cells, cells.len() as int)
}

/// One update of the agent in slot `i` of bucket `c` with jitter turn `t`:
/// the updated agent is written back; if its cell changed, it is swap-removed
/// from bucket `c` and appended to the bucket of its new cell. The flag tells
/// whether it stayed (the cursor then moves on).
pub open spec fn step(opt: BoidSimOpt, width: int, height: int, g: Grid, c: int, i: int, t: Turn) -> (Grid, bool) {
    let b = steered(opt, width, height, g[c][i], neighbors(opt, width, height, g, c, i), t);
    let k = cell_of(b.pos, width, height, opt.visual_range as int);
    let g1 = g.update(c, g[c].update(i, b));
    if k == c || k < 0 || k >= g.len() {
        (g1, true)
    } else {
        (g1.update(c, g1[c].update(i, g1[c].last()).drop_last()).update(k, g[k].push(b)), false)
    }
}

/// The jitter turn of step `k` under the draws `d`.
pub open spec fn jitter_of(opt: BoidSimOpt, d: Seq<usize>, k: int) -> Turn {
    if 0 <= k < d.len() && d[k] < opt.jitter_turns@.len() {
        opt.jitter_turns@[d[k] as int]
    } else {
        Turn { cos: ONE, sin: 0 }
    }
}

/// The rest of a tick from bucket `c`, slot `i`, where step `k` uses the draw
/// `d[k]`: buckets in index order, each walked with a cursor that stays put
/// when its agent leaves.
pub open spec fn pass(opt: BoidSimOpt, width: int, height: int, g: Grid, c: int, i: int, d: Seq<usize>, k: int) -> Grid
    decreases g.len() - c, (if 0 <= c < g.len() { g[c].len() - i } else { 0 }),
{
    if c < 0 || c >= g.len() {
        g
    } else if i < 0 || i >= g[c].len() {
        pass(opt, width, height, g, c + 1, 0, d, k)
    } else {
        let (g2, stayed) = step(opt, width, height, g, c, i, jitter_of(opt, d, k));
        if stayed {
            pass(opt, width, height, g2, c, i + 1, d, k + 1)
        } else {
            pass(opt, width, height, g2, c, i, d, k + 1)
        }
    }
}

/// One tick of the flock `g` under the jitter draws `d`.
pub open spec fn tick(opt: BoidSimOpt, width: int, height: int, g: Grid, d: Seq<usize>) -> Grid {
    pass(opt, width, height, g, 0, 0, d, 0)
}


pub open spec fn skip_index(skip: Option<usize>) -> int {
    match skip {
        Some(j) => j as int,
        None => -1,
    }
}

/// Appends `pick(a, s, 0, skip, cap)` to `out`.
fn pick_into(a: &Boid, s: &Vec<Boid>, skip: Option<usize>, cap: usize, opt: &BoidSimOpt, out: &mut Vec<Boid>)
    requires
        a.wf(),
        opt.wf(),
        all_wf(s@),
        all_wf(old(out)@),
    ensures
        final(out)@ == old(out)@ + pick(*opt, *a, s@, 0, skip_index(skip), cap as int),
        all_wf(final(out)@),
        final(out)@.len() <= old(out)@.len() + cap,
{
    let ghost base = out@;
    let mut j: usize = 0;
    let mut n: usize = 0;
    assert(out@ + pick(*opt, *a, s@, 0, skip_index(skip), cap as int) =~= base + pick(
        *opt,
        *a,
        s@,
        0,
        skip_index(skip),
        cap as int,
    ));
    while j < s.len() && n < cap
        invariant
            a.wf(),
            opt.wf(),
            all_wf(s@),
            all_wf(out@),
            j <= s@.len(),
            n <= cap,
            out@.len() == base.len() + n,
            out@ + pick(*opt, *a, s@, j as int, skip_index(skip), cap - n) == base + pick(
                *opt,
                *a,
                s@,
                0,
                skip_index(skip),
                cap as int,
            ),
        decreases s@.len() - j,
    {
        let b = s[j];
        assert(b.wf());
        let skipped = match skip {
            Some(k) => k == j,
            None => false,
        };
        if !skipped && a.in_sight_cone(&b, opt) {
            let ghost before = out@;
            out.push(b);
            n = n + 1;
            assert(before + (seq![b] + pick(*opt, *a, s@, j + 1, skip_index(skip), cap - n)) =~= out@ + pick(
                *opt,
                *a,
                s@,
                j + 1,
                skip_index(skip),
                cap - n,
            ));
        }
        j = j + 1;
    }
    assert(pick(*opt, *a, s@, j as int, skip_index(skip), cap - n) =~= Seq::<Boid>::empty());
    assert(out@ =~= out@ + Seq::<Boid>::empty());
}

impl BoidCloud {
    /// The buckets as sequences.
    pub open spec fn cells(&self) -> Grid {
        self.boid_cells@.map_values(|b: Vec<Boid>| b@)
    }

    pub open spec fn wf(&self) -> bool {
        &&& self.opt.wf()
        &&& world_ok(self.width as int, self.height as int)
        &&& self.cells().len() == cell_count(self.width as int, self.height as int, self.opt.visual_range as int)
        &&& cell_count(self.width as int, self.height as int, self.opt.visual_range as int) <= usize::MAX
        &&& grid_ok(self.cells(), self.width as int, self.height as int, self.opt.visual_range as int)
        &&& total(self.cells()) == self.boid_count
    }

    /// `sample_cells` for the agent `a` of bucket `home`.
    fn sample_cells_of(&self, a: &Boid, home: usize) -> (r: Vec<usize>)
        requires
            self.wf(),
            a.wf(),
        ensures
            r@.len() == sample_cells(
                self.opt,
                self.width as int,
                self.height as int,
                *a,
                home as int,
                self.opt.sight_turns@.len() as int,
            ).len(),
            forall|j: int|
                0 <= j < r@.len() ==> r@[j] as int == #[trigger] sample_cells(
                    self.opt,
                    self.width as int,
                    self.height as int,
                    *a,
                    home as int,
                    self.opt.sight_turns@.len() as int,
                )[j],
            forall|j: int| 0 <= j < r@.len() ==> (#[trigger] r@[j]) < self.cells().len(),
            r@.len() <= SIGHT_SAMPLE_LIMIT,
    {
        let opt = &self.opt;
        let h = rescale(a.vel, opt.visual_range);
        let mut r: Vec<usize> = Vec::new();
        let mut n: usize = 0;
        while n < opt.sight_turns.len()
            invariant
                self.wf(),
                a.wf(),
                opt == &self.opt,
                h == rescaled(a.vel, opt.visual_range as int),
                h.within(opt.visual_range as int),
                n <= opt.sight_turns@.len(),
                r@.len() == sample_cells(*opt, self.width as int, self.height as int, *a, home as int, n as int).len(),
                r@.len() <= n,
                forall|j: int|
                    0 <= j < r@.len() ==> r@[j] as int == #[trigger] sample_cells(
                        *opt,
                        self.width as int,
                        self.height as int,
                        *a,
                        home as int,
                        n as int,
                    )[j],
                forall|j: int| 0 <= j < r@.len() ==> (#[trigger] r@[j]) < self.cells().len(),
            decreases opt.sight_turns@.len() - n,
        {
            let t = opt.sight_turns[n];
            assert(t.wf());
            let d = rotate(h, t);
            let p = Vec2 { x: a.pos.x + d.x, y: a.pos.y + d.y };
            let k = get_cell_for_point(p, self.width, self.height, opt);
            let ghost prev = sample_cells(*opt, self.width as int, self.height as int, *a, home as int, n as int);
            let mut seen = k == home;
            let mut j: usize = 0;
            while j < r.len()
                invariant
                    j <= r@.len(),
                    r@.len() == prev.len(),
                    forall|q: int| 0 <= q < r@.len() ==> r@[q] as int == #[trigger] prev[q],
                    seen == (k == home || exists|q: int| 0 <= q < j && #[trigger] prev[q] == k as int),
                decreases r@.len() - j,
            {
                assert(r@[j as int] as int == prev[j as int]);
                if r[j] == k {
                    seen = true;
                }
                proof {
                    if !(k == home) && !(r@[j as int] == k) {
                        assert forall|q: int| 0 <= q < j + 1 && #[trigger] prev[q] == k as int implies 0 <= q < j by {
                            if q == j {
                                assert(prev[j as int] == r@[j as int] as int);
                            }
                        }
                    }
                }
                j = j + 1;
            }
            assert(seen == (k == home || prev.contains(k as int)));
            if !seen {
                r.push(k);
            }
            n = n + 1;
        }
        r
    }
}


impl BoidCloud {
    proof fn lemma_bucket(&self, c: int)
        requires
            0 <= c < self.boid_cells@.len(),
        ensures
            self.boid_cells@[c]@ == self.cells()[c],
            self.cells().len() == self.boid_cells@.len(),
    {
    }

    proof fn lemma_bucket_wf(&self, c: int)
        requires
            self.wf(),
            0 <= c < self.cells().len(),
        ensures
            all_wf(self.boid_cells@[c]@),
    {
        assert forall|j: int| 0 <= j < self.boid_cells@[c]@.len() implies (#[trigger] self.boid_cells@[c]@[j]).wf() by {
            assert(self.cells()[c][j] == self.boid_cells@[c]@[j]);
        }
    }

    /// The neighbor sample of the agent in slot `i` of bucket `c`; see `neighbors`.
    pub fn neighbors_of(&self, c: usize, i: usize) -> (r: Vec<Boid>)
        requires
            self.wf(),
            c < self.cells().len(),
            i < self.cells()[c as int].len(),
        ensures
            r@ == neighbors(self.opt, self.width as int, self.height as int, self.cells(), c as int, i as int),
            all_wf(r@),
            r@.len() <= NEIGHBOR_LIMIT,
    {
        proof {
            self.lemma_bucket(c as int);
            self.lemma_bucket_wf(c as int);
        }
        let a = self.boid_cells[c][i];
        assert(a == self.cells()[c as int][i as int]);
        assert(a.wf());
        let mut out: Vec<Boid> = Vec::new();
        pick_into(&a, &self.boid_cells[c], Some(i), self.opt.cur_cell_neighbors, &self.opt, &mut out);
        assert(out@ =~= pick(self.opt, a, self.cells()[c as int], 0, i as int, self.opt.cur_cell_neighbors as int));
        let cells = self.sample_cells_of(&a, c);
        let ghost sc = sample_cells(
            self.opt,
            self.width as int,
            self.height as int,
            a,
            c as int,
            self.opt.sight_turns@.len() as int,
        );
        let ghost own = out@;
        let mut n: usize = 0;
        while n < cells.len()
            invariant
                self.wf(),
                a.wf(),
                n <= cells@.len(),
                cells@.len() == sc.len(),
                cells@.len() <= SIGHT_SAMPLE_LIMIT,
                forall|j: int| 0 <= j < cells@.len() ==> cells@[j] as int == #[trigger] sc[j],
                forall|j: int| 0 <= j < cells@.len() ==> (#[trigger] cells@[j]) < self.cells().len(),
                own.len() <= self.opt.cur_cell_neighbors,
                out@ == own + gather(self.opt, self.cells(), a, sc, n as int),
                out@.len() <= own.len() + n * self.opt.forward_cell_neighbors,
                all_wf(out@),
            decreases cells@.len() - n,
        {
            let k = cells[n];
            assert(cells@[n as int] < self.cells().len());
            proof {
                self.lemma_bucket(k as int);
                self.lemma_bucket_wf(k as int);
                assert(sc[n as int] == k as int);
            }
            let ghost before = out@;
            pick_into(&a, &self.boid_cells[k], None, self.opt.forward_cell_neighbors, &self.opt, &mut out);
            assert(out@ =~= own + gather(self.opt, self.cells(), a, sc, n + 1));
            assert(out@.len() <= own.len() + (n + 1) * self.opt.forward_cell_neighbors) by (nonlinear_arith)
                requires
                    out@.len() <= before.len() + self.opt.forward_cell_neighbors,
                    before.len() <= own.len() + n * self.opt.forward_cell_neighbors;
            n = n + 1;
        }
        assert(out@.len() <= NEIGHBOR_LIMIT) by (nonlinear_arith)
            requires
                out@.len() <= own.len() + n * self.opt.forward_cell_neighbors,
                own.len() <= self.opt.cur_cell_neighbors,
                self.opt.cur_cell_neighbors <= CELL_CAP_LIMIT,
                self.opt.forward_cell_neighbors <= CELL_CAP_LIMIT,
                n <= SIGHT_SAMPLE_LIMIT;
        out
    }
}


pub proof fn lemma_total_update(g: Grid, c: int, x: Seq<Boid>)
    requires
        0 <= c < g.len(),
    ensures
        total(g.update(c, x)) == total(g) - g[c].len() + x.len(),
    decreases g.len(),
{
    let g2 = g.update(c, x);
    if c == g.len() - 1 {
        assert(g2.drop_last() =~= g.drop_last());
    } else {
        assert(g2.drop_last() =~= g.drop_last().update(c, x));
        lemma_total_update(g.drop_last(), c, x);
    }
}

impl BoidCloud {
    /// Appends `b` to the bucket of `k`, its own cell.
    pub fn insert(&mut self, b: Boid, k: usize)
        requires
            old(self).wf(),
            b.wf(),
            k == cell_of(b.pos, old(self).width as int, old(self).height as int, old(self).opt.visual_range as int),
            old(self).boid_count < usize::MAX,
        ensures
            final(self).wf(),
            final(self).cells() == old(self).cells().update(k as int, old(self).cells()[k as int].push(b)),
            final(self).width == old(self).width,
            final(self).height == old(self).height,
            final(self).opt == old(self).opt,
            final(self).boid_count == old(self).boid_count + 1,
    {
        let ghost g = self.cells();
        proof {
            lemma_cell_in_range(b.pos, self.width as int, self.height as int, self.opt.visual_range as int);
            self.lemma_bucket(k as int);
        }
        let mut bucket: Vec<Boid> = Vec::new();
        std::mem::swap(&mut bucket, &mut self.boid_cells[k]);
        bucket.push(b);
        std::mem::swap(&mut bucket, &mut self.boid_cells[k]);
        self.boid_count = self.boid_count + 1;
        proof {
            let g2 = g.update(k as int, g[k as int].push(b));
            assert(self.cells() =~= g2);
            lemma_total_update(g, k as int, g2[k as int]);
            assert forall|c: int, j: int| 0 <= c < g2.len() && 0 <= j < g2[c].len() implies
                (#[trigger] g2[c][j]).wf() && cell_of(g2[c][j].pos, self.width as int, self.height as int, self.opt.visual_range as int) == c by {
                if c != k as int || j < g[c].len() {
                    assert(g2[c][j] == g[c][j]);
                }
            }
        }
    }

    /// Removes slot `j` of bucket `k` and returns its agent; the last agent of
    /// the bucket takes its place.
    pub fn remove_at(&mut self, k: usize, j: usize) -> (r: Boid)
        requires
            old(self).wf(),
            k < old(self).cells().len(),
            j < old(self).cells()[k as int].len(),
        ensures
            final(self).wf(),
            r == old(self).cells()[k as int][j as int],
            final(self).cells() == old(self).cells().update(
                k as int,
                old(self).cells()[k as int].update(j as int, old(self).cells()[k as int].last()).drop_last(),
            ),
            final(self).width == old(self).width,
            final(self).height == old(self).height,
            final(self).opt == old(self).opt,
            final(self).boid_count == old(self).boid_count - 1,
    {
        let ghost g = self.cells();
        proof {
            self.lemma_bucket(k as int);
        }
        let mut bucket: Vec<Boid> = Vec::new();
        std::mem::swap(&mut bucket, &mut self.boid_cells[k]);
        let r = bucket.swap_remove(j);
        std::mem::swap(&mut bucket, &mut self.boid_cells[k]);
        proof {
            let g2 = g.update(k as int, g[k as int].update(j as int, g[k as int].last()).drop_last());
            assert(self.cells() =~= g2);
            lemma_total_update(g, k as int, g2[k as int]);
            assert forall|c: int, q: int| 0 <= c < g2.len() && 0 <= q < g2[c].len() implies
                (#[trigger] g2[c][q]).wf() && cell_of(g2[c][q].pos, self.width as int, self.height as int, self.opt.visual_range as int) == c by {
                if c == k as int && q == j as int {
                    assert(g2[c][q] == g[c][g[c].len() - 1]);
                } else {
                    assert(g2[c][q] == g[c][q]);
                }
            }
        }
        self.boid_count = self.boid_count - 1;
        r
    }

    /// One update of the agent in slot `i` of bucket `c`, with the jitter turn
    /// `opt.jitter_turns[jitter]`; see `step`. Returns whether the agent stayed
    /// in bucket `c`.
    pub fn update_slot(&mut self, c: usize, i: usize, jitter: usize) -> (stayed: bool)
        requires
            old(self).wf(),
            c < old(self).cells().len(),
            i < old(self).cells()[c as int].len(),
            jitter < old(self).opt.jitter_turns@.len(),
        ensures
            final(self).wf(),
            (final(self).cells(), stayed) == step(
                old(self).opt,
                old(self).width as int,
                old(self).height as int,
                old(self).cells(),
                c as int,
                i as int,
                old(self).opt.jitter_turns@[jitter as int],
            ),
            settled(old(self).opt, old(self).cells(), c as int, i as int) ==> settled(
                old(self).opt,
                final(self).cells(),
                c as int,
                if stayed { i + 1 } else { i as int },
            ),
            final(self).width == old(self).width,
            final(self).height == old(self).height,
            final(self).opt == old(self).opt,
            final(self).boid_count == old(self).boid_count,
    {
        let ghost g = self.cells();
        let nb = self.neighbors_of(c, i);
        proof {
            self.lemma_bucket(c as int);
            self.lemma_bucket_wf(c as int);
        }
        let a = self.boid_cells[c][i];
        let t = self.opt.jitter_turns[jitter];
        assert(t.wf());
        let b = a.stepped(&nb, t, self.width, self.height, &self.opt);
        let k = get_cell_for_point(b.pos, self.width, self.height, &self.opt);
        let ghost g1 = g.update(c as int, g[c as int].update(i as int, b));
        if k == c {
            let mut bucket: Vec<Boid> = Vec::new();
            std::mem::swap(&mut bucket, &mut self.boid_cells[c]);
            bucket.set(i, b);
            std::mem::swap(&mut bucket, &mut self.boid_cells[c]);
            assert(self.cells() =~= g1);
            proof {
                lemma_total_update(g, c as int, g1[c as int]);
                if settled(self.opt, g, c as int, i as int) {
                    assert forall|j: int| 0 <= j < i + 1 && j < g1[c as int].len() implies speed_ok(self.opt, (#[trigger] g1[c as int][j]).vel) by {
                        if j < i {
                            assert(g1[c as int][j] == g[c as int][j]);
                        }
                    }
                    assert forall|c2: int, j: int| 0 <= c2 < c && 0 <= j < g1[c2].len() implies speed_ok(self.opt, (#[trigger] g1[c2][j]).vel) by {
                        assert(g1[c2][j] == g[c2][j]);
                    }
                }
                assert forall|c2: int, j: int| 0 <= c2 < g1.len() && 0 <= j < g1[c2].len() implies
                    (#[trigger] g1[c2][j]).wf() && cell_of(g1[c2][j].pos, self.width as int, self.height as int, self.opt.visual_range as int) == c2 by {
                    if c2 != c || j != i {
                        assert(g1[c2][j] == g[c2][j]);
                    }
                }
            }
            true
        } else {
            self.remove_at(c, i);
            self.insert(b, k);
            let ghost g2 = g1.update(c as int, g1[c as int].update(i as int, g1[c as int].last()).drop_last());
            let ghost g3 = g2.update(k as int, g[k as int].push(b));
            assert(g1[c as int].update(i as int, g1[c as int].last()).drop_last() =~= g[c as int].update(
                i as int,
                g[c as int].last(),
            ).drop_last());
            assert(self.cells() =~= g3);
            proof {
                if settled(self.opt, g, c as int, i as int) {
                    assert forall|j: int| 0 <= j < i && j < g3[c as int].len() implies speed_ok(self.opt, (#[trigger] g3[c as int][j]).vel) by {
                        assert(g3[c as int][j] == g[c as int][j]);
                    }
                    assert forall|c2: int, j: int| 0 <= c2 < c && 0 <= j < g3[c2].len() implies speed_ok(self.opt, (#[trigger] g3[c2][j]).vel) by {
                        if c2 == k as int {
                            if j < g[c2].len() {
                                assert(g3[c2][j] == g[c2][j]);
                            } else {
                                assert(g3[c2][j] == b);
                            }
                        } else {
                            assert(g3[c2][j] == g[c2][j]);
                        }
                    }
                }
            }
            false
        }
    }
}


/// `d` begins with the draws `p`.
pub open spec fn extends(d: Seq<usize>, p: Seq<usize>) -> bool {
    p.len() <= d.len() && forall|j: int| 0 <= j < p.len() ==> d[j] == p[j]
}

impl BoidCloud {
    /// Advances the flock by one tick: every bucket in index order, each agent
    /// updated by `update_slot` with a jitter turn drawn uniformly from `rng`.
    /// The result is `tick` of the old buckets under the draws taken, and every
    /// agent ends with its speed within bounds.
    pub fn update(&mut self, rng: &mut Xoroshiro128Plus)
        requires
            old(self).wf(),
        ensures
            final(self).wf(),
            final(self).width == old(self).width,
            final(self).height == old(self).height,
            final(self).opt == old(self).opt,
            final(self).boid_count == old(self).boid_count,
            grid_ok(
                final(self).cells(),
                final(self).width as int,
                final(self).height as int,
                final(self).opt.visual_range as int,
            ),
            total(final(self).cells()) == total(old(self).cells()),
            exists|d: Seq<usize>|
                (forall|k: int| 0 <= k < d.len() ==> #[trigger] d[k] < old(self).opt.jitter_turns@.len())
                    && final(self).cells() == tick(
                    old(self).opt,
                    old(self).width as int,
                    old(self).height as int,
                    old(self).cells(),
                    d,
                ),
            forall|c: int, j: int|
                0 <= c < final(self).cells().len() && 0 <= j < final(self).cells()[c].len() ==> speed_ok(
                    final(self).opt,
                    (#[trigger] final(self).cells()[c][j]).vel,
                ),
    {
        let ghost g0 = self.cells();
        let ghost opt = self.opt;
        let ghost w = self.width as int;
        let ghost h = self.height as int;
        let ghost mut drawn: Seq<usize> = seq![];
        let n = self.boid_cells.len();
        let mut c: usize = 0;
        while c < n
            invariant
                self.wf(),
                self.opt == opt,
                self.width == w,
                self.height == h,
                self.boid_count == old(self).boid_count,
                g0 == old(self).cells(),
                n == self.cells().len(),
                c <= n,
                settled(opt, self.cells(), c as int, 0),
                forall|k: int| 0 <= k < drawn.len() ==> #[trigger] drawn[k] < opt.jitter_turns@.len(),
                forall|d: Seq<usize>|
                    #[trigger] extends(d, drawn) ==> pass(opt, w, h, self.cells(), c as int, 0, d, drawn.len() as int)
                        == pass(opt, w, h, g0, 0, 0, d, 0),
            decreases n - c,
        {
            let mut i: usize = 0;
            while i < self.boid_cells[c].len()
                invariant
                    self.wf(),
                    self.opt == opt,
                    self.width == w,
                    self.height == h,
                    self.boid_count == old(self).boid_count,
                    n == self.cells().len(),
                    c < n,
                    settled(opt, self.cells(), c as int, i as int),
                    forall|k: int| 0 <= k < drawn.len() ==> #[trigger] drawn[k] < opt.jitter_turns@.len(),
                    forall|d: Seq<usize>|
                        #[trigger] extends(d, drawn) ==> pass(opt, w, h, self.cells(), c as int, i as int, d, drawn.len() as int)
                            == pass(opt, w, h, g0, 0, 0, d, 0),
                decreases self.cells()[c as int].len() - i,
            {
                proof {
                    self.lemma_bucket(c as int);
                }
                let jitter = draw_between(rng, 0, self.opt.jitter_turns.len() as i64) as usize;
                let ghost before = self.cells();
                let stayed = self.update_slot(c, i, jitter);
                proof {
                    let k = drawn.len() as int;
                    let next = drawn.push(jitter);
                    assert forall|d: Seq<usize>| #[trigger] extends(d, next) implies pass(opt, w, h, self.cells(), c as int, if stayed { i + 1 } else { i as int }, d, next.len() as int)
                        == pass(opt, w, h, g0, 0, 0, d, 0) by {
                        assert(extends(d, drawn));
                        assert(d[k] == jitter);
                        assert(jitter_of(opt, d, k) == opt.jitter_turns@[jitter as int]);
                    }
                    drawn = next;
                }
                if stayed {
                    i = i + 1;
                }
            }
            proof {
                self.lemma_bucket(c as int);
                assert forall|d: Seq<usize>| #[trigger] extends(d, drawn) implies pass(opt, w, h, self.cells(), (c + 1) as int, 0, d, drawn.len() as int)
                    == pass(opt, w, h, g0, 0, 0, d, 0) by {
                    assert(pass(opt, w, h, self.cells(), c as int, i as int, d, drawn.len() as int)
                        == pass(opt, w, h, self.cells(), (c + 1) as int, 0, d, drawn.len() as int));
                }
            }
            c = c + 1;
        }
        proof {
            assert(extends(drawn, drawn));
            assert(pass(opt, w, h, self.cells(), c as int, 0, drawn, drawn.len() as int) == self.cells());
            assert(self.cells() == tick(opt, w, h, g0, drawn));
        }
    }
}


/// A draw lies in `[0, max)`; a zero width gives zero.
pub open spec fn draw_in(x: i64, max: i64) -> bool {
    0 <= x < max || (max == 0 && x == 0)
}

/// The vector made from two draws: as drawn, or, when `centered`, each shifted
/// down by half the width of its range.
pub open spec fn from_draws(x1: i64, x2: i64, max_1: i64, max_2: i64, centered: bool) -> Vec2 {
    if centered {
        Vec2 { x: (x1 - max_1 / 2) as i64, y: (x2 - max_2 / 2) as i64 }
    } else {
        Vec2 { x: x1, y: x2 }
    }
}

/// `from_draws` on the draws `x1` from `[0, max_1)` and `x2` from `[0, max_2)`.
pub fn vec_from_draws(x1: i64, x2: i64, max_1: i64, max_2: i64, centered: bool) -> (r: Vec2)
    requires
        0 <= max_1,
        0 <= max_2,
        draw_in(x1, max_1),
        draw_in(x2, max_2),
    ensures
        r == from_draws(x1, x2, max_1, max_2, centered),
        !centered ==> draw_in(r.x, max_1) && draw_in(r.y, max_2),
        centered ==> -(max_1 / 2) <= r.x < max_1 - max_1 / 2 || (max_1 == 0 && r.x == 0),
        centered ==> -(max_2 / 2) <= r.y < max_2 - max_2 / 2 || (max_2 == 0 && r.y == 0),
{
    if centered {
        Vec2 { x: x1 - max_1 / 2, y: x2 - max_2 / 2 }
    } else {
        Vec2 { x: x1, y: x2 }
    }
}

/// A vector with components drawn uniformly from `[0, max_1)` and
/// `[0, max_2)` and passed to `vec_from_draws`. A zero width draws nothing
/// and gives a zero draw.
fn rand_vec2(rng: &mut Xoroshiro128Plus, max_1: i64, max_2: i64, centered: bool) -> (r: Vec2)
    requires
        0 <= max_1,
        0 <= max_2,
    ensures
        exists|x1: i64, x2: i64|
            draw_in(x1, max_1) && draw_in(x2, max_2) && r == #[trigger] from_draws(x1, x2, max_1, max_2, centered),
        !centered ==> draw_in(r.x, max_1) && draw_in(r.y, max_2),
        centered ==> -(max_1 / 2) <= r.x < max_1 - max_1 / 2 || (max_1 == 0 && r.x == 0),
        centered ==> -(max_2 / 2) <= r.y < max_2 - max_2 / 2 || (max_2 == 0 && r.y == 0),
{
    let x1 = if max_1 > 0 { draw_between(rng, 0, max_1) } else { 0 };
    let x2 = if max_2 > 0 { draw_between(rng, 0, max_2) } else { 0 };
    vec_from_draws(x1, x2, max_1, max_2, centered)
}

impl BoidCloud {
    /// A flock of `boid_count` agents at positions drawn uniformly over the
    /// plane, with velocity components drawn uniformly from a range of width
    /// `max_speed / 2` centered on zero.
    pub fn new(boid_count: usize, width: i64, height: i64, rng: &mut Xoroshiro128Plus, opt: BoidSimOpt) -> (r: BoidCloud)
        requires
            opt.wf(),
            world_ok(width as int, height as int),
            cell_count(width as int, height as int, opt.visual_range as int) <= usize::MAX,
        ensures
            r.wf(),
            r.width == width,
            r.height == height,
            r.opt == opt,
            r.boid_count == boid_count,
            forall|c: int, j: int|
                0 <= c < r.cells().len() && 0 <= j < r.cells()[c].len() ==> {
                    let b = #[trigger] r.cells()[c][j];
                    let s = opt.max_speed / 2;
                    &&& 0 <= b.pos.x < width
                    &&& 0 <= b.pos.y < height
                    &&& -(s / 2) <= b.vel.x < s - s / 2 || (s == 0 && b.vel.x == 0)
                    &&& -(s / 2) <= b.vel.y < s - s / 2 || (s == 0 && b.vel.y == 0)
                    &&& b.nearest == 0
                },
    {
        let cs = opt.visual_range;
        let ncells = ((((width + cs - 1) / cs) as u128) * (((height + cs - 1) / cs) as u128)) as usize;
        let mut cells: Vec<Vec<Boid>> = Vec::new();
        while cells.len() < ncells
            invariant
                ncells == cell_count(width as int, height as int, cs as int),
                cells@.len() <= ncells,
                forall|c: int| 0 <= c < cells@.len() ==> (#[trigger] cells@[c])@.len() == 0,
            decreases ncells - cells@.len(),
        {
            cells.push(Vec::new());
        }
        let mut cloud = BoidCloud { width, height, boid_cells: cells, boid_count: 0, opt };
        proof {
            let g = cloud.cells();
            assert forall|c: int| 0 <= c <= g.len() implies total(#[trigger] g.take(c)) == 0 by {
                lemma_total_empty(g, c);
            }
            assert(g.take(g.len() as int) =~= g);
        }
        let s = cloud.opt.max_speed / 2;
        let mut made: usize = 0;
        while made < boid_count
            invariant
                cloud.wf(),
                cloud.width == width,
                cloud.height == height,
                cloud.opt == opt,
                cloud.boid_count == made,
                made <= boid_count,
                s == opt.max_speed / 2,
                cs == opt.visual_range,
                forall|c: int, j: int|
                    0 <= c < cloud.cells().len() && 0 <= j < cloud.cells()[c].len() ==> {
                        let b = #[trigger] cloud.cells()[c][j];
                        &&& 0 <= b.pos.x < width
                        &&& 0 <= b.pos.y < height
                        &&& -(s / 2) <= b.vel.x < s - s / 2 || (s == 0 && b.vel.x == 0)
                        &&& -(s / 2) <= b.vel.y < s - s / 2 || (s == 0 && b.vel.y == 0)
                        &&& b.nearest == 0
                    },
            decreases boid_count - made,
        {
            let pos = rand_vec2(rng, width, height, false);
            let vel = rand_vec2(rng, s, s, true);
            let b = Boid::new(pos, vel);
            let k = b.get_cell(width, height, &cloud.opt);
            let ghost g = cloud.cells();
            cloud.insert(b, k);
            proof {
                lemma_cell_in_range(b.pos, width as int, height as int, cs as int);
                let g2 = cloud.cells();
                assert forall|c: int, j: int| 0 <= c < g2.len() && 0 <= j < g2[c].len() implies
                    (#[trigger] g2[c][j]) == g[c][j] || g2[c][j] == b by {
                    if c == k as int && j == g[c].len() {
                        assert(g2[c][j] == b);
                    } else {
                        assert(g2[c][j] == g[c][j]);
                    }
                }
            }
            made = made + 1;
        }
        cloud
    }

    /// All agents, bucket after bucket.
    pub fn boids(&self) -> (r: Vec<Boid>)
        ensures
            r@ == flat(self.cells()),
    {
        let mut r: Vec<Boid> = Vec::new();
        let mut c: usize = 0;
        while c < self.boid_cells.len()
            invariant
                c <= self.cells().len(),
                self.cells().len() == self.boid_cells@.len(),
                r@ == flat(self.cells().take(c as int)),
            decreases self.boid_cells@.len() - c,
        {
            let bucket = &self.boid_cells[c];
            assert(bucket@ == self.cells()[c as int]);
            let ghost start = r@;
            let mut j: usize = 0;
            while j < bucket.len()
                invariant
                    j <= bucket@.len(),
                    r@ == start + bucket@.take(j as int),
                decreases bucket@.len() - j,
            {
                r.push(bucket[j]);
                j = j + 1;
                assert(r@ =~= start + bucket@.take(j as int));
            }
            assert(self.cells().take(c + 1).drop_last() =~= self.cells().take(c as int));
            assert(bucket@.take(j as int) =~= bucket@);
            c = c + 1;
        }
        assert(self.cells().take(c as int) =~= self.cells());
        r
    }
}

proof fn lemma_total_empty(g: Grid, c: int)
    requires
        0 <= c <= g.len(),
        forall|k: int| 0 <= k < g.len() ==> (#[trigger] g[k]).len() == 0,
    ensures
        total(g.take(c)) == 0,
    decreases c,
{
    if c > 0 {
        assert(g.take(c).drop_last() =~= g.take(c - 1));
        lemma_total_empty(g, c - 1);
    }
}


/// A tick is determined by the buckets, the plane, the configuration and the
/// jitter draws: two flocks that agree on these agree after the tick.
pub proof fn lemma_tick_deterministic(a: BoidCloud, b: BoidCloud, d: Seq<usize>)
    requires
        a.cells() == b.cells(),
        a.opt == b.opt,
        a.width == b.width,
        a.height == b.height,
    ensures
        tick(a.opt, a.width as int, a.height as int, a.cells(), d) == tick(
            b.opt,
            b.width as int,
            b.height as int,
            b.cells(),
            d,
        ),
{
}


proof fn lemma_step_total(opt: BoidSimOpt, width: int, height: int, g: Grid, c: int, i: int, t: Turn)
    requires
        0 <= c < g.len(),
        0 <= i < g[c].len(),
    ensures
        total(step(opt, width, height, g, c, i, t).0) == total(g),
        step(opt, width, height, g, c, i, t).0.len() == g.len(),
{
    let b = steered(opt, width, height, g[c][i], neighbors(opt, width, height, g, c, i), t);
    let k = cell_of(b.pos, width, height, opt.visual_range as int);
    let g1 = g.update(c, g[c].update(i, b));
    lemma_total_update(g, c, g1[c]);
    if !(k == c || k < 0 || k >= g.len()) {
        let g2 = g1.update(c, g1[c].update(i, g1[c].last()).drop_last());
        lemma_total_update(g1, c, g2[c]);
        lemma_total_update(g2, k, g[k].push(b));
    }
}

proof fn lemma_pass_total(opt: BoidSimOpt, width: int, height: int, g: Grid, c: int, i: int, d: Seq<usize>, k: int)
    ensures
        total(pass(opt, width, height, g, c, i, d, k)) == total(g),
    decreases g.len() - c, (if 0 <= c < g.len() { g[c].len() - i } else { 0 }),
{
    if c < 0 || c >= g.len() {
    } else if i < 0 || i >= g[c].len() {
        lemma_pass_total(opt, width, height, g, c + 1, 0, d, k);
    } else {
        let (g2, stayed) = step(opt, width, height, g, c, i, jitter_of(opt, d, k));
        lemma_step_total(opt, width, height, g, c, i, jitter_of(opt, d, k));
        if stayed {
            lemma_pass_total(opt, width, height, g2, c, i + 1, d, k + 1);
        } else {
            lemma_pass_total(opt, width, height, g2, c, i, d, k + 1);
        }
    }
}

/// Population conservation: whatever the jitter draws, a tick leaves as many
/// agents over all buckets as there were.
pub proof fn lemma_tick_conserves_population(opt: BoidSimOpt, width: int, height: int, g: Grid, d: Seq<usize>)
    ensures
        total(tick(opt, width, height, g, d)) == total(g),
{
    lemma_pass_total(opt, width, height, g, 0, 0, d, 0);
}

} // verus!
