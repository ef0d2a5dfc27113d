use vstd::prelude::*;
use crate::fixed::ONE;
use crate::geom::{Turn, COORD_LIMIT, SPEED_LIMIT};

verus! {

/// Most candidates taken from one cell.
pub const CELL_CAP_LIMIT: usize = 1024;

/// Most entries of the jitter table.
pub const JITTER_TABLE_LIMIT: usize = 65536;

/// Most cells sampled along the sight cone.
pub const SIGHT_SAMPLE_LIMIT: usize = 16;

/// The tunable parameters of a flock. Lengths and speeds are in fixed point
/// (`ONE` per unit); coefficients and factors are fixed-point fractions.
pub struct BoidSimOpt {
    /// Pull toward the center of the visible neighbors.
    pub coherence: i64,
    /// Push away from neighbors within `avoid_range`.
    pub separation: i64,
    /// Pull toward the mean velocity of the visible neighbors.
    pub alignment: i64,
    pub avoid_range: i64,
    /// Sight distance; also the edge of a grid cell.
    pub visual_range: i64,
    /// Cosine of half the sight angle.
    pub sight_cos: i64,
    /// Rotations of the heading at which cells along the sight cone are sampled.
    pub sight_turns: Vec<Turn>,
    /// The random rotations, one of which is drawn uniformly each step.
    pub jitter_turns: Vec<Turn>,
    pub min_speed: i64,
    pub max_speed: i64,
    /// Most neighbors taken from the agent's own cell.
    pub cur_cell_neighbors: usize,
    /// Most neighbors taken from each sampled cell.
    pub forward_cell_neighbors: usize,
    /// Distance from an edge at which agents start to turn back.
    pub edge_turn_margin: i64,
    /// How strongly agents turn back at an edge.
    pub edge_turn_factor: i64,
}

impl BoidSimOpt {
    /// A usable configuration: coefficients and factors in `[0, ONE]`,
    /// `min_speed <= max_speed`, a positive visual range, rotations with
    /// components in `[-ONE, ONE]` and at least one jitter rotation. The upper
    /// limits on lengths, speeds and counts keep every intermediate product
    /// within 128 bits.
    pub open spec fn wf(&self) -> bool {
        &&& 0 <= self.coherence <= ONE
        &&& 0 <= self.separation <= ONE
        &&& 0 <= self.alignment <= ONE
        &&& 0 <= self.edge_turn_factor <= ONE
        &&& 0 <= self.avoid_range <= COORD_LIMIT
        &&& 1 <= self.visual_range <= COORD_LIMIT
        &&& 0 <= self.edge_turn_margin <= COORD_LIMIT
        &&& -ONE <= self.sight_cos <= ONE
        &&& 0 <= self.min_speed <= self.max_speed <= SPEED_LIMIT
        &&& self.cur_cell_neighbors <= CELL_CAP_LIMIT
        &&& self.forward_cell_neighbors <= CELL_CAP_LIMIT
        &&& self.sight_turns@.len() <= SIGHT_SAMPLE_LIMIT
        &&& forall|j: int| 0 <= j < self.sight_turns@.len() ==> (#[trigger] self.sight_turns@[j]).wf()
        &&& 1 <= self.jitter_turns@.len() <= JITTER_TABLE_LIMIT
        &&& forall|j: int| 0 <= j < self.jitter_turns@.len() ==> (#[trigger] self.jitter_turns@[j]).wf()
    }
}


fn turns_valid(turns: &Vec<Turn>) -> (r: bool)
    ensures
        r == forall|j: int| 0 <= j < turns@.len() ==> (#[trigger] turns@[j]).wf(),
{
    let mut j: usize = 0;
    while j < turns.len()
        invariant
            j <= turns@.len(),
            forall|q: int| 0 <= q < j ==> (#[trigger] turns@[q]).wf(),
        decreases turns@.len() - j,
    {
        let t = turns[j];
        if !(-ONE <= t.cos && t.cos <= ONE && -ONE <= t.sin && t.sin <= ONE) {
            assert(!turns@[j as int].wf());
            return false;
        }
        let c = t.cos as i128;
        let s = t.sin as i128;
        assert(c * c <= ONE * ONE && s * s <= ONE * ONE) by (nonlinear_arith)
            requires -ONE <= c <= ONE, -ONE <= s <= ONE;
        assert(c * c >= 0 && s * s >= 0) by (nonlinear_arith);
        let n2 = c * c + s * s;
        let one = ONE as i128;
        if !(one * one - 2 * one <= n2 && n2 <= one * one + 2 * one) {
            assert(!turns@[j as int].wf());
            return false;
        }
        j = j + 1;
    }
    true
}

impl BoidSimOpt {
    /// Whether the configuration meets `wf`, the condition of the flock's
    /// operations.
    pub fn is_valid(&self) -> (r: bool)
        ensures
            r == self.wf(),
    {
        0 <= self.coherence && self.coherence <= ONE
            && 0 <= self.separation && self.separation <= ONE
            && 0 <= self.alignment && self.alignment <= ONE
            && 0 <= self.edge_turn_factor && self.edge_turn_factor <= ONE
            && 0 <= self.avoid_range && self.avoid_range <= COORD_LIMIT
            && 1 <= self.visual_range && self.visual_range <= COORD_LIMIT
            && 0 <= self.edge_turn_margin && self.edge_turn_margin <= COORD_LIMIT
            && -ONE <= self.sight_cos && self.sight_cos <= ONE
            && 0 <= self.min_speed && self.min_speed <= self.max_speed && self.max_speed <= SPEED_LIMIT
            && self.cur_cell_neighbors <= CELL_CAP_LIMIT
            && self.forward_cell_neighbors <= CELL_CAP_LIMIT
            && self.sight_turns.len() <= SIGHT_SAMPLE_LIMIT
            && turns_valid(&self.sight_turns)
            && 1 <= self.jitter_turns.len() && self.jitter_turns.len() <= JITTER_TABLE_LIMIT
            && turns_valid(&self.jitter_turns)
    }
}

} // verus!
