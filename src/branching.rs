use crate::random::draw_between;
use crate::rings::{shared_types, split_spec, RingGenerator, RingSplit};
use crate::structure::{above_ground, appended, links_ok, BranchCrossSection, RingType, TreeStructure};
use rand::rngs::SmallRng;
use vstd::prelude::*;

verus! {

/// The geometry that goes with the branching decisions: positions,
/// directions and radii of the cross-sections, kept by the implementor under
/// the arena's indices, and the continuous random draws. The engine decides
/// which cross-sections exist and how they are linked.
pub trait BranchGenerator {
    /// Whether the cross-section at `node` is too thin to grow on (effective
    /// radius below 0.005) or lies too far from the trunk base (beyond 1.5
    /// times the maximum reach).
    fn exhausted(&self, node: usize) -> bool;

    /// Draws the bend and the segment length of the step that leaves `node`
    /// at `depth` and keeps the next centre; returns whether that centre lies
    /// at or above the split height.
    fn advance(&mut self, rng: &mut SmallRng, node: usize, depth: u32) -> bool;

    /// Lays out `child`, the straight continuation of `node`: each ring of
    /// `node` gives one tapered ring, in order.
    fn extend(&mut self, node: usize, child: usize, depth: u32);

    /// Draws the branch direction at `node` and lays out the trunk
    /// continuation `trunk` and the branch `branch`, with the rings of `split`.
    fn fork(&mut self, rng: &mut SmallRng, node: usize, trunk: usize, branch: usize, split: &RingSplit);
}

/// Why a lineage stops before any random draw.
#[derive(Clone, Copy, Debug, PartialEq, Eq, Structural)]
pub enum GrowthStop {
    DepthLimit,
    SegmentLimit,
    NoRings,
}

/// The integer limits of the branching engine. `trunk_segments` is the
/// number of segments that reach the trunk height (its ceiling).
#[derive(Clone, Copy, Debug)]
pub struct GrowthLimits {
    pub max_depth: u32,
    pub frequency_min: u32,
    pub frequency_max: u32,
    pub trunk_segments: u32,
}

impl GrowthLimits {
    pub open spec fn wf(&self) -> bool {
        self.trunk_segments <= u32::MAX - 10
    }
}

/// The most segments a lineage may grow at one depth: the trunk levels get
/// enough to reach the trunk height, deeper branches fewer and fewer.
pub open spec fn segment_cap(depth: u32, trunk_segments: u32) -> int {
    if depth <= 2 {
        if trunk_segments + 10 >= 20 { trunk_segments + 10 } else { 20 }
    } else if depth <= 5 {
        8
    } else if depth <= 8 {
        4
    } else if depth <= 12 {
        3
    } else if depth <= 16 {
        2
    } else {
        1
    }
}

/// Share of the bend range used at a depth, in tenths: straight near the
/// trunk, curvier higher up.
pub open spec fn bend_tenths(depth: u32) -> int {
    if depth <= 1 {
        1
    } else if depth <= 3 {
        3
    } else if depth <= 5 {
        6
    } else {
        10
    }
}

/// The hard stop that applies to a lineage, if any, in the order of checks.
pub open spec fn stop_spec(max_depth: u32, cap: int, depth: u32, at_depth: u32, rings: nat) -> Option<GrowthStop> {
    if depth >= max_depth {
        Some(GrowthStop::DepthLimit)
    } else if at_depth >= cap {
        Some(GrowthStop::SegmentLimit)
    } else if rings == 0 {
        Some(GrowthStop::NoRings)
    } else {
        None
    }
}

/// A branch point is taken when enough segments have grown since the last
/// one, the next centre reaches the split height and the new depth stays
/// below the maximum.
pub open spec fn branch_spec(since: u32, threshold: u32, height_reached: bool, depth: u32, max_depth: u32) -> bool {
    since >= threshold && height_reached && depth + 1 < max_depth
}

/// The node keeps its depth, ring types and links.
pub open spec fn same_node(a: BranchCrossSection, b: BranchCrossSection) -> bool {
    &&& a.depth == b.depth
    &&& a.rings@ == b.rings@
    &&& a.parent == b.parent
    &&& a.children@ == b.children@
}

/// `c` continues `p` straight: same depth, one child ring per parent ring,
/// same types in the same order.
pub open spec fn continues(t: Seq<BranchCrossSection>, p: int, c: int) -> bool {
    &&& t[c].depth == t[p].depth
    &&& t[c].rings@ == t[p].rings@
}

/// `a` and `b` are the trunk continuation and the branch of a branch point
/// at `p`: one level deeper, with the rings shared as the split policy says.
pub open spec fn forks(t: Seq<BranchCrossSection>, p: int, a: int, b: int) -> bool {
    let n = t[p].rings@.len();
    &&& n >= 1
    &&& t[a].depth == t[p].depth + 1
    &&& t[b].depth == t[p].depth + 1
    &&& t[a].rings@ == shared_types(t[p].rings@, split_spec(n).0)
    &&& t[b].rings@ == shared_types(t[p].rings@, split_spec(n).1)
}

/// The children `kids` that growth gave to `p`: none, one straight
/// continuation, or the two sides of a branch point.
pub open spec fn step_ok(t: Seq<BranchCrossSection>, p: int, kids: Seq<usize>) -> bool {
    &&& kids.len() <= 2
    &&& kids.len() == 1 ==> continues(t, p, kids[0] as int)
    &&& kids.len() == 2 ==> forks(t, p, kids[0] as int, kids[1] as int)
}

/// The most cross-sections that growing a lineage at `depth`, `at_depth`
/// segments into its depth, can add: nothing where a hard stop applies,
/// else the larger of a straight step followed by the rest of the lineage
/// and a branch point followed by two lineages one level deeper.
pub open spec fn growth_bound(limits: GrowthLimits, depth: u32, at_depth: int) -> int
    decreases limits.max_depth - depth, segment_cap(depth, limits.trunk_segments) - at_depth,
{
    if depth >= limits.max_depth || at_depth >= segment_cap(depth, limits.trunk_segments) {
        0
    } else {
        let straight = 1 + growth_bound(limits, depth, at_depth + 1);
        let fork = 2 + 2 * growth_bound(limits, (depth + 1) as u32, 0);
        if straight >= fork { straight } else { fork }
    }
}

proof fn lemma_growth_bound_nonneg(limits: GrowthLimits, depth: u32, at_depth: int)
    ensures
        growth_bound(limits, depth, at_depth) >= 0,
    decreases limits.max_depth - depth, segment_cap(depth, limits.trunk_segments) - at_depth,
{
    if !(depth >= limits.max_depth || at_depth >= segment_cap(depth, limits.trunk_segments)) {
        lemma_growth_bound_nonneg(limits, depth, at_depth + 1);
        lemma_growth_bound_nonneg(limits, (depth + 1) as u32, 0);
    }
}

/// The lower end of the branch frequency range, raised to at least one.
pub open spec fn freq_floor(frequency_min: u32) -> int {
    if frequency_min >= 1 { frequency_min as int } else { 1 }
}

/// The number of straight segments that lead to `k` along its lineage: one
/// more than its parent's when `k` continues its parent at the same depth,
/// zero after a branch point; `seed` at `start`, where counting begins.
pub open spec fn run_from(t: Seq<BranchCrossSection>, k: int, start: int, seed: int) -> int
    decreases k,
{
    if k <= start {
        seed
    } else {
        let p = t[k].parent->0 as int;
        if 0 <= p < k && t[k].depth == t[p].depth {
            run_from(t, p, start, seed) + 1
        } else {
            0
        }
    }
}

/// Every cross-section of `lo..hi` hangs from `root` or from an earlier one
/// of the range: the range is taken by descendants of `root`.
pub open spec fn closed(t: Seq<BranchCrossSection>, root: int, lo: int, hi: int) -> bool {
    forall|j: int|
        #![trigger t[j].parent]
        lo <= j < hi ==> (t[j].parent->0 as int == root || (lo <= t[j].parent->0 && t[j].parent->0 < j))
}

/// Pre-order layout of a branch point whose children are `a` (trunk
/// continuation) and `a + 1` (branch): the trunk continuation's descendants
/// take the indices right after the two, and the branch's descendants follow
/// them.
pub open spec fn fork_layout(t: Seq<BranchCrossSection>, a: int) -> bool {
    exists|trunk_end: int, branch_end: int|
        #![trigger closed(t, a + 1, trunk_end, branch_end)]
        a + 2 <= trunk_end <= branch_end <= t.len() && closed(t, a, a + 2, trunk_end) && closed(t, a + 1, trunk_end, branch_end)
}

/// What growth did at `k`, which gained the children `kids` after `run_at`
/// straight segments at its depth and `run_since` since the last branch
/// point: children only for a cross-section with rings, below the maximum
/// depth and the segment cap; a branch point only after enough straight
/// segments, where the depth allows one, with the two children at
/// consecutive indices laid out in pre-order.
pub open spec fn node_ok(t: Seq<BranchCrossSection>, k: int, kids: Seq<usize>, run_at: int, run_since: int, limits: GrowthLimits) -> bool {
    &&& step_ok(t, k, kids)
    &&& kids.len() >= 1 ==> {
        &&& t[k].rings@.len() >= 1
        &&& t[k].depth < limits.max_depth
        &&& run_at < segment_cap(t[k].depth, limits.trunk_segments)
    }
    &&& kids.len() == 2 ==> {
        &&& t[k].depth + 1 < limits.max_depth
        &&& run_since >= freq_floor(limits.frequency_min)
        &&& kids[1] == kids[0] + 1
        &&& fork_layout(t, kids[0] as int)
    }
}

/// `t` extends `s`: the same cross-sections with the same parents, depths
/// and ring types, possibly followed by more.
pub open spec fn agrees(s: Seq<BranchCrossSection>, t: Seq<BranchCrossSection>) -> bool {
    &&& s.len() <= t.len()
    &&& forall|j: int|
        #![trigger t[j]]
        0 <= j < s.len() ==> t[j].parent == s[j].parent && t[j].depth == s[j].depth && t[j].rings@ == s[j].rings@
}

/// The children that `node` gained from `s` to `t`.
pub open spec fn gained(s: Seq<BranchCrossSection>, t: Seq<BranchCrossSection>, node: int) -> Seq<usize> {
    t[node].children@.subrange(s[node].children@.len() as int, t[node].children@.len() as int)
}

/// What growing the lineage that starts at `node` (at `depth`, `since`
/// segments after the last branch point and `at_depth` segments into its
/// depth) did to the arena `s`, giving `t`: nodes are only appended; the old
/// ones but `node` are as they were; the new ones hang from `node` or from
/// each other; `node` gains the next index, or the next two, whose subtrees
/// then fill the rest of the arena, the trunk continuation's first; and `node` and
/// every new cross-section grew as `node_ok` says, with depths between
/// `depth` and the maximum and no root ring unless `node` has one.
pub open spec fn grown(
    s: Seq<BranchCrossSection>,
    t: Seq<BranchCrossSection>,
    node: int,
    limits: GrowthLimits,
    depth: u32,
    since: u32,
    at_depth: u32,
) -> bool {
    &&& links_ok(t)
    &&& agrees(s, t)
    &&& forall|k: int| 0 <= k < s.len() && k != node ==> #[trigger] same_node(t[k], s[k])
    &&& s[node].children@.is_prefix_of(t[node].children@)
    &&& gained(s, t, node).len() >= 1 ==> gained(s, t, node)[0] == s.len()
    &&& gained(s, t, node).len() == 2 ==> exists|trunk_end: int|
        #![trigger closed(t, s.len() + 1int, trunk_end, t.len() as int)]
        s.len() + 2 <= trunk_end <= t.len() && closed(t, s.len() as int, s.len() + 2int, trunk_end) && closed(
            t,
            s.len() + 1int,
            trunk_end,
            t.len() as int,
        )
    &&& closed(t, node, s.len() as int, t.len() as int)
    &&& node_ok(t, node, gained(s, t, node), at_depth as int, since as int, limits)
    &&& forall|k: int| #![trigger t[k]] s.len() <= k < t.len() ==> {
        &&& depth <= t[k].depth < limits.max_depth
        &&& above_ground(s[node].rings@) ==> above_ground(t[k].rings@)
        &&& node_ok(t, k, t[k].children@, run_from(t, k, node, at_depth as int), run_from(t, k, node, since as int), limits)
    }
}

/// Runs the branching engine over the arena.
pub struct BranchingSystem {
    pub rings: RingGenerator,
}

impl BranchingSystem {
    pub fn new() -> (r: Self)
        ensures
            r == (BranchingSystem { rings: RingGenerator }),
    {
        BranchingSystem { rings: RingGenerator::new() }
    }

    /// Grows the trunk and its branches from the base cross-section, in
    /// pre-order: at each branch point the whole trunk continuation is grown
    /// before the branch, so that one random stream gives one tree.
    pub fn generate_branches<H: BranchGenerator>(
        &self,
        limits: &GrowthLimits,
        skeleton: &mut TreeStructure,
        host: &mut H,
        rng: &mut SmallRng,
    )
        requires
            old(skeleton).wf(),
            limits.wf(),
            old(skeleton)@[0].depth == 0,
        ensures
            grown(old(skeleton)@, final(skeleton)@, 0, *limits, 0, 0, 0),
            final(skeleton)@.len() <= old(skeleton)@.len() + growth_bound(*limits, 0, 0),
            stop_spec(limits.max_depth, segment_cap(0, limits.trunk_segments), 0, 0, old(skeleton)@[0].rings@.len()) is Some ==> {
                &&& *final(skeleton) == *old(skeleton)
                &&& *final(rng) == *old(rng)
            },
    {
        self.grow(limits, skeleton, host, rng, 0, 0, 0, 0);
    }

    /// Grows the lineage that starts at `node`. The hard stops (depth,
    /// segment cap, no rings) come first and change nothing, not even the
    /// random stream.
    fn grow<H: BranchGenerator>(
        &self,
        limits: &GrowthLimits,
        skeleton: &mut TreeStructure,
        host: &mut H,
        rng: &mut SmallRng,
        node: usize,
        depth: u32,
        since: u32,
        at_depth: u32,
    )
        requires
            old(skeleton).wf(),
            limits.wf(),
            node < old(skeleton)@.len(),
            old(skeleton)@[node as int].depth == depth,
            since <= at_depth,
        ensures
            grown(old(skeleton)@, final(skeleton)@, node as int, *limits, depth, since, at_depth),
            final(skeleton)@.len() <= old(skeleton)@.len() + growth_bound(*limits, depth, at_depth as int),
            stop_spec(limits.max_depth, segment_cap(depth, limits.trunk_segments), depth, at_depth, old(skeleton)@[node as int].rings@.len()) is Some ==> {
                &&& *final(skeleton) == *old(skeleton)
                &&& *final(rng) == *old(rng)
            },
        decreases limits.max_depth - depth, segment_cap(depth, limits.trunk_segments) - at_depth,
    {
        let ghost s0 = skeleton@;
        proof {
            lemma_growth_bound_nonneg(*limits, depth, at_depth as int);
        }
        let cap = max_segments_for_depth(depth, limits.trunk_segments);
        let ring_count = skeleton.nodes[node].rings.len();
        if hard_stop(limits.max_depth, cap, depth, at_depth, ring_count).is_some() {
            proof { lemma_unchanged_grown(s0, node as int, *limits, depth, since, at_depth); }
            return;
        }
        if host.exhausted(node) {
            proof { lemma_unchanged_grown(s0, node as int, *limits, depth, since, at_depth); }
            return;
        }
        let height_reached = host.advance(rng, node, depth);
        let (fmin, fmax) = normalized_frequency(limits.frequency_min, limits.frequency_max);
        let threshold = draw_between(rng, fmin, fmax);
        if branch_ready(since, threshold, height_reached, depth, limits.max_depth) {
            let split = self.rings.split_for_branch(ring_count);
            let parent_types = crate::structure::copy_rings(&skeleton.nodes[node].rings);
            proof {
                assert forall|i: int| 0 <= i < split.trunk@.len() implies (#[trigger] split.trunk@[i]).parent_ring < parent_types@.len() by {}
                assert forall|i: int| 0 <= i < split.branch@.len() implies (#[trigger] split.branch@[i]).parent_ring < parent_types@.len() by {}
            }
            let trunk_types = self.rings.shared_ring_types(&parent_types, &split.trunk);
            let branch_types = self.rings.shared_ring_types(&parent_types, &split.branch);
            let trunk = skeleton.add_cross_section(node, depth + 1, trunk_types);
            let ghost s1 = skeleton@;
            let branch = skeleton.add_cross_section(node, depth + 1, branch_types);
            let ghost s2 = skeleton@;
            host.fork(rng, node, trunk, branch, &split);
            self.grow(limits, skeleton, host, rng, trunk, depth + 1, 0, 0);
            let ghost s3 = skeleton@;
            assert(same_node(s3[branch as int], s2[branch as int]));
            self.grow(limits, skeleton, host, rng, branch, depth + 1, 0, 0);
            let ghost s4 = skeleton@;
            proof {
                lemma_growth_bound_nonneg(*limits, depth, at_depth + 1);
                assert(growth_bound(*limits, depth, at_depth as int) >= 2 + 2 * growth_bound(*limits, (depth + 1) as u32, 0));
                lemma_fork_grown(s0, s1, s2, s3, s4, node as int, trunk as int, branch as int, *limits, depth, since, at_depth);
            }
        } else {
            let types = crate::structure::copy_rings(&skeleton.nodes[node].rings);
            let child = skeleton.add_cross_section(node, depth, types);
            let ghost s1 = skeleton@;
            host.extend(node, child, depth);
            self.grow(limits, skeleton, host, rng, child, depth, since + 1, at_depth + 1);
            let ghost s2 = skeleton@;
            proof {
                lemma_growth_bound_nonneg(*limits, (depth + 1) as u32, 0);
                assert(growth_bound(*limits, depth, at_depth as int) >= 1 + growth_bound(*limits, depth, at_depth + 1));
                lemma_continue_grown(s0, s1, s2, node as int, child as int, *limits, depth, since, at_depth);
            }
        }
    }
}

/// A lineage that adds nothing meets `grown`.
proof fn lemma_unchanged_grown(s: Seq<BranchCrossSection>, node: int, limits: GrowthLimits, depth: u32, since: u32, at_depth: u32)
    requires
        links_ok(s),
        0 <= node < s.len(),
    ensures
        grown(s, s, node, limits, depth, since, at_depth),
{
    assert(gained(s, s, node) =~= Seq::<usize>::empty());
}

/// Counting along a lineage may start at any cross-section of it.
proof fn lemma_run_rebase(t: Seq<BranchCrossSection>, k: int, node: int, c: int, lo: int, hi: int, sn: int, sc: int)
    requires
        0 <= node < c < lo <= k < hi,
        closed(t, c, lo, hi),
        run_from(t, c, node, sn) == sc,
    ensures
        run_from(t, k, c, sc) == run_from(t, k, node, sn),
    decreases k,
{
    let p = t[k].parent->0 as int;
    assert(p == c || (lo <= p && p < k));
    assert(run_from(t, c, c, sc) == sc);
    if p != c {
        lemma_run_rebase(t, p, node, c, lo, hi, sn, sc);
    }
    assert(run_from(t, k, c, sc) == (if 0 <= p < k && t[k].depth == t[p].depth { run_from(t, p, c, sc) + 1 } else { 0 }));
    assert(run_from(t, k, node, sn) == (if 0 <= p < k && t[k].depth == t[p].depth { run_from(t, p, node, sn) + 1 } else { 0 }));
}

/// Counting along a lineage reads only parents and depths up to `k`.
pub(crate) proof fn lemma_run_frame(t1: Seq<BranchCrossSection>, t2: Seq<BranchCrossSection>, k: int, start: int, seed: int)
    requires
        agrees(t1, t2),
        0 <= k < t1.len(),
    ensures
        run_from(t2, k, start, seed) == run_from(t1, k, start, seed),
    decreases k,
{
    assert(t2[k].parent == t1[k].parent);
    if k > start {
        let p = t1[k].parent->0 as int;
        if 0 <= p < k {
            assert(t2[p].depth == t1[p].depth);
            lemma_run_frame(t1, t2, p, start, seed);
        }
    }
}

proof fn lemma_closed_frame(t1: Seq<BranchCrossSection>, t2: Seq<BranchCrossSection>, r: int, lo: int, hi: int)
    requires
        agrees(t1, t2),
        0 <= lo,
        hi <= t1.len(),
        closed(t1, r, lo, hi),
    ensures
        closed(t2, r, lo, hi),
{
    assert forall|j: int| #![trigger t2[j].parent] lo <= j < hi implies (t2[j].parent->0 as int == r || (lo <= t2[j].parent->0 && t2[j].parent->0 < j)) by {
        assert(t2[j].parent == t1[j].parent);
    }
}

/// `node_ok` at `k` survives appending to the arena.
pub(crate) proof fn lemma_node_frame(
    t1: Seq<BranchCrossSection>,
    t2: Seq<BranchCrossSection>,
    k: int,
    kids: Seq<usize>,
    run_at: int,
    run_since: int,
    limits: GrowthLimits,
)
    requires
        links_ok(t1),
        agrees(t1, t2),
        0 <= k < t1.len(),
        forall|j: int| 0 <= j < kids.len() ==> (#[trigger] kids[j]) < t1.len(),
        node_ok(t1, k, kids, run_at, run_since, limits),
    ensures
        node_ok(t2, k, kids, run_at, run_since, limits),
{
    assert(t2[k].depth == t1[k].depth);
    assert forall|j: int| 0 <= j < kids.len() implies {
        &&& t2[#[trigger] kids[j] as int].depth == t1[kids[j] as int].depth
        &&& t2[kids[j] as int].rings@ == t1[kids[j] as int].rings@
    } by {
        assert(kids[j] < t1.len());
    }
    lemma_step_frame(t1, t2, k, kids);
    if kids.len() == 2 {
        let a = kids[0] as int;
        let (te, be) = choose|te: int, be: int|
            #![trigger closed(t1, a + 1, te, be)]
            a + 2 <= te <= be <= t1.len() && closed(t1, a, a + 2, te) && closed(t1, a + 1, te, be);
        lemma_closed_frame(t1, t2, a, a + 2, te);
        lemma_closed_frame(t1, t2, a + 1, te, be);
        assert(closed(t2, a + 1, te, be));
    }
}

/// Composes the two lineages grown from a branch point at `node`.
proof fn lemma_fork_grown(
    s0: Seq<BranchCrossSection>,
    s1: Seq<BranchCrossSection>,
    s2: Seq<BranchCrossSection>,
    s3: Seq<BranchCrossSection>,
    s4: Seq<BranchCrossSection>,
    node: int,
    trunk: int,
    branch: int,
    limits: GrowthLimits,
    depth: u32,
    since: u32,
    at_depth: u32,
)
    requires
        links_ok(s0),
        0 <= node < s0.len(),
        s0[node].depth == depth,
        depth + 1 < limits.max_depth,
        at_depth < segment_cap(depth, limits.trunk_segments),
        since >= freq_floor(limits.frequency_min),
        s0[node].rings@.len() >= 1,
        trunk == s0.len(),
        branch == s1.len(),
        appended(s0, s1, node, (depth + 1) as u32, shared_types(s0[node].rings@, split_spec(s0[node].rings@.len()).0)),
        appended(s1, s2, node, (depth + 1) as u32, shared_types(s0[node].rings@, split_spec(s0[node].rings@.len()).1)),
        links_ok(s2),
        grown(s2, s3, trunk, limits, (depth + 1) as u32, 0, 0),
        grown(s3, s4, branch, limits, (depth + 1) as u32, 0, 0),
    ensures
        grown(s0, s4, node, limits, depth, since, at_depth),
{
    let n = s0[node].rings@.len();
    assert forall|i: int| 0 <= i < split_spec(n).0.len() implies (#[trigger] split_spec(n).0[i]).parent_ring < n by {}
    assert forall|i: int| 0 <= i < split_spec(n).1.len() implies (#[trigger] split_spec(n).1[i]).parent_ring < n by {}
    lemma_shared_above_ground(s0[node].rings@, split_spec(n).0);
    lemma_shared_above_ground(s0[node].rings@, split_spec(n).1);
    assert(s1[trunk] == s2[trunk]);
    assert(same_node(s3[branch], s2[branch]));
    assert(same_node(s4[trunk], s3[trunk]));
    assert forall|k: int| 0 <= k < s0.len() && k != node implies #[trigger] same_node(s4[k], s0[k]) by {
        assert(s1[k] == s0[k]);
        assert(s2[k] == s1[k]);
        assert(same_node(s3[k], s2[k]));
        assert(same_node(s4[k], s3[k]));
    }
    assert(same_node(s3[node], s2[node]));
    assert(same_node(s4[node], s3[node]));
    assert(agrees(s0, s4)) by {
        assert forall|j: int| #![trigger s4[j]] 0 <= j < s0.len() implies s4[j].parent == s0[j].parent && s4[j].depth == s0[j].depth && s4[j].rings@ == s0[j].rings@ by {
            if j != node {
                assert(same_node(s4[j], s0[j]));
            }
        }
    }
    assert(s0[node].children@.push(trunk as usize).push(branch as usize) == s4[node].children@);
    assert(s0[node].children@.is_prefix_of(s4[node].children@));
    assert(gained(s0, s4, node) =~= seq![trunk as usize, branch as usize]);
    assert(forks(s4, node, trunk, branch));
    assert(s3[branch].parent == Some(node as usize));
    // layout of the branch point
    let te = s3.len() as int;
    let be = s4.len() as int;
    lemma_closed_frame(s3, s4, trunk, s2.len() as int, te);
    assert(closed(s4, branch, te, be));
    assert(fork_layout(s4, trunk));
    assert(closed(s4, s0.len() + 1int, te, s4.len() as int));
    assert(node_ok(s4, node, gained(s0, s4, node), at_depth as int, since as int, limits));
    // the new cross-sections hang from `node` or from each other
    assert forall|j: int| #![trigger s4[j].parent] s0.len() <= j < s4.len() implies (s4[j].parent->0 as int == node || (s0.len() <= s4[j].parent->0 && s4[j].parent->0 < j)) by {
        if j == trunk {
        } else if j == branch {
        } else if j < te {
            assert(s4[j].parent == s3[j].parent);
        } else {
        }
    }
    // counting from `node` equals counting from the start of each side
    assert(s4[trunk].parent == Some(node as usize) && s4[branch].parent == Some(node as usize));
    assert(s4[trunk].depth == depth + 1 && s4[branch].depth == depth + 1 && s4[node].depth == depth);
    assert(run_from(s4, trunk, node, at_depth as int) == 0);
    assert(run_from(s4, trunk, node, since as int) == 0);
    assert(run_from(s4, branch, node, at_depth as int) == 0);
    assert(run_from(s4, branch, node, since as int) == 0);
    assert forall|k: int| #![trigger s4[k]] s0.len() <= k < s4.len() implies {
        &&& depth <= s4[k].depth < limits.max_depth
        &&& above_ground(s0[node].rings@) ==> above_ground(s4[k].rings@)
        &&& node_ok(s4, k, s4[k].children@, run_from(s4, k, node, at_depth as int), run_from(s4, k, node, since as int), limits)
    } by {
        if k == branch {
            assert(gained(s3, s4, branch) =~= s4[k].children@);
            assert(run_from(s4, k, branch, 0) == 0);
        } else if k < te {
            let kids = s3[k].children@;
            assert(same_node(s4[k], s3[k]));
            if k == trunk {
                assert(gained(s2, s3, trunk) =~= kids);
                assert(run_from(s3, k, trunk, 0) == 0);
            } else {
                lemma_run_frame(s3, s4, k, trunk, 0);
                lemma_run_rebase(s4, k, node, trunk, s2.len() as int, te, at_depth as int, 0);
                lemma_run_rebase(s4, k, node, trunk, s2.len() as int, te, since as int, 0);
            }
            assert forall|j: int| 0 <= j < kids.len() implies (#[trigger] kids[j]) < s3.len() by {
                assert(s3[k].children@[j] == kids[j]);
            }
            lemma_node_frame(s3, s4, k, kids, run_from(s3, k, trunk, 0), run_from(s3, k, trunk, 0), limits);
        } else {
            lemma_run_rebase(s4, k, node, branch, te, be, at_depth as int, 0);
            lemma_run_rebase(s4, k, node, branch, te, be, since as int, 0);
        }
    }
}

/// Composes a straight step from `node` with the lineage grown after it.
proof fn lemma_continue_grown(
    s0: Seq<BranchCrossSection>,
    s1: Seq<BranchCrossSection>,
    s2: Seq<BranchCrossSection>,
    node: int,
    child: int,
    limits: GrowthLimits,
    depth: u32,
    since: u32,
    at_depth: u32,
)
    requires
        links_ok(s0),
        0 <= node < s0.len(),
        s0[node].depth == depth,
        depth < limits.max_depth,
        at_depth < segment_cap(depth, limits.trunk_segments),
        s0[node].rings@.len() >= 1,
        since < u32::MAX,
        at_depth < u32::MAX,
        child == s0.len(),
        appended(s0, s1, node, depth, s0[node].rings@),
        grown(s1, s2, child, limits, depth, (since + 1) as u32, (at_depth + 1) as u32),
    ensures
        grown(s0, s2, node, limits, depth, since, at_depth),
{
    assert forall|k: int| 0 <= k < s0.len() && k != node implies #[trigger] same_node(s2[k], s0[k]) by {
        assert(s1[k] == s0[k]);
        assert(same_node(s2[k], s1[k]));
    }
    assert(same_node(s2[node], s1[node]));
    assert(agrees(s0, s2)) by {
        assert forall|j: int| #![trigger s2[j]] 0 <= j < s0.len() implies s2[j].parent == s0[j].parent && s2[j].depth == s0[j].depth && s2[j].rings@ == s0[j].rings@ by {
            if j != node {
                assert(same_node(s2[j], s0[j]));
            }
        }
    }
    assert(s0[node].children@.is_prefix_of(s2[node].children@));
    assert(gained(s0, s2, node) =~= seq![child as usize]);
    assert(continues(s2, node, child));
    assert(gained(s1, s2, child) =~= s2[child].children@);
    assert(node_ok(s2, node, gained(s0, s2, node), at_depth as int, since as int, limits));
    assert forall|j: int| #![trigger s2[j].parent] s0.len() <= j < s2.len() implies (s2[j].parent->0 as int == node || (s0.len() <= s2[j].parent->0 && s2[j].parent->0 < j)) by {
        if j == child {
        } else {
        }
    }
    assert(s2[child].parent == Some(node as usize));
    assert(s2[child].depth == depth && s2[node].depth == depth);
    assert(run_from(s2, node, node, at_depth as int) == at_depth);
    assert(run_from(s2, node, node, since as int) == since);
    assert(run_from(s2, child, node, at_depth as int) == at_depth + 1);
    assert(run_from(s2, child, node, since as int) == since + 1);
    assert forall|k: int| #![trigger s2[k]] s0.len() <= k < s2.len() implies {
        &&& depth <= s2[k].depth < limits.max_depth
        &&& above_ground(s0[node].rings@) ==> above_ground(s2[k].rings@)
        &&& node_ok(s2, k, s2[k].children@, run_from(s2, k, node, at_depth as int), run_from(s2, k, node, since as int), limits)
    } by {
        if k == child {
            assert(run_from(s2, k, child, at_depth + 1) == at_depth + 1);
            assert(run_from(s2, k, child, since + 1) == since + 1);
        } else {
            lemma_run_rebase(s2, k, node, child, s1.len() as int, s2.len() as int, at_depth as int, at_depth + 1);
            lemma_run_rebase(s2, k, node, child, s1.len() as int, s2.len() as int, since as int, since + 1);
        }
    }
}

/// `step_ok` depends only on the depths and ring types of `p` and its kids.
proof fn lemma_step_frame(t1: Seq<BranchCrossSection>, t2: Seq<BranchCrossSection>, p: int, kids: Seq<usize>)
    requires
        step_ok(t1, p, kids),
        t2[p].depth == t1[p].depth,
        t2[p].rings@ == t1[p].rings@,
        forall|j: int| 0 <= j < kids.len() ==> {
            &&& t2[#[trigger] kids[j] as int].depth == t1[kids[j] as int].depth
            &&& t2[kids[j] as int].rings@ == t1[kids[j] as int].rings@
        },
    ensures
        step_ok(t2, p, kids),
{
    if kids.len() >= 1 {
        assert(t2[kids[0] as int].depth == t1[kids[0] as int].depth);
    }
    if kids.len() == 2 {
        assert(t2[kids[1] as int].depth == t1[kids[1] as int].depth);
    }
}

proof fn lemma_shared_above_ground(parent: Seq<RingType>, shares: Seq<crate::rings::RingShare>)
    requires
        forall|i: int| 0 <= i < shares.len() ==> (#[trigger] shares[i]).parent_ring < parent.len(),
    ensures
        above_ground(parent) ==> above_ground(shared_types(parent, shares)),
{
    if above_ground(parent) {
        assert forall|i: int| 0 <= i < shared_types(parent, shares).len() implies !(#[trigger] shared_types(parent, shares)[i] is Root) by {
            assert(shares[i].parent_ring < parent.len());
            assert(!(parent[shares[i].parent_ring as int] is Root));
        }
    }
}

/// The segment cap of `segment_cap` for a depth.
pub fn max_segments_for_depth(depth: u32, trunk_segments: u32) -> (r: u32)
    requires
        trunk_segments <= u32::MAX - 10,
    ensures
        r == segment_cap(depth, trunk_segments),
{
    if depth <= 2 {
        let reach = trunk_segments + 10;
        if reach >= 20 { reach } else { 20 }
    } else if depth <= 5 {
        8
    } else if depth <= 8 {
        4
    } else if depth <= 12 {
        3
    } else if depth <= 16 {
        2
    } else {
        1
    }
}

/// The share of the bend range used at a depth, in tenths.
pub fn bend_reduction_tenths(depth: u32) -> (r: u32)
    ensures
        r == bend_tenths(depth),
{
    if depth <= 1 {
        1
    } else if depth <= 3 {
        3
    } else if depth <= 5 {
        6
    } else {
        10
    }
}

/// The branch frequency range with both ends at least one and the upper end
/// at least the lower one.
pub fn normalized_frequency(min: u32, max: u32) -> (r: (u32, u32))
    ensures
        r.0 == if min >= 1 { min } else { 1 },
        r.1 == if max >= r.0 { max } else { r.0 },
{
    let low = if min >= 1 { min } else { 1 };
    let high = if max >= low { max } else { low };
    (low, high)
}

/// The first hard stop that applies to a lineage, checked in order: depth,
/// segments at this depth, rings left.
pub fn hard_stop(max_depth: u32, cap: u32, depth: u32, at_depth: u32, ring_count: usize) -> (r: Option<GrowthStop>)
    ensures
        r == stop_spec(max_depth, cap as int, depth, at_depth, ring_count as nat),
{
    if depth >= max_depth {
        Some(GrowthStop::DepthLimit)
    } else if at_depth >= cap {
        Some(GrowthStop::SegmentLimit)
    } else if ring_count == 0 {
        Some(GrowthStop::NoRings)
    } else {
        None
    }
}

/// Whether a branch point is taken at this step.
pub fn branch_ready(since: u32, threshold: u32, height_reached: bool, depth: u32, max_depth: u32) -> (r: bool)
    requires
        depth < max_depth,
    ensures
        r == branch_spec(since, threshold, height_reached, depth, max_depth),
{
    since >= threshold && height_reached && depth < max_depth - 1
}


/// The branch frequency range that a caller stores: each end raised to at
/// least one, the lower end lowered to at most the upper one.
pub fn validated_frequency_range(min: u32, max: u32) -> (r: (u32, u32))
    ensures
        r.1 == if max >= 1 { max } else { 1 },
        r.0 == if min >= 1 && min <= r.1 { min } else if min >= 1 { r.1 } else { 1 },
        1 <= r.0 <= r.1,
{
    let high_floor = if max >= 1 { max } else { 1 };
    let low_floor = if min >= 1 { min } else { 1 };
    let low = if low_floor <= high_floor { low_floor } else { high_floor };
    let high = if high_floor >= low { high_floor } else { low };
    (low, high)
}

} // verus!
