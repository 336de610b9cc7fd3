use crate::branching::{agrees, same_node};
use crate::structure::{appended, links_ok, RingType, RootType, BranchCrossSection, TreeStructure};
use rand::rngs::SmallRng;
use vstd::prelude::*;

verus! {

/// The geometry of root growth: directions, segment lengths and radii of
/// the root lineages, kept by the implementor under the arena's indices, and
/// the continuous random draws.
pub trait RootGenerator {
    /// Lays out `first`, the first cross-section of main root `index` of
    /// `count`, hanging from the trunk base `base` at the edge of its ring
    /// `ring`.
    fn start_root(&mut self, base: usize, ring: usize, index: u32, count: u32, first: usize);

    /// Whether the lineage at `node` is too thin (radius below 0.01) or lies
    /// below the root depth.
    fn root_exhausted(&self, node: usize) -> bool;

    /// Draws the bend and the segment length of the step from `node` and lays
    /// out `child` with the root taper.
    fn root_step(&mut self, rng: &mut SmallRng, node: usize, child: usize);

    /// Draws whether a side root leaves at this step (a 30% chance).
    fn side_root_roll(&mut self, rng: &mut SmallRng) -> bool;

    /// Draws the direction of a side root that starts again from `from`, the
    /// child of `node`, thinner and with shorter segments than its lineage.
    fn start_side_root(&mut self, rng: &mut SmallRng, node: usize, from: usize);
}

/// The ring list of every root cross-section.
pub open spec fn root_rings() -> Seq<RingType> {
    seq![RingType::Root { root_type: RootType::LateralRoot }]
}

/// Most root steps in one lineage.
pub open spec fn root_depth_limit() -> int {
    26
}

/// The number of root steps that lead to `k`: one for a root cross-section
/// that hangs from a cross-section without root rings, one more than its
/// parent's for one that hangs from a root cross-section.
pub open spec fn root_step(t: Seq<BranchCrossSection>, k: int) -> int
    decreases k,
{
    if k <= 0 {
        0
    } else {
        let p = t[k].parent->0 as int;
        if 0 <= p < k && t[p].rings@ == root_rings() {
            root_step(t, p) + 1
        } else {
            1
        }
    }
}

/// `k` has at most two children, and two only where a side root may leave:
/// at root steps 4 to 15.
pub open spec fn root_step_ok(t: Seq<BranchCrossSection>, k: int) -> bool {
    &&& t[k].children@.len() <= 2
    &&& t[k].children@.len() == 2 ==> 4 <= root_step(t, k) <= 15
}

/// What growing a root lineage from `node`, at root step `step`, did to the
/// arena `s`, giving `t`: nodes are only appended, `node` gains at most one
/// child, and every new cross-section is a root cross-section at depth 0,
/// at a root step after `step` and within the limit, whose children follow
/// `root_step_ok`.
pub open spec fn rooted(s: Seq<BranchCrossSection>, t: Seq<BranchCrossSection>, node: int, step: u32) -> bool {
    &&& links_ok(t)
    &&& agrees(s, t)
    &&& forall|k: int| 0 <= k < s.len() && k != node ==> #[trigger] same_node(t[k], s[k])
    &&& s[node].children@.is_prefix_of(t[node].children@)
    &&& t[node].children@.len() <= s[node].children@.len() + 1
    &&& forall|k: int| #![trigger t[k]] s.len() <= k < t.len() ==> {
        &&& t[k].depth == 0
        &&& t[k].rings@ == root_rings()
        &&& step < root_step(t, k) <= root_depth_limit()
        &&& root_step_ok(t, k)
    }
}

/// Root steps read only parents and ring types up to `k`.
proof fn lemma_root_step_frame(t1: Seq<BranchCrossSection>, t2: Seq<BranchCrossSection>, k: int)
    requires
        agrees(t1, t2),
        0 <= k < t1.len(),
    ensures
        root_step(t2, k) == root_step(t1, k),
    decreases k,
{
    if k > 0 {
        assert(t2[k].parent == t1[k].parent);
        let p = t1[k].parent->0 as int;
        if 0 <= p < k {
            assert(t2[p].rings@ == t1[p].rings@);
            lemma_root_step_frame(t1, t2, p);
        }
    }
}

/// Grows the root system below the trunk base.
pub struct RootSystem;

impl RootSystem {
    pub fn new() -> (r: Self)
        ensures
            r == RootSystem,
    {
        RootSystem
    }

    /// Grows `count` main roots from the trunk base, one after the other,
    /// each with its side roots; main root `i` starts at the base ring `i`
    /// modulo the number of base rings. The trunk base gains `count`
    /// children, the main root starts, at root step 1; every new
    /// cross-section is a root cross-section at depth 0. With no roots to
    /// grow, nothing changes, not even the random stream.
    pub fn generate<H: RootGenerator>(&self, count: u32, skeleton: &mut TreeStructure, host: &mut H, rng: &mut SmallRng)
        requires
            old(skeleton).wf(),
            old(skeleton)@[0].rings@.len() >= 1,
            old(skeleton)@[0].rings@ != root_rings(),
        ensures
            final(skeleton).wf(),
            agrees(old(skeleton)@, final(skeleton)@),
            count == 0 ==> *final(skeleton) == *old(skeleton) && *final(rng) == *old(rng),
            forall|j: int|
                old(skeleton)@[0].children@.len() <= j < final(skeleton)@[0].children@.len() ==> {
                    &&& final(skeleton)@[#[trigger] final(skeleton)@[0].children@[j] as int].depth == 0
                    &&& final(skeleton)@[final(skeleton)@[0].children@[j] as int].rings@ == root_rings()
                    &&& root_step(final(skeleton)@, final(skeleton)@[0].children@[j] as int) == 1
                },
            forall|k: int| 1 <= k < old(skeleton)@.len() ==> #[trigger] same_node(final(skeleton)@[k], old(skeleton)@[k]),
            old(skeleton)@[0].children@.is_prefix_of(final(skeleton)@[0].children@),
            final(skeleton)@[0].children@.len() == old(skeleton)@[0].children@.len() + count,
            forall|k: int| #![trigger final(skeleton)@[k]] old(skeleton)@.len() <= k < final(skeleton)@.len() ==> {
                &&& final(skeleton)@[k].depth == 0
                &&& final(skeleton)@[k].rings@ == root_rings()
                &&& 1 <= root_step(final(skeleton)@, k) <= root_depth_limit()
                &&& root_step_ok(final(skeleton)@, k)
            },
    {
        if count == 0 {
            return;
        }
        let ghost s0 = skeleton@;
        let mut i: u32 = 0;
        while i < count
            invariant
                skeleton.wf(),
                links_ok(s0),
                s0[0].rings@.len() >= 1,
                s0[0].rings@ != root_rings(),
                i <= count,
                agrees(s0, skeleton@),
                forall|j: int|
                    s0[0].children@.len() <= j < skeleton@[0].children@.len() ==> {
                        &&& skeleton@[#[trigger] skeleton@[0].children@[j] as int].depth == 0
                        &&& skeleton@[skeleton@[0].children@[j] as int].rings@ == root_rings()
                        &&& root_step(skeleton@, skeleton@[0].children@[j] as int) == 1
                    },
                forall|k: int| 1 <= k < s0.len() ==> #[trigger] same_node(skeleton@[k], s0[k]),
                s0[0].children@.is_prefix_of(skeleton@[0].children@),
                skeleton@[0].children@.len() == s0[0].children@.len() + i,
                forall|k: int| #![trigger skeleton@[k]] s0.len() <= k < skeleton@.len() ==> {
                    &&& skeleton@[k].depth == 0
                    &&& skeleton@[k].rings@ == root_rings()
                    &&& 1 <= root_step(skeleton@, k) <= root_depth_limit()
                    &&& root_step_ok(skeleton@, k)
                },
            decreases count - i,
        {
            let ghost s1 = skeleton@;
            let first = skeleton.add_cross_section(0, 0, lateral_root_rings());
            let ghost s2 = skeleton@;
            proof {
                assert(agrees(s1, s2)) by {
                    assert forall|j: int| #![trigger s2[j]] 0 <= j < s1.len() implies s2[j].parent == s1[j].parent && s2[j].depth == s1[j].depth && s2[j].rings@ == s1[j].rings@ by {
                        if j != 0 {
                            assert(s2[j] == s1[j]);
                        }
                    }
                }
                assert(s2[0].rings@ == s0[0].rings@);
                assert(root_step(s2, first as int) == 1);
            }
            let ring = base_ring_for(i, skeleton.nodes[0].rings.len());
            host.start_root(0, ring, i, count, first);
            grow_root(skeleton, host, rng, first, 1);
            let ghost s3 = skeleton@;
            proof {
                assert(same_node(s3[0], s2[0]));
                assert forall|k: int| 1 <= k < s0.len() implies #[trigger] same_node(skeleton@[k], s0[k]) by {
                    assert(same_node(s1[k], s0[k]));
                    assert(s2[k] == s1[k]);
                    assert(same_node(s3[k], s2[k]));
                }
                assert(s2[0].children@ == s1[0].children@.push(first));
                assert(s0[0].children@.is_prefix_of(s3[0].children@));
                assert(agrees(s0, s3)) by {
                    assert forall|j: int| #![trigger s3[j]] 0 <= j < s0.len() implies s3[j].parent == s0[j].parent && s3[j].depth == s0[j].depth && s3[j].rings@ == s0[j].rings@ by {
                        assert(s1[j].parent == s0[j].parent && s1[j].depth == s0[j].depth);
                        assert(s2[j].parent == s1[j].parent && s2[j].depth == s1[j].depth);
                    }
                }
                assert forall|j: int|
                    s0[0].children@.len() <= j < s3[0].children@.len() implies {
                        &&& s3[#[trigger] s3[0].children@[j] as int].depth == 0
                        &&& s3[s3[0].children@[j] as int].rings@ == root_rings()
                        &&& root_step(s3, s3[0].children@[j] as int) == 1
                    } by {
                    let c = s3[0].children@[j] as int;
                    assert(s3[0].children@ == s2[0].children@);
                    if j < s1[0].children@.len() {
                        assert(s1[0].children@[j] == s3[0].children@[j]);
                        assert(s1[c].parent == Some(0usize));
                        lemma_root_step_frame(s1, s2, c);
                        lemma_root_step_frame(s2, s3, c);
                        assert(s2[c] == s1[c]);
                        assert(same_node(s3[c], s2[c]));
                    } else {
                        lemma_root_step_frame(s2, s3, c);
                    }
                }
                assert forall|k: int| #![trigger s3[k]] s0.len() <= k < s3.len() implies {
                    &&& s3[k].depth == 0
                    &&& s3[k].rings@ == root_rings()
                    &&& 1 <= root_step(s3, k) <= root_depth_limit()
                    &&& root_step_ok(s3, k)
                } by {
                    if k < s1.len() {
                        assert(s2[k] == s1[k]);
                        assert(same_node(s3[k], s2[k]));
                        assert(root_step_ok(s1, k));
                        lemma_root_step_frame(s1, s2, k);
                        lemma_root_step_frame(s2, s3, k);
                    } else if k == first as int {
                        lemma_root_step_frame(s2, s3, k);
                    }
                }
            }
            i += 1;
        }
    }
}

/// The base ring that main root `index` starts from: round-robin over the
/// `rings` base rings.
pub fn base_ring_for(index: u32, rings: usize) -> (r: usize)
    requires
        rings >= 1,
    ensures
        r == index as int % rings as int,
        r < rings,
{
    (index as usize) % rings
}

/// A fresh ring list holding one lateral root ring.
fn lateral_root_rings() -> (r: Vec<RingType>)
    ensures
        r@ == root_rings(),
{
    let mut v: Vec<RingType> = Vec::new();
    v.push(RingType::Root { root_type: RootType::LateralRoot });
    assert(v@ =~= root_rings());
    v
}

/// Grows one root lineage from `node`, at root step `step`: a step at a
/// time until the step limit or the geometry stops it, with an occasional
/// side root that starts again from the new cross-section once its main
/// lineage is done. Past 25 steps nothing changes, not even the random
/// stream.
fn grow_root<H: RootGenerator>(skeleton: &mut TreeStructure, host: &mut H, rng: &mut SmallRng, node: usize, step: u32)
    requires
        old(skeleton).wf(),
        node < old(skeleton)@.len(),
        old(skeleton)@[node as int].rings@ == root_rings(),
        root_step(old(skeleton)@, node as int) == step,
        1 <= step,
    ensures
        rooted(old(skeleton)@, final(skeleton)@, node as int, step),
        step > 25 ==> *final(skeleton) == *old(skeleton) && *final(rng) == *old(rng),
    decreases root_depth_limit() - step,
{
    let ghost s0 = skeleton@;
    if step > 25 || host.root_exhausted(node) {
        assert(rooted(s0, skeleton@, node as int, step));
        return;
    }
    let child = skeleton.add_cross_section(node, 0, lateral_root_rings());
    let ghost s1 = skeleton@;
    proof {
        assert(agrees(s0, s1)) by {
            assert forall|j: int| #![trigger s1[j]] 0 <= j < s0.len() implies s1[j].parent == s0[j].parent && s1[j].depth == s0[j].depth && s1[j].rings@ == s0[j].rings@ by {
                if j != node {
                    assert(s1[j] == s0[j]);
                }
            }
        }
        lemma_root_step_frame(s0, s1, node as int);
        assert(root_step(s1, child as int) == step + 1);
    }
    host.root_step(rng, node, child);
    grow_root(skeleton, host, rng, child, step + 1);
    let ghost s2 = skeleton@;
    let side = step > 2 && host.side_root_roll(rng);
    if side && step < 15 {
        proof {
            lemma_root_step_frame(s1, s2, child as int);
        }
        host.start_side_root(rng, node, child);
        grow_root(skeleton, host, rng, child, step + 1);
    }
    let ghost s3 = skeleton@;
    proof {
        assert(agrees(s1, s3));
        assert(same_node(s2[node as int], s1[node as int]));
        assert(same_node(s3[node as int], s2[node as int]) || !(side && step < 15));
        assert forall|k: int| 0 <= k < s0.len() && k != node implies #[trigger] same_node(s3[k], s0[k]) by {
            assert(s1[k] == s0[k]);
            assert(same_node(s2[k], s1[k]));
            assert(same_node(s3[k], s2[k]));
        }
        assert(agrees(s0, s3)) by {
            assert forall|j: int| #![trigger s3[j]] 0 <= j < s0.len() implies s3[j].parent == s0[j].parent && s3[j].depth == s0[j].depth && s3[j].rings@ == s0[j].rings@ by {
                assert(s1[j].parent == s0[j].parent && s1[j].depth == s0[j].depth);
            }
        }
        assert(s0[node as int].children@.is_prefix_of(s3[node as int].children@));
        assert(s1[child as int].children@.len() == 0);
        lemma_root_step_frame(s1, s3, child as int);
        assert forall|k: int| #![trigger s3[k]] s0.len() <= k < s3.len() implies {
            &&& s3[k].depth == 0
            &&& s3[k].rings@ == root_rings()
            &&& step < root_step(s3, k) <= root_depth_limit()
            &&& root_step_ok(s3, k)
        } by {
            if k == child as int {
                assert(s2[k].children@.len() <= 1);
            } else if k < s2.len() {
                lemma_root_step_frame(s2, s3, k);
                if side && step < 15 {
                    assert(same_node(s3[k], s2[k]));
                }
            }
        }
    }
}

} // verus!
