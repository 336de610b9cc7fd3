use crate::branching::{
    gained, growth_bound, lemma_node_frame, lemma_run_frame, node_ok, run_from, step_ok, BranchGenerator, BranchingSystem, GrowthLimits,
};
use crate::rings::RingGenerator;
use crate::random::seeded_rng;
use crate::rings::trunk_types_spec;
use crate::roots::{root_rings, root_step, RootGenerator, RootSystem};
use crate::structure::{above_ground, BranchCrossSection, RingType, TreeStructure};
use crate::trunk::{TrunkGenerator, TrunkSystem};
use crate::twigs::{sites_ok, TwigGenerator, TwigPlacer, TwigSite, TwigSystem};
use rand::rngs::SmallRng;
use vstd::prelude::*;

verus! {

/// The seed of the random stream and the deepest branching level.
#[derive(Clone, Copy, Debug, PartialEq, Eq, Structural)]
pub struct GeneralParams {
    pub seed: u32,
    pub max_depth: u32,
}

impl Default for GeneralParams {
    fn default() -> (r: Self)
        ensures
            r.seed == 123,
            r.max_depth == 20,
    {
        GeneralParams { seed: 123, max_depth: 20 }
    }
}

/// The general parameters of a generation pass and its one random stream,
/// seeded from the seed.
pub struct GenerationContext {
    pub general: GeneralParams,
    pub rng: SmallRng,
}

impl GenerationContext {
    pub fn new(params: &GeneralParams) -> (r: Self)
        ensures
            r.general == *params,
    {
        GenerationContext { general: *params, rng: seeded_rng(params.seed as u64) }
    }
}

/// The integer parameters of one generation pass. `trunk_segments` is the
/// number of segments that reach the trunk height.
#[derive(Clone, Copy, Debug)]
pub struct TreePlan {
    pub general: GeneralParams,
    pub frequency_min: u32,
    pub frequency_max: u32,
    pub trunk_segments: u32,
    pub roots_enabled: bool,
    pub root_density: u32,
    pub twigs_enabled: bool,
}

/// The skeleton of a generated tree and the rings that received twigs.
#[derive(Debug)]
pub struct GeneratedTree {
    pub structure: TreeStructure,
    pub twigs: Vec<TwigSite>,
}

/// The limits of the branching engine that a plan gives.
pub open spec fn plan_limits(plan: TreePlan) -> GrowthLimits {
    GrowthLimits {
        max_depth: plan.general.max_depth,
        frequency_min: plan.frequency_min,
        frequency_max: plan.frequency_max,
        trunk_segments: plan.trunk_segments,
    }
}

/// The number of main roots that a plan asks for.
pub open spec fn root_count(plan: TreePlan) -> int {
    if plan.roots_enabled { plan.root_density as int } else { 0 }
}

/// The trunk and branches of `t` grew as the branching engine says, counted
/// from the base at depth 0: the base's first `g` children come from growth,
/// every cross-section without a root ring lies below the maximum depth and
/// grew as `node_ok` says; the base's later children are main root starts,
/// at depth 0 and root step 1.
pub open spec fn trunk_tree_ok(t: Seq<BranchCrossSection>, plan: TreePlan, g: int) -> bool {
    &&& 0 <= g <= t[0].children@.len()
    &&& node_ok(t, 0, t[0].children@.subrange(0, g), 0, 0, plan_limits(plan))
    &&& forall|k: int|
        #![trigger t[k]]
        1 <= k < t.len() && above_ground(t[k].rings@) ==> {
            &&& t[k].depth < plan.general.max_depth
            &&& node_ok(t, k, t[k].children@, run_from(t, k, 0, 0), run_from(t, k, 0, 0), plan_limits(plan))
        }
    &&& forall|j: int|
        g <= j < t[0].children@.len() ==> {
            &&& t[#[trigger] t[0].children@[j] as int].depth == 0
            &&& t[t[0].children@[j] as int].rings@ == root_rings()
            &&& root_step(t, t[0].children@[j] as int) == 1
        }
}

/// Runs the subsystems in order over one random stream: trunk base,
/// branching, roots, twigs.
pub struct ModularTreeGenerator {
    pub trunk_system: TrunkSystem,
    pub branching_system: BranchingSystem,
    pub root_system: RootSystem,
    pub twig_system: TwigSystem,
}

impl ModularTreeGenerator {
    pub fn new() -> (r: Self)
        ensures
            r == (ModularTreeGenerator {
                trunk_system: TrunkSystem { ring_generator: RingGenerator },
                branching_system: BranchingSystem { rings: RingGenerator },
                root_system: RootSystem,
                twig_system: TwigSystem { placer: TwigPlacer },
            }),
    {
        ModularTreeGenerator {
            trunk_system: TrunkSystem::new(),
            branching_system: BranchingSystem::new(),
            root_system: RootSystem::new(),
            twig_system: TwigSystem::new(),
        }
    }

    /// Generates one tree from a fresh random stream seeded with the seed.
    /// The trunk and branches grow as the branching engine says, counted from
    /// the base (`trunk_tree_ok`): every cross-section without a root ring
    /// has a depth below the maximum depth and respects the segment cap and
    /// the branch frequency. With roots enabled the base's last
    /// `root_density` children are main root starts. Root cross-sections lie
    /// at depth 0, so every cross-section has a depth below the maximum; with
    /// roots disabled no cross-section has a root ring, and the tree holds
    /// at most one more cross-section than `growth_bound` allows.
    pub fn generate_tree<H: TrunkGenerator + BranchGenerator + RootGenerator + TwigGenerator>(&self, plan: &TreePlan, host: &mut H) -> (r: GeneratedTree)
        requires
            plan.trunk_segments <= u32::MAX - 10,
        ensures
            r.structure.wf(),
            r.structure@[0].depth == 0,
            exists|n: nat| n >= 1 && r.structure@[0].rings@ == trunk_types_spec(n),
            forall|k: int|
                #![trigger r.structure@[k]]
                0 <= k < r.structure@.len() && plan.general.max_depth >= 1 ==> r.structure@[k].depth < plan.general.max_depth,
            !plan.roots_enabled ==> forall|k: int|
                #![trigger r.structure@[k]]
                0 <= k < r.structure@.len() ==> {
                    &&& above_ground(r.structure@[k].rings@)
                    &&& r.structure@[k].children@.len() <= 2
                    &&& r.structure@[k].children@.len() == 2 ==> r.structure@[k].depth + 1 < plan.general.max_depth
                    &&& step_ok(r.structure@, k, r.structure@[k].children@)
                },
            !plan.roots_enabled ==> r.structure@.len() <= 1 + growth_bound(plan_limits(*plan), 0, 0),
            r.structure@[0].children@.len() >= root_count(*plan),
            trunk_tree_ok(r.structure@, *plan, r.structure@[0].children@.len() - root_count(*plan)),
            !plan.twigs_enabled ==> r.twigs@.len() == 0,
            sites_ok(&r.structure, r.twigs@),
    {
        let mut context = GenerationContext::new(&plan.general);
        let mut structure = self.trunk_system.generate(host);
        let ghost s0 = structure@;
        proof {
            let n = choose|n: nat| n >= 1 && s0[0].rings@ == trunk_types_spec(n);
            assert forall|i: int| 0 <= i < s0[0].rings@.len() implies !(#[trigger] s0[0].rings@[i] is Root) by {
                assert(s0[0].rings@[i] == trunk_types_spec(n)[i]);
            }
        }
        let limits = GrowthLimits {
            max_depth: plan.general.max_depth,
            frequency_min: plan.frequency_min,
            frequency_max: plan.frequency_max,
            trunk_segments: plan.trunk_segments,
        };
        self.branching_system.generate_branches(&limits, &mut structure, host, &mut context.rng);
        let ghost s1 = structure@;
        proof {
            assert(limits == plan_limits(*plan));
            let g = s1[0].children@.len() as int;
            assert(gained(s0, s1, 0) =~= s1[0].children@.subrange(0, g));
            assert forall|k: int|
                #![trigger s1[k]]
                1 <= k < s1.len() && above_ground(s1[k].rings@) implies {
                    &&& s1[k].depth < plan.general.max_depth
                    &&& node_ok(s1, k, s1[k].children@, run_from(s1, k, 0, 0), run_from(s1, k, 0, 0), plan_limits(*plan))
                } by {}
            assert(trunk_tree_ok(s1, *plan, g));
            assert forall|k: int|
                #![trigger s1[k]]
                0 <= k < s1.len() ==> {
                    &&& above_ground(s1[k].rings@)
                    &&& s1[k].children@.len() <= 2
                    &&& s1[k].children@.len() == 2 ==> s1[k].depth + 1 < plan.general.max_depth
                    &&& plan.general.max_depth >= 1 ==> s1[k].depth < plan.general.max_depth
                    &&& step_ok(s1, k, s1[k].children@)
                } by {
                if k == 0 {
                    assert(s1[0].children@.subrange(0, s1[0].children@.len() as int) =~= s1[0].children@);
                }
            }
        }
        if plan.roots_enabled {
            proof {
                assert(s1[0].rings@ == s0[0].rings@);
                assert(s0[0].rings@[0] == RingType::MainTrunk);
                assert(s1[0].rings@ != root_rings());
            }
            self.root_system.generate(plan.root_density, &mut structure, host, &mut context.rng);
            let ghost s2 = structure@;
            proof {
                let g = s1[0].children@.len() as int;
                assert(s2[0].children@.subrange(0, g) =~= s1[0].children@);
                assert(s1[0].children@.subrange(0, g) =~= s1[0].children@);
                assert forall|j: int| 0 <= j < s1[0].children@.len() implies (#[trigger] s1[0].children@[j]) < s1.len() by {}
                lemma_node_frame(s1, s2, 0, s1[0].children@, 0, 0, plan_limits(*plan));
                assert forall|k: int|
                    #![trigger s2[k]]
                    1 <= k < s2.len() && above_ground(s2[k].rings@) implies {
                        &&& s2[k].depth < plan.general.max_depth
                        &&& node_ok(s2, k, s2[k].children@, run_from(s2, k, 0, 0), run_from(s2, k, 0, 0), plan_limits(*plan))
                    } by {
                    if k < s1.len() {
                        assert(crate::branching::same_node(s2[k], s1[k]));
                        let kids = s1[k].children@;
                        assert forall|j: int| 0 <= j < kids.len() implies (#[trigger] kids[j]) < s1.len() by {
                            assert(s1[k].children@[j] == kids[j]);
                        }
                        lemma_run_frame(s1, s2, k, 0, 0);
                        lemma_node_frame(s1, s2, k, kids, run_from(s1, k, 0, 0), run_from(s1, k, 0, 0), plan_limits(*plan));
                    } else {
                        assert(s2[k].rings@[0] is Root);
                    }
                }
                assert(trunk_tree_ok(s2, *plan, g));
                assert forall|k: int|
                    #![trigger s2[k]]
                    0 <= k < s2.len() && plan.general.max_depth >= 1 implies s2[k].depth < plan.general.max_depth by {
                    if k < s1.len() {
                        assert(s2[k].depth == s1[k].depth);
                    }
                }
            }
        }
        let twigs = if plan.twigs_enabled {
            self.twig_system.generate(&structure, host, &mut context.rng)
        } else {
            Vec::new()
        };
        GeneratedTree { structure, twigs }
    }
}

} // verus!
