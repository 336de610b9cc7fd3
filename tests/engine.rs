use rand::rngs::SmallRng;
use rand::Rng;
use tree_engine::{
    bend_reduction_tenths, branch_ready, clamp_twig_count, hard_stop, max_segments_for_depth,
    normalized_frequency, BranchGenerator, GeneralParams, GeneratedTree, GrowthStop,
    ModularTreeGenerator, RingGenerator, RingId, RingShare, RingSplit, RingType, RootGenerator,
    ShareTaper, TreePlan, TreeStructure, TrunkGenerator, TwigGate, TwigGenerator,
};

/// A plain geometry: each step rises by `step`, radii are not modelled, roots
/// sink by `step` until `root_floor`.
struct StepGeometry {
    step: f32,
    split_height: f32,
    root_floor: f32,
    base_rings: u32,
    heights: Vec<f32>,
    pending: f32,
    gate: TwigGate,
    placed: usize,
    root_rings: Vec<(u32, usize)>,
}

impl StepGeometry {
    fn new(split_height: f32, base_rings: u32) -> Self {
        StepGeometry {
            step: 0.3,
            split_height,
            root_floor: -1.5,
            base_rings,
            heights: Vec::new(),
            pending: 0.0,
            gate: TwigGate::Within,
            placed: 0,
            root_rings: Vec::new(),
        }
    }
}

impl TrunkGenerator for StepGeometry {
    fn trunk_ring_count(&self) -> u32 {
        self.base_rings
    }
    fn lay_out_base(&mut self, _rings: &Vec<RingType>) {
        self.heights = vec![0.0];
    }
}

impl BranchGenerator for StepGeometry {
    fn exhausted(&self, _node: usize) -> bool {
        false
    }
    fn advance(&mut self, rng: &mut SmallRng, node: usize, _depth: u32) -> bool {
        let _bend: f32 = rng.gen_range(-1.0..=1.0);
        self.pending = self.heights[node] + self.step;
        self.pending >= self.split_height
    }
    fn extend(&mut self, _node: usize, child: usize, _depth: u32) {
        assert_eq!(child, self.heights.len());
        self.heights.push(self.pending);
    }
    fn fork(&mut self, _rng: &mut SmallRng, _node: usize, trunk: usize, branch: usize, _split: &RingSplit) {
        assert_eq!(trunk, self.heights.len());
        assert_eq!(branch, trunk + 1);
        self.heights.push(self.pending + self.step);
        self.heights.push(self.pending + self.step);
    }
}

impl RootGenerator for StepGeometry {
    fn start_root(&mut self, base: usize, ring: usize, index: u32, _count: u32, first: usize) {
        self.root_rings.push((index, ring));
        assert_eq!(first, self.heights.len());
        let h = self.heights[base] - self.step;
        self.heights.push(h);
    }
    fn root_exhausted(&self, node: usize) -> bool {
        self.heights[node] < self.root_floor
    }
    fn root_step(&mut self, _rng: &mut SmallRng, node: usize, child: usize) {
        assert_eq!(child, self.heights.len());
        let h = self.heights[node] - self.step;
        self.heights.push(h);
    }
    fn side_root_roll(&mut self, rng: &mut SmallRng) -> bool {
        rng.gen_range(0.0..=1.0) < 0.3
    }
    fn start_side_root(&mut self, _rng: &mut SmallRng, _node: usize, _from: usize) {}
}

impl TwigGenerator for StepGeometry {
    fn twig_gate(&self, _node: usize, _ring: usize) -> TwigGate {
        self.gate
    }
    fn twig_roll(&mut self, _rng: &mut SmallRng, _gate: TwigGate) -> bool {
        true
    }
    fn twig_count_draw(&mut self, _rng: &mut SmallRng) -> u32 {
        30
    }
    fn place_twig(&mut self, _rng: &mut SmallRng, _node: usize, _ring: usize, _index: u32, _count: u32) {
        self.placed += 1;
    }
}

fn plan(max_depth: u32, fmin: u32, fmax: u32, roots: bool, twigs: bool) -> TreePlan {
    TreePlan {
        general: GeneralParams { seed: 123, max_depth },
        frequency_min: fmin,
        frequency_max: fmax,
        trunk_segments: 17,
        roots_enabled: roots,
        root_density: 4,
        twigs_enabled: twigs,
    }
}

fn run(p: &TreePlan, geometry: &mut StepGeometry) -> GeneratedTree {
    ModularTreeGenerator::new().generate_tree(p, geometry)
}

fn is_root(t: &RingType) -> bool {
    matches!(t, RingType::Root { .. })
}

#[test]
fn segment_cap_steps_with_depth() {
    assert_eq!(max_segments_for_depth(0, 17), 27);
    assert_eq!(max_segments_for_depth(2, 3), 20);
    assert_eq!(max_segments_for_depth(3, 17), 8);
    assert_eq!(max_segments_for_depth(8, 17), 4);
    assert_eq!(max_segments_for_depth(12, 17), 3);
    assert_eq!(max_segments_for_depth(16, 17), 2);
    assert_eq!(max_segments_for_depth(17, 17), 1);
}

#[test]
fn bend_reduction_by_depth() {
    assert_eq!(bend_reduction_tenths(0), 1);
    assert_eq!(bend_reduction_tenths(3), 3);
    assert_eq!(bend_reduction_tenths(5), 6);
    assert_eq!(bend_reduction_tenths(6), 10);
}

#[test]
fn frequency_range_is_normalized() {
    assert_eq!(normalized_frequency(0, 0), (1, 1));
    assert_eq!(normalized_frequency(5, 2), (5, 5));
    assert_eq!(normalized_frequency(2, 4), (2, 4));
}

#[test]
fn hard_stops_in_order() {
    assert_eq!(hard_stop(3, 20, 3, 0, 1), Some(GrowthStop::DepthLimit));
    assert_eq!(hard_stop(3, 20, 1, 20, 0), Some(GrowthStop::SegmentLimit));
    assert_eq!(hard_stop(3, 20, 1, 2, 0), Some(GrowthStop::NoRings));
    assert_eq!(hard_stop(3, 20, 1, 2, 4), None);
}

#[test]
fn branch_decision() {
    assert!(branch_ready(2, 2, true, 0, 3));
    assert!(!branch_ready(1, 2, true, 0, 3));
    assert!(!branch_ready(2, 2, false, 0, 3));
    assert!(!branch_ready(5, 1, true, 2, 3));
    assert!(!branch_ready(5, 1, true, 0, 1));
}

#[test]
fn single_ring_split() {
    let s = RingGenerator::new().split_for_branch(1);
    assert_eq!(s.trunk, vec![RingShare { parent_ring: 0, taper: ShareTaper::Continuation }]);
    assert_eq!(s.branch, vec![RingShare { parent_ring: 0, taper: ShareTaper::ThinnerCopy }]);
}

#[test]
fn lobed_split_sends_last_ring_to_branch() {
    let s = RingGenerator::new().split_for_branch(4);
    assert_eq!(s.trunk.len(), 3);
    for (i, share) in s.trunk.iter().enumerate() {
        assert_eq!(*share, RingShare { parent_ring: i, taper: ShareTaper::Continuation });
    }
    assert_eq!(s.branch, vec![RingShare { parent_ring: 3, taper: ShareTaper::Lobe }]);
}

#[test]
fn trunk_ring_types_for_buttressing() {
    let g = RingGenerator::new();
    assert_eq!(g.trunk_ring_types(1), vec![RingType::MainTrunk]);
    assert_eq!(
        g.trunk_ring_types(4),
        vec![RingType::MainTrunk, RingType::SideBranch, RingType::SideBranch, RingType::SideBranch]
    );
}

#[test]
fn shared_types_follow_parent() {
    let g = RingGenerator::new();
    let parent = vec![RingType::MainTrunk, RingType::SideBranch, RingType::SideBranch];
    let split = g.split_for_branch(3);
    assert_eq!(g.shared_ring_types(&parent, &split.trunk), vec![RingType::MainTrunk, RingType::SideBranch]);
    assert_eq!(g.shared_ring_types(&parent, &split.branch), vec![RingType::SideBranch]);
}

#[test]
fn twig_count_is_clamped() {
    assert_eq!(clamp_twig_count(0), 1);
    assert_eq!(clamp_twig_count(5), 5);
    assert_eq!(clamp_twig_count(40), 12);
}

#[test]
fn arena_appends_after_parent() {
    let mut t = TreeStructure::new(vec![RingType::MainTrunk]);
    let a = t.add_cross_section(0, 0, vec![RingType::MainTrunk]);
    let b = t.add_cross_section(0, 1, vec![RingType::SideBranch]);
    let c = t.add_cross_section(a, 0, vec![RingType::MainTrunk]);
    assert_eq!((a, b, c), (1, 2, 3));
    assert_eq!(t.nodes[0].children, vec![1, 2]);
    assert_eq!(t.nodes[1].children, vec![3]);
    assert_eq!(t.nodes[3].parent, Some(1));
    assert_eq!(t.len(), 4);
}

#[test]
fn minimal_trunk_is_a_chain() {
    let mut g = StepGeometry::new(999.0, 1);
    let tree = run(&plan(1, 2, 4, false, false), &mut g);
    let nodes = &tree.structure.nodes;
    assert_eq!(nodes.len(), 28);
    for (k, n) in nodes.iter().enumerate() {
        assert_eq!(n.depth, 0);
        if k + 1 < nodes.len() {
            assert_eq!(n.children, vec![k + 1]);
        } else {
            assert!(n.children.is_empty());
        }
    }
    assert_eq!(nodes.iter().filter(|n| n.children.len() == 2).count(), 0);
    assert_eq!(g.heights.len(), nodes.len());
}

#[test]
fn forced_branching_splits_early() {
    let mut g = StepGeometry::new(0.0, 1);
    let tree = run(&plan(3, 1, 1, false, false), &mut g);
    let nodes = &tree.structure.nodes;
    // The first step has no segment since the last branch point yet.
    assert_eq!(nodes[1].depth, 0);
    assert_eq!(nodes[1].children, vec![2, 3]);
    assert_eq!(nodes[2].depth, 1);
    assert_eq!(nodes[3].depth, 1);
    assert!(nodes.iter().any(|n| n.children.len() == 2));
    assert!(nodes.iter().all(|n| n.depth < 3));
}

#[test]
fn roots_disabled_has_no_root_rings() {
    let mut g = StepGeometry::new(3.0, 1);
    let tree = run(&plan(4, 2, 4, false, false), &mut g);
    assert!(tree.structure.nodes.iter().all(|n| n.rings.iter().all(|t| !is_root(t))));
}

#[test]
fn roots_enabled_hang_from_the_base() {
    let mut g = StepGeometry::new(3.0, 1);
    let tree = run(&plan(4, 2, 4, true, false), &mut g);
    let nodes = &tree.structure.nodes;
    let root_sections = nodes.iter().filter(|n| n.rings.iter().any(is_root)).count();
    assert!(root_sections >= 4);
    assert_eq!(nodes[0].children.len(), 1 + 4);
    for &c in &nodes[0].children[1..] {
        assert_eq!(nodes[c].depth, 0);
        assert!(nodes[c].rings.iter().all(is_root));
    }
    let step = |mut k: usize| -> u32 {
        let mut steps = 0;
        while nodes[k].rings.iter().any(is_root) {
            steps += 1;
            k = nodes[k].parent.unwrap();
        }
        steps
    };
    for (k, n) in nodes.iter().enumerate().filter(|(_, n)| n.rings.iter().any(is_root)) {
        assert_eq!(n.depth, 0);
        assert!(step(k) >= 1 && step(k) <= 26);
        assert_eq!(n.rings, vec![RingType::Root { root_type: tree_engine::RootType::LateralRoot }]);
        if n.children.len() == 2 {
            assert!(step(k) >= 4 && step(k) <= 15);
        }
    }
}

#[test]
fn depth_stays_below_maximum() {
    for max_depth in 1..6 {
        let mut g = StepGeometry::new(0.0, 3);
        let tree = run(&plan(max_depth, 1, 1, true, false), &mut g);
        for n in tree.structure.nodes.iter() {
            assert!(n.depth < max_depth);
        }
    }
}

#[test]
fn thick_rings_never_get_twigs() {
    let mut g = StepGeometry::new(3.0, 1);
    g.gate = TwigGate::Beyond;
    let tree = run(&plan(4, 2, 4, false, true), &mut g);
    assert!(tree.twigs.is_empty());
    assert_eq!(g.placed, 0);
}

#[test]
fn thin_rings_get_clamped_twigs() {
    let mut g = StepGeometry::new(3.0, 1);
    let tree = run(&plan(2, 2, 4, true, true), &mut g);
    let above: usize = tree.structure.nodes.iter().map(|n| n.rings.iter().filter(|t| !is_root(t)).count()).sum();
    assert_eq!(tree.twigs.len(), above);
    assert!(tree.twigs.iter().all(|s| s.count == 12));
    assert_eq!(g.placed, 12 * above);
    assert_eq!(tree.twigs[0].ring, RingId { cross_section_index: 0, ring_index: 0 });
}

#[test]
fn twigs_disabled_gives_none() {
    let mut g = StepGeometry::new(3.0, 1);
    let tree = run(&plan(3, 2, 4, false, false), &mut g);
    assert!(tree.twigs.is_empty());
}

#[test]
fn same_seed_same_tree() {
    let p = plan(5, 1, 3, true, true);
    let mut g1 = StepGeometry::new(1.0, 3);
    let mut g2 = StepGeometry::new(1.0, 3);
    let a = run(&p, &mut g1);
    let b = run(&p, &mut g2);
    assert_eq!(a.structure.nodes.len(), b.structure.nodes.len());
    for (x, y) in a.structure.nodes.iter().zip(b.structure.nodes.iter()) {
        assert_eq!(x.depth, y.depth);
        assert_eq!(x.rings, y.rings);
        assert_eq!(x.parent, y.parent);
        assert_eq!(x.children, y.children);
    }
    assert_eq!(a.twigs, b.twigs);
    let ma = a.structure.generate_mesh(8).unwrap();
    let mb = b.structure.generate_mesh(8).unwrap();
    assert_eq!(ma.indices, mb.indices);
    assert_eq!(ma.depths, mb.depths);
    assert_eq!(ma.bands, mb.bands);
    assert_eq!(g1.heights, g2.heights);
}

#[test]
fn two_section_mesh_indices() {
    let mut t = TreeStructure::new(vec![RingType::MainTrunk]);
    t.add_cross_section(0, 1, vec![RingType::MainTrunk]);
    let m = t.generate_mesh(3).unwrap();
    assert_eq!(m.indices, vec![0, 1, 3, 0, 3, 2, 2, 3, 5, 2, 5, 4, 4, 5, 1, 4, 1, 0]);
    assert_eq!(m.depths, vec![0, 1, 0, 1, 0, 1]);
    assert_eq!(m.bands.len(), 1);
    assert_eq!(m.bands[0].points, 3);
}

#[test]
fn ringless_section_gets_empty_band() {
    let mut t = TreeStructure::new(vec![RingType::MainTrunk]);
    t.add_cross_section(0, 0, vec![]);
    let m = t.generate_mesh(6).unwrap();
    assert_eq!(m.bands.len(), 1);
    assert_eq!(m.bands[0].points, 0);
    assert!(m.indices.is_empty());
    assert!(m.depths.is_empty());
}

#[test]
fn mesh_is_connected() {
    let mut g = StepGeometry::new(0.5, 3);
    let tree = run(&plan(4, 1, 2, true, false), &mut g);
    let m = tree.structure.generate_mesh(12).unwrap();
    let vertices = m.depths.len();
    assert_eq!(m.indices.len() % 3, 0);
    assert!(m.indices.iter().all(|&i| (i as usize) < vertices));
    let n = tree.structure.nodes.len();
    assert_eq!(m.bands.len(), n - 1);
    for c in 1..n {
        let owners: Vec<_> = m.bands.iter().filter(|b| b.child == c).collect();
        assert_eq!(owners.len(), 1);
        assert_eq!(Some(owners[0].parent), tree.structure.nodes[c].parent);
    }
}

#[test]
fn oversized_mesh_is_refused() {
    let mut t = TreeStructure::new(vec![RingType::MainTrunk]);
    t.add_cross_section(0, 1, vec![RingType::MainTrunk]);
    assert!(t.generate_mesh(u32::MAX).is_none());
}

#[test]
fn frequency_setter_range() {
    assert_eq!(tree_engine::validated_frequency_range(0, 0), (1, 1));
    assert_eq!(tree_engine::validated_frequency_range(6, 3), (3, 3));
    assert_eq!(tree_engine::validated_frequency_range(2, 5), (2, 5));
    assert_eq!(tree_engine::validated_frequency_range(4, 0), (1, 1));
}

#[test]
fn wide_frequency_range_postpones_branching() {
    let mut g = StepGeometry::new(0.0, 1);
    let tree = run(&plan(4, 2, 4_000_000_000, false, false), &mut g);
    assert!(tree.structure.nodes.iter().all(|n| n.children.len() <= 1));
    let mut g = StepGeometry::new(0.0, 1);
    let tree = run(&plan(4, 2, 2, false, false), &mut g);
    assert_eq!(tree.structure.nodes[2].children.len(), 2);
}

#[test]
fn branch_children_share_rings() {
    let mut g = StepGeometry::new(0.0, 4);
    let tree = run(&plan(3, 1, 1, false, false), &mut g);
    let nodes = &tree.structure.nodes;
    assert_eq!(nodes[0].rings.len(), 4);
    assert_eq!(nodes[1].rings, nodes[0].rings);
    assert_eq!(nodes[1].children, vec![2, 3]);
    assert_eq!(nodes[2].rings, vec![RingType::MainTrunk, RingType::SideBranch, RingType::SideBranch]);
    assert_eq!(nodes[3].rings, vec![RingType::SideBranch]);
}

#[test]
fn context_keeps_general_params() {
    let g = GeneralParams { seed: 7, max_depth: 3 };
    let c = tree_engine::GenerationContext::new(&g);
    assert_eq!(c.general, g);
}

#[test]
fn main_roots_take_base_rings_in_turn() {
    let mut g = StepGeometry::new(3.0, 3);
    let mut p = plan(2, 2, 4, true, false);
    p.root_density = 5;
    run(&p, &mut g);
    assert_eq!(g.root_rings, vec![(0, 0), (1, 1), (2, 2), (3, 0), (4, 1)]);
    assert_eq!(tree_engine::roots::base_ring_for(7, 3), 1);
}

#[test]
fn segment_cap_bounds_each_level() {
    // A trunk that never branches stops after its cap of straight segments.
    let mut g = StepGeometry::new(999.0, 1);
    let mut p = plan(5, 2, 4, false, false);
    p.trunk_segments = 3;
    let tree = run(&p, &mut g);
    assert_eq!(tree.structure.nodes.len(), 1 + 20);
}

#[test]
fn forks_take_consecutive_indices_in_pre_order() {
    let mut g = StepGeometry::new(0.0, 1);
    let tree = run(&plan(4, 1, 1, false, false), &mut g);
    let nodes = &tree.structure.nodes;
    for (p, n) in nodes.iter().enumerate() {
        if n.children.len() == 2 {
            let (a, b) = (n.children[0], n.children[1]);
            assert_eq!(b, a + 1);
            assert!(a > p);
            // every descendant of the trunk side comes before every descendant of the branch side
            let under = |root: usize| -> Vec<usize> {
                let mut out = Vec::new();
                let mut stack = vec![root];
                while let Some(x) = stack.pop() {
                    out.push(x);
                    stack.extend(nodes[x].children.iter().copied());
                }
                out
            };
            let ta = under(a);
            let tb = under(b);
            let max_a = ta.iter().filter(|&&x| x != a).max().copied().unwrap_or(b);
            let min_b = tb.iter().filter(|&&x| x != b).min().copied().unwrap_or(usize::MAX);
            assert!(max_a < min_b);
        }
    }
}

#[test]
fn hard_stop_leaves_arena_alone() {
    let mut g = StepGeometry::new(0.0, 1);
    let tree = run(&plan(0, 1, 1, false, false), &mut g);
    assert_eq!(tree.structure.nodes.len(), 1);
    let mut g = StepGeometry::new(0.0, 0);
    let tree = run(&plan(4, 1, 1, false, false), &mut g);
    assert_eq!(tree.structure.nodes[0].rings, vec![RingType::MainTrunk]);
}

#[test]
fn constructors_build_the_subsystems() {
    let _ = tree_engine::ModularTreeGenerator::new();
    let b = tree_engine::BranchingSystem::new();
    assert_eq!(b.rings.trunk_ring_types(2), vec![RingType::MainTrunk, RingType::SideBranch]);
}

#[test]
fn only_rings_within_twice_the_threshold_roll() {
    assert!(tree_engine::gate_rolls(TwigGate::Within));
    assert!(tree_engine::gate_rolls(TwigGate::Near));
    assert!(!tree_engine::gate_rolls(TwigGate::Beyond));
}

#[test]
fn zero_roots_leave_the_tree_alone() {
    let mut g1 = StepGeometry::new(3.0, 1);
    let mut p = plan(3, 2, 4, true, false);
    p.root_density = 0;
    let a = run(&p, &mut g1);
    let mut g2 = StepGeometry::new(3.0, 1);
    let b = run(&plan(3, 2, 4, false, false), &mut g2);
    assert_eq!(a.structure.nodes.len(), b.structure.nodes.len());
    assert!(a.structure.nodes.iter().all(|n| n.rings.iter().all(|t| !is_root(t))));
}

#[test]
fn minimal_depth_holds_with_roots() {
    let mut g = StepGeometry::new(999.0, 1);
    let mut p = plan(1, 1, 1, true, false);
    p.root_density = 6;
    let tree = run(&p, &mut g);
    assert!(tree.structure.nodes.iter().all(|n| n.depth == 0));
    assert_eq!(tree.structure.nodes[0].children.len(), 1 + 6);
}
