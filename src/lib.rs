//! Procedural tree skeletons: the branching engine, the root and twig
//! placement rules and the mesh layout, over an arena of cross-sections.
//! The continuous geometry (positions, directions, radii) is supplied by the
//! caller through the generator traits; everything decided here is verified.

pub mod branching;
pub mod generator;
pub mod mesh;
mod random;
pub mod rings;
pub mod roots;
pub mod structure;
pub mod trunk;
pub mod twigs;

pub use branching::{
    bend_reduction_tenths, branch_ready, hard_stop, max_segments_for_depth, normalized_frequency,
    validated_frequency_range, BranchGenerator, BranchingSystem, GrowthLimits, GrowthStop,
};
pub use generator::{GeneralParams, GeneratedTree, GenerationContext, ModularTreeGenerator, TreePlan};
pub use mesh::{MeshBand, MeshLayout};
pub use rings::{RingGenerator, RingShare, RingSplit, ShareTaper};
pub use roots::{RootGenerator, RootSystem};
pub use structure::{BranchCrossSection, RingId, RingType, RootType, TreeStructure, TwigType};
pub use trunk::{TrunkGenerator, TrunkSystem};
pub use twigs::{clamp_twig_count, gate_rolls, TwigGate, TwigGenerator, TwigPlacer, TwigSite, TwigSystem};
