use crate::rings::{trunk_types_spec, RingGenerator};
use crate::structure::{RingType, TreeStructure};
use vstd::prelude::*;

verus! {

/// The geometry of the trunk base: the number of lobes that the buttressing
/// asks for and the layout of their rings.
pub trait TrunkGenerator {
    /// Number of rings of the trunk base, from the buttressing.
    fn trunk_ring_count(&self) -> u32;

    /// Lays out the rings of the trunk base, whose types are `rings`.
    fn lay_out_base(&mut self, rings: &Vec<RingType>);
}

/// Creates the base cross-section of the trunk.
pub struct TrunkSystem {
    pub ring_generator: RingGenerator,
}

impl TrunkSystem {
    pub fn new() -> (r: Self)
        ensures
            r == (TrunkSystem { ring_generator: RingGenerator }),
    {
        TrunkSystem { ring_generator: RingGenerator::new() }
    }

    /// A fresh arena that holds the trunk base at depth 0: one main trunk
    /// ring, then a side lobe for each further ring the buttressing asks for
    /// (at least one ring in all).
    pub fn generate<H: TrunkGenerator>(&self, host: &mut H) -> (r: TreeStructure)
        ensures
            r.wf(),
            r@.len() == 1,
            r@[0].depth == 0,
            r@[0].children@.len() == 0,
            exists|n: nat| n >= 1 && r@[0].rings@ == trunk_types_spec(n),
    {
        let asked = host.trunk_ring_count();
        let count: usize = if asked >= 1 { asked as usize } else { 1 };
        let types = self.ring_generator.trunk_ring_types(count);
        host.lay_out_base(&types);
        let r = TreeStructure::new(types);
        assert(r@[0].rings@ == trunk_types_spec(count as nat));
        r
    }
}

} // verus!
