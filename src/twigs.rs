use crate::structure::{RingId, RingType, TreeStructure};
use rand::rngs::SmallRng;
use vstd::prelude::*;

verus! {

/// How a ring's radius compares with the twig attachment threshold.
#[derive(Clone, Copy, Debug, PartialEq, Eq, Structural)]
pub enum TwigGate {
    /// At most the threshold: twigs with the full chance.
    Within,
    /// Above the threshold and at most twice it: twigs with a smaller chance.
    Near,
    /// More than twice the threshold: never twigs.
    Beyond,
}

/// The geometry of twig placement: ring radii, the chance draws and the
/// position, orientation, scale and type of each twig, kept by the
/// implementor.
pub trait TwigGenerator {
    /// Where the radius of ring `ring` of cross-section `node` stands against
    /// the attachment threshold.
    fn twig_gate(&self, node: usize, ring: usize) -> TwigGate;

    /// Draws whether a ring with this gate receives twigs.
    fn twig_roll(&mut self, rng: &mut SmallRng, gate: TwigGate) -> bool;

    /// Draws the raw number of twigs from the density, before clamping.
    fn twig_count_draw(&mut self, rng: &mut SmallRng) -> u32;

    /// Places twig `index` of `count` around ring `ring` of `node`.
    fn place_twig(&mut self, rng: &mut SmallRng, node: usize, ring: usize, index: u32, count: u32);
}

/// One ring that received twigs, and how many.
#[derive(Clone, Copy, Debug, PartialEq, Eq, Structural)]
pub struct TwigSite {
    pub ring: RingId,
    pub gate: TwigGate,
    pub count: u32,
}

/// Most twigs placed around one ring.
pub open spec fn twig_cap() -> int {
    12
}

/// The raw count clamped to between one and the cap.
pub open spec fn clamp_count_spec(raw: u32) -> int {
    if raw < 1 { 1 } else if raw > 12 { 12 } else { raw as int }
}

/// Every site names a ring of a cross-section of the arena that is not a
/// root ring and whose gate allowed twigs, carries a clamped count, and the
/// sites come in the order of the scan, each ring at most once.
pub open spec fn sites_ok(skeleton: &TreeStructure, sites: Seq<TwigSite>) -> bool {
    &&& forall|j: int| #![trigger sites[j]] 0 <= j < sites.len() ==> {
        &&& sites[j].ring.cross_section_index < skeleton@.len()
        &&& sites[j].ring.ring_index < skeleton@[sites[j].ring.cross_section_index as int].rings@.len()
        &&& !(skeleton@[sites[j].ring.cross_section_index as int].rings@[sites[j].ring.ring_index as int] is Root)
        &&& sites[j].gate != TwigGate::Beyond
        &&& 1 <= sites[j].count <= twig_cap()
    }
    &&& forall|a: int, b: int| #![trigger sites[a], sites[b]] 0 <= a < b < sites.len() ==> site_before(sites[a], sites[b])
}

pub open spec fn site_before(a: TwigSite, b: TwigSite) -> bool {
    let (x, y) = (a.ring, b.ring);
    x.cross_section_index < y.cross_section_index || (x.cross_section_index == y.cross_section_index && x.ring_index < y.ring_index)
}

/// Scans the arena for twig sites.
pub struct TwigSystem {
    pub placer: TwigPlacer,
}

/// Places the twigs around one ring.
pub struct TwigPlacer;

impl TwigPlacer {
    pub fn new() -> (r: Self)
        ensures
            r == TwigPlacer,
    {
        TwigPlacer
    }

    /// Draws how many twigs go around ring `ring` of `node` and places them;
    /// returns that number.
    pub fn generate_twigs_at_position<H: TwigGenerator>(&self, host: &mut H, rng: &mut SmallRng, node: usize, ring: usize) -> (r: u32)
        ensures
            1 <= r <= twig_cap(),
    {
        let raw = host.twig_count_draw(rng);
        let count = clamp_twig_count(raw);
        let mut i: u32 = 0;
        while i < count
            invariant
                i <= count,
            decreases count - i,
        {
            host.place_twig(rng, node, ring, i, count);
            i += 1;
        }
        count
    }
}

/// Whether a ring with this gate gets a chance draw for twigs: a ring
/// within twice the threshold does, a ring beyond it never does and costs no
/// draw.
pub fn gate_rolls(gate: TwigGate) -> (r: bool)
    ensures
        r == !(gate is Beyond),
{
    match gate {
        TwigGate::Beyond => false,
        _ => true,
    }
}

/// The number of twigs of a raw draw: at least one and at most twelve.
pub fn clamp_twig_count(raw: u32) -> (r: u32)
    ensures
        r == clamp_count_spec(raw),
{
    if raw < 1 {
        1
    } else if raw > 12 {
        12
    } else {
        raw
    }
}

impl TwigSystem {
    pub fn new() -> (r: Self)
        ensures
            r == (TwigSystem { placer: TwigPlacer }),
    {
        TwigSystem { placer: TwigPlacer::new() }
    }

    /// Scans every ring of every cross-section in order, skipping root rings;
    /// a ring within the threshold or near it receives twigs if its chance
    /// draw succeeds, a ring beyond twice the threshold never does and costs
    /// no draw. Returns the rings that received twigs.
    pub fn generate<H: TwigGenerator>(&self, skeleton: &TreeStructure, host: &mut H, rng: &mut SmallRng) -> (r: Vec<TwigSite>)
        ensures
            sites_ok(skeleton, r@),
    {
        let mut sites: Vec<TwigSite> = Vec::new();
        let mut k: usize = 0;
        while k < skeleton.nodes.len()
            invariant
                k <= skeleton@.len(),
                sites_ok(skeleton, sites@),
                forall|j: int| 0 <= j < sites@.len() ==> (#[trigger] sites@[j]).ring.cross_section_index < k,
            decreases skeleton@.len() - k,
        {
            let rings = &skeleton.nodes[k].rings;
            let mut i: usize = 0;
            while i < rings.len()
                invariant
                    k < skeleton@.len(),
                    rings@ == skeleton@[k as int].rings@,
                    i <= rings@.len(),
                    sites_ok(skeleton, sites@),
                    forall|j: int| 0 <= j < sites@.len() ==> {
                        ||| (#[trigger] sites@[j]).ring.cross_section_index < k
                        ||| (sites@[j].ring.cross_section_index == k && sites@[j].ring.ring_index < i)
                    },
                decreases rings@.len() - i,
            {
                let is_root = match rings[i] {
                    RingType::Root { .. } => true,
                    _ => false,
                };
                if !is_root {
                    let gate = host.twig_gate(k, i);
                    let attached = if gate_rolls(gate) { host.twig_roll(rng, gate) } else { false };
                    if attached {
                        let count = self.placer.generate_twigs_at_position(host, rng, k, i);
                        let site = TwigSite { ring: RingId { cross_section_index: k, ring_index: i }, gate, count };
                        let ghost before = sites@;
                        sites.push(site);
                        proof {
                            assert forall|a: int, b: int| #![trigger sites@[a], sites@[b]] 0 <= a < b < sites@.len() implies site_before(sites@[a], sites@[b]) by {
                                if b == before.len() {
                                    assert(sites@[a] == before[a]);
                                } else {
                                    assert(sites@[a] == before[a] && sites@[b] == before[b]);
                                }
                            }
                            assert forall|j: int| #![trigger sites@[j]] 0 <= j < sites@.len() implies {
                                &&& sites@[j].ring.cross_section_index < skeleton@.len()
                                &&& sites@[j].ring.ring_index < skeleton@[sites@[j].ring.cross_section_index as int].rings@.len()
                                &&& !(skeleton@[sites@[j].ring.cross_section_index as int].rings@[sites@[j].ring.ring_index as int] is Root)
                                &&& sites@[j].gate != TwigGate::Beyond
                                &&& 1 <= sites@[j].count <= twig_cap()
                            } by {
                                if j < before.len() {
                                    assert(sites@[j] == before[j]);
                                }
                            }
                        }
                    }
                }
                i += 1;
            }
            k += 1;
        }
        sites
    }
}

} // verus!
