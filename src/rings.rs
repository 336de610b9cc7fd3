use crate::structure::RingType;
use vstd::prelude::*;

verus! {

/// Builds the ring lists of new cross-sections.
pub struct RingGenerator;

/// How a child ring is tapered from its parent ring at a branch point, on top
/// of the segment taper: a continuing trunk ring is tapered by 0.95, the copy
/// of a single ring that becomes the branch by 0.8, and a lobe that leaves as
/// the branch by nothing more.
#[derive(Clone, Copy, Debug, PartialEq, Eq, Structural)]
pub enum ShareTaper {
    Continuation,
    ThinnerCopy,
    Lobe,
}

/// One child ring at a branch point: the index of its parent ring in the
/// parent cross-section, and how it is tapered.
#[derive(Clone, Copy, Debug, PartialEq, Eq, Structural)]
pub struct RingShare {
    pub parent_ring: usize,
    pub taper: ShareTaper,
}

/// The rings of the two cross-sections that a branch point creates.
#[derive(Debug)]
pub struct RingSplit {
    pub trunk: Vec<RingShare>,
    pub branch: Vec<RingShare>,
}

/// The ring types of the trunk base: one main trunk ring at the centre, then
/// the lobes around it.
pub open spec fn trunk_types_spec(count: nat) -> Seq<RingType> {
    Seq::new(count, |i: int| if i == 0 { RingType::MainTrunk } else { RingType::SideBranch })
}

/// The split of a cross-section of `n` rings at a branch point. A single ring
/// continues as trunk and a thinner copy of it becomes the branch. Of several
/// rings, the last one alone becomes the branch and the others continue.
pub open spec fn split_spec(n: nat) -> (Seq<RingShare>, Seq<RingShare>) {
    if n == 1 {
        (
            seq![RingShare { parent_ring: 0, taper: ShareTaper::Continuation }],
            seq![RingShare { parent_ring: 0, taper: ShareTaper::ThinnerCopy }],
        )
    } else {
        (
            Seq::new((n - 1) as nat, |i: int| RingShare { parent_ring: i as usize, taper: ShareTaper::Continuation }),
            seq![RingShare { parent_ring: (n - 1) as usize, taper: ShareTaper::Lobe }],
        )
    }
}

/// The ring types that a list of shares gives, read from the parent's types.
pub open spec fn shared_types(parent: Seq<RingType>, shares: Seq<RingShare>) -> Seq<RingType> {
    Seq::new(shares.len(), |i: int| parent[shares[i].parent_ring as int])
}

impl RingGenerator {
    pub fn new() -> (r: Self)
        ensures
            r == RingGenerator,
    {
        RingGenerator
    }

    /// Ring types of the trunk base for `count` rings (at least one).
    pub fn trunk_ring_types(&self, count: usize) -> (r: Vec<RingType>)
        requires
            count >= 1,
        ensures
            r@ == trunk_types_spec(count as nat),
    {
        let mut out: Vec<RingType> = Vec::new();
        out.push(RingType::MainTrunk);
        let mut i: usize = 1;
        while i < count
            invariant
                1 <= i <= count,
                out@ == trunk_types_spec(i as nat),
            decreases count - i,
        {
            out.push(RingType::SideBranch);
            i += 1;
            assert(out@ =~= trunk_types_spec(i as nat));
        }
        out
    }

    /// How the `n` rings of a cross-section are shared between the trunk
    /// continuation and the branch at a branch point.
    pub fn split_for_branch(&self, n: usize) -> (r: RingSplit)
        requires
            n >= 1,
        ensures
            r.trunk@ == split_spec(n as nat).0,
            r.branch@ == split_spec(n as nat).1,
    {
        let mut trunk: Vec<RingShare> = Vec::new();
        let mut branch: Vec<RingShare> = Vec::new();
        if n == 1 {
            trunk.push(RingShare { parent_ring: 0, taper: ShareTaper::Continuation });
            branch.push(RingShare { parent_ring: 0, taper: ShareTaper::ThinnerCopy });
            assert(trunk@ =~= split_spec(1).0);
            assert(branch@ =~= split_spec(1).1);
        } else {
            let last = n - 1;
            let mut i: usize = 0;
            while i < last
                invariant
                    i <= last,
                    last == n - 1,
                    trunk@ == Seq::new(i as nat, |k: int| RingShare { parent_ring: k as usize, taper: ShareTaper::Continuation }),
                decreases last - i,
            {
                trunk.push(RingShare { parent_ring: i, taper: ShareTaper::Continuation });
                i += 1;
                assert(trunk@ =~= Seq::new(i as nat, |k: int| RingShare { parent_ring: k as usize, taper: ShareTaper::Continuation }));
            }
            branch.push(RingShare { parent_ring: last, taper: ShareTaper::Lobe });
            assert(branch@ =~= split_spec(n as nat).1);
        }
        RingSplit { trunk, branch }
    }

    /// The ring types of a child cross-section made of `shares` of a parent
    /// whose ring types are `parent`.
    pub fn shared_ring_types(&self, parent: &Vec<RingType>, shares: &Vec<RingShare>) -> (r: Vec<RingType>)
        requires
            forall|i: int| 0 <= i < shares@.len() ==> (#[trigger] shares@[i]).parent_ring < parent@.len(),
        ensures
            r@ == shared_types(parent@, shares@),
    {
        let mut out: Vec<RingType> = Vec::new();
        let mut i: usize = 0;
        while i < shares.len()
            invariant
                i <= shares@.len(),
                forall|k: int| 0 <= k < shares@.len() ==> (#[trigger] shares@[k]).parent_ring < parent@.len(),
                out@ == shared_types(parent@, shares@.subrange(0, i as int)),
            decreases shares@.len() - i,
        {
            out.push(parent[shares[i].parent_ring]);
            i += 1;
            assert(out@ =~= shared_types(parent@, shares@.subrange(0, i as int)));
        }
        assert(shares@.subrange(0, i as int) =~= shares@);
        out
    }
}

} // verus!
