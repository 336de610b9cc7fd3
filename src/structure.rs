use vstd::prelude::*;

verus! {

/// Kind of root that a root ring stands for.
#[derive(Clone, Copy, Debug, PartialEq, Eq, Structural)]
pub enum RootType {
    TapRoot,
    LateralRoot,
    FeederRoot,
}

/// What a component ring of a cross-section represents.
#[derive(Clone, Copy, Debug, PartialEq, Eq, Structural)]
pub enum RingType {
    MainTrunk,
    SideBranch,
    Root { root_type: RootType },
}

/// Kind of twig instance, chosen by the radius of the hosting ring.
#[derive(Clone, Copy, Debug, PartialEq, Eq, Structural)]
pub enum TwigType {
    LeafCluster,
    SmallBranch,
    BranchTip,
}

/// Address of one ring: the cross-section, then the ring within it.
#[derive(Clone, Copy, Debug, PartialEq, Eq, Structural)]
pub struct RingId {
    pub cross_section_index: usize,
    pub ring_index: usize,
}

/// The discrete part of one cross-section: its branching depth, the types of
/// its rings in order, and its links in the arena.
#[derive(Debug)]
pub struct BranchCrossSection {
    pub depth: u32,
    pub rings: Vec<RingType>,
    pub parent: Option<usize>,
    pub children: Vec<usize>,
}

/// Append-only arena of cross-sections. Index 0 is the base of the trunk;
/// every other cross-section has one parent with a smaller index.
#[derive(Debug)]
pub struct TreeStructure {
    pub nodes: Vec<BranchCrossSection>,
}

/// No ring of the list is a root ring.
pub open spec fn above_ground(rings: Seq<RingType>) -> bool {
    forall|i: int| 0 <= i < rings.len() ==> !(#[trigger] rings[i] is Root)
}

/// The links of the arena are consistent: parents come before their
/// children, each child lists its parent and each parent lists each child
/// once.
pub open spec fn links_ok(s: Seq<BranchCrossSection>) -> bool {
    &&& 1 <= s.len() <= usize::MAX
    &&& s[0].parent is None
    &&& forall|k: int|
        #![trigger s[k].parent]
        1 <= k < s.len() ==> {
            &&& s[k].parent is Some
            &&& (s[k].parent->0 as int) < k
            &&& s[s[k].parent->0 as int].children@.contains(k as usize)
        }
    &&& forall|k: int, j: int|
        #![trigger s[k].children@[j]]
        0 <= k < s.len() && 0 <= j < s[k].children@.len() ==> {
            &&& k < s[k].children@[j] < s.len()
            &&& s[s[k].children@[j] as int].parent == Some(k as usize)
        }
    &&& forall|k: int| #![trigger s[k].children] 0 <= k < s.len() ==> s[k].children@.no_duplicates()
}

/// `t` is `s` with one more node appended as the last child of `parent`.
pub open spec fn appended(s: Seq<BranchCrossSection>, t: Seq<BranchCrossSection>, parent: int, depth: u32, rings: Seq<RingType>) -> bool {
    &&& t.len() == s.len() + 1
    &&& forall|k: int| 0 <= k < s.len() && k != parent ==> #[trigger] t[k] == s[k]
    &&& t[parent].depth == s[parent].depth
    &&& t[parent].rings@ == s[parent].rings@
    &&& t[parent].parent == s[parent].parent
    &&& t[parent].children@ == s[parent].children@.push(s.len() as usize)
    &&& t[s.len() as int].depth == depth
    &&& t[s.len() as int].rings@ == rings
    &&& t[s.len() as int].parent == Some(parent as usize)
    &&& t[s.len() as int].children@.len() == 0
}

impl TreeStructure {
    pub open spec fn view(&self) -> Seq<BranchCrossSection> {
        self.nodes@
    }

    pub open spec fn wf(&self) -> bool {
        links_ok(self.nodes@)
    }

    /// A skeleton that holds only the base cross-section, at depth 0.
    pub fn new(rings: Vec<RingType>) -> (r: TreeStructure)
        ensures
            r.wf(),
            r@.len() == 1,
            r@[0].depth == 0,
            r@[0].rings@ == rings@,
            r@[0].children@.len() == 0,
    {
        let base = BranchCrossSection { depth: 0, rings, parent: None, children: Vec::new() };
        let mut nodes = Vec::new();
        nodes.push(base);
        assert(nodes@.len() == nodes.len());
        TreeStructure { nodes }
    }

    pub fn len(&self) -> (r: usize)
        ensures
            r == self@.len(),
    {
        self.nodes.len()
    }

    /// Appends a cross-section as the last child of `parent` and returns its
    /// index, which is greater than every index already in the arena.
    pub fn add_cross_section(&mut self, parent: usize, depth: u32, rings: Vec<RingType>) -> (r: usize)
        requires
            old(self).wf(),
            parent < old(self)@.len(),
        ensures
            final(self).wf(),
            r == old(self)@.len(),
            appended(old(self)@, final(self)@, parent as int, depth, rings@),
    {
        let ghost s = self.nodes@;
        let new_idx = self.nodes.len();
        let mut node = self.nodes[parent].clone_links();
        node.children.push(new_idx);
        self.nodes.set(parent, node);
        let child = BranchCrossSection { depth, rings, parent: Some(parent), children: Vec::new() };
        self.nodes.push(child);
        proof {
            let t = self.nodes@;
            assert(t.len() == self.nodes.len());
            assert forall|k: int|
                #![trigger t[k].parent]
                1 <= k < t.len() implies {
                    &&& t[k].parent is Some
                    &&& (t[k].parent->0 as int) < k
                    &&& t[t[k].parent->0 as int].children@.contains(k as usize)
                } by {
                if k < s.len() {
                    assert(s[k].parent == t[k].parent);
                    let p = s[k].parent->0 as int;
                    if p == parent {
                        let j = choose|j: int| 0 <= j < s[p].children@.len() && s[p].children@[j] == k as usize;
                        assert(t[p].children@[j] == k as usize);
                    }
                } else {
                    assert(t[parent as int].children@.last() == new_idx);
                }
            }
            assert forall|k: int, j: int|
                #![trigger t[k].children@[j]]
                0 <= k < t.len() && 0 <= j < t[k].children@.len() implies {
                    &&& k < t[k].children@[j] < t.len()
                    &&& t[t[k].children@[j] as int].parent == Some(k as usize)
                } by {
                if k == parent && j == s[k].children@.len() {
                } else {
                    assert(t[k].children@[j] == s[k].children@[j]);
                }
            }
            assert forall|k: int| #![trigger t[k].children] 0 <= k < t.len() implies t[k].children@.no_duplicates() by {
                if k == parent {
                    assert forall|a: int, b: int| 0 <= a < b < t[k].children@.len() implies t[k].children@[a] != t[k].children@[b] by {
                        if b == s[k].children@.len() {
                            assert(s[k].children@[a] < s.len());
                        } else {
                            assert(s[k].children@.no_duplicates());
                        }
                    }
                }
            }
        }
        new_idx
    }
}

impl BranchCrossSection {
    /// A copy of the node with the same depth, ring types and links.
    pub fn clone_links(&self) -> (r: BranchCrossSection)
        ensures
            r.depth == self.depth,
            r.rings@ == self.rings@,
            r.parent == self.parent,
            r.children@ == self.children@,
    {
        BranchCrossSection {
            depth: self.depth,
            rings: copy_rings(&self.rings),
            parent: self.parent,
            children: copy_indices(&self.children),
        }
    }
}

/// An element-wise copy of a list of ring types.
pub fn copy_rings(v: &Vec<RingType>) -> (r: Vec<RingType>)
    ensures
        r@ == v@,
{
    let mut out: Vec<RingType> = Vec::new();
    let mut i: usize = 0;
    while i < v.len()
        invariant
            i <= v@.len(),
            out@ == v@.subrange(0, i as int),
        decreases v@.len() - i,
    {
        out.push(v[i]);
        i += 1;
        assert(out@ =~= v@.subrange(0, i as int));
    }
    assert(out@ =~= v@);
    out
}

/// An element-wise copy of a list of indices.
pub fn copy_indices(v: &Vec<usize>) -> (r: Vec<usize>)
    ensures
        r@ == v@,
{
    let mut out: Vec<usize> = Vec::new();
    let mut i: usize = 0;
    while i < v.len()
        invariant
            i <= v@.len(),
            out@ == v@.subrange(0, i as int),
        decreases v@.len() - i,
    {
        out.push(v[i]);
        i += 1;
        assert(out@ =~= v@.subrange(0, i as int));
    }
    assert(out@ =~= v@);
    out
}

} // verus!
