use crate::structure::{links_ok, BranchCrossSection, TreeStructure};
use vstd::prelude::*;

verus! {

/// One stitched band: the perimeter of `parent` joined to that of `child`
/// with `points` points on each side.
#[derive(Clone, Copy, Debug, PartialEq, Eq, Structural)]
pub struct MeshBand {
    pub parent: usize,
    pub child: usize,
    pub points: u32,
}

/// The integer part of the tree mesh: the bands in order, the triangle
/// indices and the depth of each vertex. Band `b` owns `2 * points` vertices,
/// parent and child point alternating, after those of the bands before it.
#[derive(Debug)]
pub struct MeshLayout {
    pub bands: Vec<MeshBand>,
    pub indices: Vec<u32>,
    pub depths: Vec<u32>,
}

/// Number of perimeter points of a cross-section: none without rings, else
/// the resolution.
pub open spec fn perimeter_len(n: BranchCrossSection, resolution: u32) -> int {
    if n.rings@.len() == 0 { 0 } else { resolution as int }
}

/// Points of the band between two cross-sections: the smaller perimeter.
pub open spec fn band_points(s: Seq<BranchCrossSection>, parent: int, child: int, resolution: u32) -> int {
    let a = perimeter_len(s[parent], resolution);
    let b = perimeter_len(s[child], resolution);
    if a <= b { a } else { b }
}

/// The parent-to-child edges of the first `k` cross-sections, parents in
/// index order and each parent's children in the order they were added.
pub open spec fn section_edges(s: Seq<BranchCrossSection>, k: nat) -> Seq<(int, int)>
    decreases k,
{
    if k == 0 {
        seq![]
    } else {
        section_edges(s, (k - 1) as nat) + s[k - 1].children@.map_values(|c: usize| ((k - 1) as int, c as int))
    }
}

pub open spec fn band_edges(bands: Seq<MeshBand>) -> Seq<(int, int)> {
    bands.map_values(|b: MeshBand| (b.parent as int, b.child as int))
}

/// The six indices of quad `i` of a band of `n` points whose vertices start
/// at `base`: triangles (p_i, c_i, c_next) and (p_i, c_next, p_next), where
/// next is i + 1 modulo n.
pub open spec fn quad(base: int, n: int, i: int) -> Seq<int> {
    let nx = if i + 1 == n { 0 } else { i + 1 };
    seq![base + 2 * i, base + 2 * i + 1, base + 2 * nx + 1, base + 2 * i, base + 2 * nx + 1, base + 2 * nx]
}

/// The first `i` quads of a band.
pub open spec fn quads(base: int, n: int, i: nat) -> Seq<int>
    decreases i,
{
    if i == 0 { seq![] } else { quads(base, n, (i - 1) as nat) + quad(base, n, i - 1) }
}

/// The depths of the first `i` vertex pairs of a band: parent, then child.
pub open spec fn depth_pairs(pd: int, cd: int, i: nat) -> Seq<int>
    decreases i,
{
    if i == 0 { seq![] } else { depth_pairs(pd, cd, (i - 1) as nat) + seq![pd, cd] }
}

/// Total points of the bands; the mesh has twice as many vertices.
pub open spec fn total_points(bands: Seq<MeshBand>) -> int
    decreases bands.len(),
{
    if bands.len() == 0 { 0 } else { total_points(bands.drop_last()) + bands.last().points }
}

/// The index buffer of the bands, each band after the ones before it.
pub open spec fn stitch(bands: Seq<MeshBand>) -> Seq<int>
    decreases bands.len(),
{
    if bands.len() == 0 {
        seq![]
    } else {
        let n = bands.last().points as int;
        stitch(bands.drop_last()) + quads(2 * total_points(bands.drop_last()), n, n as nat)
    }
}

/// The depth buffer of the bands.
pub open spec fn band_depths(s: Seq<BranchCrossSection>, bands: Seq<MeshBand>) -> Seq<int>
    decreases bands.len(),
{
    if bands.len() == 0 {
        seq![]
    } else {
        let b = bands.last();
        band_depths(s, bands.drop_last()) + depth_pairs(
            s[b.parent as int].depth as int,
            s[b.child as int].depth as int,
            b.points as nat,
        )
    }
}

pub open spec fn as_ints(v: Seq<u32>) -> Seq<int> {
    v.map_values(|x: u32| x as int)
}

/// Each cross-section but the base is the child of exactly one edge, the
/// one from its parent; the base is the child of none.
pub proof fn lemma_one_band_per_section(s: Seq<BranchCrossSection>)
    requires
        links_ok(s),
    ensures
        forall|c: int|
            #![trigger s[c].parent]
            1 <= c < s.len() ==> exists|b: int|
                0 <= b < section_edges(s, s.len()).len() && #[trigger] section_edges(s, s.len())[b] == (s[c].parent->0 as int, c),
        forall|a: int, b: int|
            0 <= a < b < section_edges(s, s.len()).len() ==> (#[trigger] section_edges(s, s.len())[a]).1 != (#[trigger] section_edges(
                s,
                s.len(),
            )[b]).1,
        forall|b: int| 0 <= b < section_edges(s, s.len()).len() ==> (#[trigger] section_edges(s, s.len())[b]).1 >= 1,
{
    lemma_edges_prefix(s, s.len());
}

proof fn lemma_edges_prefix(s: Seq<BranchCrossSection>, k: nat)
    requires
        links_ok(s),
        k <= s.len(),
    ensures
        forall|b: int| #![trigger section_edges(s, k)[b]] 0 <= b < section_edges(s, k).len() ==> {
            let e = section_edges(s, k)[b];
            &&& 0 <= e.0 < k
            &&& e.0 < e.1 < s.len()
            &&& s[e.1].parent == Some(e.0 as usize)
        },
        forall|a: int, b: int|
            0 <= a < b < section_edges(s, k).len() ==> (#[trigger] section_edges(s, k)[a]).1 != (#[trigger] section_edges(s, k)[b]).1,
        forall|c: int|
            #![trigger s[c].parent]
            1 <= c < s.len() && (s[c].parent->0 as int) < k ==> exists|b: int|
                0 <= b < section_edges(s, k).len() && #[trigger] section_edges(s, k)[b] == (s[c].parent->0 as int, c),
    decreases k,
{
    if k > 0 {
        let p = (k - 1) as int;
        lemma_edges_prefix(s, (k - 1) as nat);
        let old_e = section_edges(s, (k - 1) as nat);
        let kids = s[p].children@;
        let new_e = kids.map_values(|c: usize| (p, c as int));
        let e = section_edges(s, k);
        assert(e == old_e + new_e);
        assert forall|b: int| #![trigger e[b]] 0 <= b < e.len() implies {
            &&& 0 <= e[b].0 < k
            &&& e[b].0 < e[b].1 < s.len()
            &&& s[e[b].1].parent == Some(e[b].0 as usize)
        } by {
            if b < old_e.len() {
                assert(e[b] == old_e[b]);
            } else {
                let j = b - old_e.len();
                assert(e[b] == new_e[j]);
                assert(kids[j] == s[p].children@[j]);
            }
        }
        assert forall|a: int, b: int| 0 <= a < b < e.len() implies (#[trigger] e[a]).1 != (#[trigger] e[b]).1 by {
            if b < old_e.len() {
                assert(e[a] == old_e[a] && e[b] == old_e[b]);
            } else if a < old_e.len() {
                let j = b - old_e.len();
                assert(e[a] == old_e[a]);
                assert(e[b] == new_e[j]);
                assert(s[p].children@[j] == kids[j]);
                assert(s[old_e[a].1].parent == Some(old_e[a].0 as usize));
            } else {
                let i = a - old_e.len();
                let j = b - old_e.len();
                assert(e[a] == new_e[i]);
                assert(e[b] == new_e[j]);
                assert(s[p].children@.no_duplicates());
            }
        }
        assert forall|c: int| #![trigger s[c].parent] 1 <= c < s.len() && (s[c].parent->0 as int) < k implies exists|b: int|
            0 <= b < e.len() && #[trigger] e[b] == (s[c].parent->0 as int, c) by {
            if (s[c].parent->0 as int) < k - 1 {
                let b = choose|b: int| 0 <= b < old_e.len() && #[trigger] old_e[b] == (s[c].parent->0 as int, c);
                assert(e[b] == old_e[b]);
            } else {
                assert(s[c].parent.is_some());
                assert(kids.contains(c as usize));
                let j = choose|j: int| 0 <= j < kids.len() && kids[j] == c as usize;
                assert(e[old_e.len() + j] == new_e[j]);
                assert(new_e[j] == (p, c));
            }
        }
    }
}

/// Every index of the buffer points at a vertex of the mesh, and the buffer
/// holds whole triangles: six indices per band point.
pub proof fn lemma_stitch_bounds(bands: Seq<MeshBand>)
    ensures
        stitch(bands).len() == 6 * total_points(bands),
        forall|t: int| 0 <= t < stitch(bands).len() ==> 0 <= #[trigger] stitch(bands)[t] < 2 * total_points(bands),
    decreases bands.len(),
{
    if bands.len() > 0 {
        let rest = bands.drop_last();
        let n = bands.last().points as int;
        let base = 2 * total_points(rest);
        lemma_stitch_bounds(rest);
        lemma_total_nonneg(rest);
        lemma_quads_bounds(base, n, n as nat);
        let a = stitch(rest);
        let q = quads(base, n, n as nat);
        assert(stitch(bands) == a + q);
        assert forall|t: int| 0 <= t < stitch(bands).len() implies 0 <= #[trigger] stitch(bands)[t] < 2 * total_points(bands) by {
            if t < a.len() {
                assert(stitch(bands)[t] == a[t]);
            } else {
                assert(stitch(bands)[t] == q[t - a.len()]);
            }
        }
    }
}

proof fn lemma_total_nonneg(bands: Seq<MeshBand>)
    ensures
        total_points(bands) >= 0,
    decreases bands.len(),
{
    if bands.len() > 0 {
        lemma_total_nonneg(bands.drop_last());
    }
}

proof fn lemma_quads_bounds(base: int, n: int, i: nat)
    requires
        i <= n,
    ensures
        quads(base, n, i).len() == 6 * i,
        forall|t: int| 0 <= t < quads(base, n, i).len() ==> base <= #[trigger] quads(base, n, i)[t] < base + 2 * n,
    decreases i,
{
    if i > 0 {
        lemma_quads_bounds(base, n, (i - 1) as nat);
        let a = quads(base, n, (i - 1) as nat);
        let q = quad(base, n, i - 1);
        assert forall|t: int| 0 <= t < quads(base, n, i).len() implies base <= #[trigger] quads(base, n, i)[t] < base + 2 * n by {
            if t < a.len() {
                assert(quads(base, n, i)[t] == a[t]);
            } else {
                assert(quads(base, n, i)[t] == q[t - a.len()]);
            }
        }
    }
}

proof fn lemma_depth_pairs_len(pd: int, cd: int, i: nat)
    ensures
        depth_pairs(pd, cd, i).len() == 2 * i,
    decreases i,
{
    if i > 0 {
        lemma_depth_pairs_len(pd, cd, (i - 1) as nat);
    }
}

/// The depth buffer has one entry per vertex.
pub proof fn lemma_depths_len(s: Seq<BranchCrossSection>, bands: Seq<MeshBand>)
    ensures
        band_depths(s, bands).len() == 2 * total_points(bands),
    decreases bands.len(),
{
    if bands.len() > 0 {
        let b = bands.last();
        lemma_depths_len(s, bands.drop_last());
        lemma_depth_pairs_len(s[b.parent as int].depth as int, s[b.child as int].depth as int, b.points as nat);
    }
}

proof fn lemma_total_prefix(bands: Seq<MeshBand>, i: int)
    requires
        0 <= i <= bands.len(),
    ensures
        total_points(bands.subrange(0, i)) <= total_points(bands),
    decreases bands.len(),
{
    if i < bands.len() {
        let rest = bands.drop_last();
        assert(rest.subrange(0, i) =~= bands.subrange(0, i));
        lemma_total_prefix(rest, i);
    } else {
        assert(bands.subrange(0, i) =~= bands);
    }
}


/// Number of perimeter points of a cross-section.
fn perimeter_points(n: &BranchCrossSection, resolution: u32) -> (r: u32)
    ensures
        r == perimeter_len(*n, resolution),
{
    if n.rings.len() == 0 { 0 } else { resolution }
}

impl TreeStructure {
    /// The bands of the mesh: one per parent-to-child edge, parents in index
    /// order and each parent's children in the order they were added.
    pub fn mesh_bands(&self, resolution: u32) -> (r: Vec<MeshBand>)
        requires
            self.wf(),
        ensures
            band_edges(r@) == section_edges(self@, self@.len()),
            forall|b: int| #![trigger r@[b]] 0 <= b < r@.len() ==> r@[b].points == band_points(self@, r@[b].parent as int, r@[b].child as int, resolution),
    {
        let ghost s = self@;
        let mut bands: Vec<MeshBand> = Vec::new();
        let mut k: usize = 0;
        while k < self.nodes.len()
            invariant
                self.wf(),
                s == self@,
                k <= s.len(),
                band_edges(bands@) == section_edges(s, k as nat),
                forall|b: int| #![trigger bands@[b]] 0 <= b < bands@.len() ==> bands@[b].points == band_points(s, bands@[b].parent as int, bands@[b].child as int, resolution),
            decreases s.len() - k,
        {
            let kids = &self.nodes[k].children;
            let here = perimeter_points(&self.nodes[k], resolution);
            let ghost before = bands@;
            let mut j: usize = 0;
            while j < kids.len()
                invariant
                    self.wf(),
                    s == self@,
                    k < s.len(),
                    kids@ == s[k as int].children@,
                    here == perimeter_len(s[k as int], resolution),
                    j <= kids@.len(),
                    band_edges(bands@) == section_edges(s, k as nat) + kids@.subrange(0, j as int).map_values(|c: usize| (k as int, c as int)),
                    forall|b: int| #![trigger bands@[b]] 0 <= b < bands@.len() ==> bands@[b].points == band_points(s, bands@[b].parent as int, bands@[b].child as int, resolution),
                decreases kids@.len() - j,
            {
                let c = kids[j];
                assert(s[k as int].children@[j as int] == c);
                let there = perimeter_points(&self.nodes[c], resolution);
                let points = if here <= there { here } else { there };
                let ghost prev = bands@;
                bands.push(MeshBand { parent: k, child: c, points });
                j += 1;
                proof {
                    assert(band_edges(bands@) =~= band_edges(prev).push((k as int, c as int)));
                    assert(kids@.subrange(0, j as int).map_values(|c: usize| (k as int, c as int)) =~= kids@.subrange(0, (j - 1) as int).map_values(|c: usize| (k as int, c as int)).push((k as int, c as int)));
                    assert(band_edges(bands@) =~= section_edges(s, k as nat) + kids@.subrange(0, j as int).map_values(|c: usize| (k as int, c as int)));
                    assert forall|b: int| #![trigger bands@[b]] 0 <= b < bands@.len() implies bands@[b].points == band_points(s, bands@[b].parent as int, bands@[b].child as int, resolution) by {
                        if b < prev.len() {
                            assert(bands@[b] == prev[b]);
                        }
                    }
                }
            }
            proof {
                assert(kids@.subrange(0, j as int) =~= kids@);
                assert(section_edges(s, (k + 1) as nat) == section_edges(s, k as nat) + s[k as int].children@.map_values(|c: usize| (k as int, c as int)));
            }
            k += 1;
        }
        bands
    }

    /// The integer part of the mesh at a resolution: the bands, a triangle
    /// index buffer and a depth per vertex. `None` exactly when the mesh
    /// would have more vertices than a `u32` index can address.
    pub fn generate_mesh(&self, resolution: u32) -> (r: Option<MeshLayout>)
        requires
            self.wf(),
        ensures
            ({
                let bands = r->0.bands@;
                r is Some ==> {
                    &&& band_edges(bands) == section_edges(self@, self@.len())
                    &&& forall|b: int| #![trigger bands[b]] 0 <= b < bands.len() ==> bands[b].points == band_points(self@, bands[b].parent as int, bands[b].child as int, resolution)
                    &&& as_ints(r->0.indices@) == stitch(bands)
                    &&& as_ints(r->0.depths@) == band_depths(self@, bands)
                    &&& 2 * total_points(bands) <= u32::MAX
                }
            }),
            r is None ==> exists|bands: Seq<MeshBand>| {
                &&& band_edges(bands) == section_edges(self@, self@.len())
                &&& forall|b: int| #![trigger bands[b]] 0 <= b < bands.len() ==> bands[b].points == band_points(self@, bands[b].parent as int, bands[b].child as int, resolution)
                &&& 2 * total_points(bands) > u32::MAX
            },
    {
        let bands = self.mesh_bands(resolution);
        let ghost bs = bands@;
        let mut acc: u64 = 0;
        let mut b: usize = 0;
        while b < bands.len()
            invariant
                bs == bands@,
                b <= bs.len(),
                band_edges(bs) == section_edges(self@, self@.len()),
                forall|x: int| #![trigger bs[x]] 0 <= x < bs.len() ==> bs[x].points == band_points(self@, bs[x].parent as int, bs[x].child as int, resolution),
                acc == 2 * total_points(bs.subrange(0, b as int)),
                acc <= u32::MAX,
            decreases bs.len() - b,
        {
            assert(bs.subrange(0, (b + 1) as int).drop_last() =~= bs.subrange(0, b as int));
            let next = acc + 2 * (bands[b].points as u64);
            if next > u32::MAX as u64 {
                proof {
                    lemma_total_prefix(bs, (b + 1) as int);
                    assert(total_points(bs.subrange(0, (b + 1) as int)) == total_points(bs.subrange(0, b as int)) + bs[b as int].points);
                    assert(2 * total_points(bs) > u32::MAX);
                    assert(band_edges(bs) == section_edges(self@, self@.len()));
                }
                return None;
            }
            acc = next;
            b += 1;
        }
        assert(bs.subrange(0, b as int) =~= bs);
        proof {
            lemma_edges_prefix(self@, self@.len());
            assert forall|x: int| #![trigger bs[x]] 0 <= x < bs.len() implies bs[x].parent < self@.len() && bs[x].child < self@.len() by {
                assert(band_edges(bs)[x] == (bs[x].parent as int, bs[x].child as int));
                assert(section_edges(self@, self@.len())[x] == band_edges(bs)[x]);
            }
            assert(bs.subrange(0, 0) =~= Seq::<MeshBand>::empty());
        }
        let mut indices: Vec<u32> = Vec::new();
        let mut depths: Vec<u32> = Vec::new();
        let mut base: u64 = 0;
        let mut b: usize = 0;
        while b < bands.len()
            invariant
                self.wf(),
                bs == bands@,
                b <= bs.len(),
                band_edges(bs) == section_edges(self@, self@.len()),
                forall|x: int| #![trigger bs[x]] 0 <= x < bs.len() ==> bs[x].points == band_points(self@, bs[x].parent as int, bs[x].child as int, resolution),
                2 * total_points(bs) <= u32::MAX,
                forall|x: int| #![trigger bs[x]] 0 <= x < bs.len() ==> bs[x].parent < self@.len() && bs[x].child < self@.len(),
                base == 2 * total_points(bs.subrange(0, b as int)),
                as_ints(indices@) == stitch(bs.subrange(0, b as int)),
                as_ints(depths@) == band_depths(self@, bs.subrange(0, b as int)),
            decreases bs.len() - b,
        {
            let band = bands[b];
            let n = band.points;
            let pd = self.nodes[band.parent].depth;
            let cd = self.nodes[band.child].depth;
            let ghost pre = bs.subrange(0, b as int);
            let ghost idx0 = as_ints(indices@);
            let ghost dep0 = as_ints(depths@);
            proof {
                assert(bs.subrange(0, (b + 1) as int).drop_last() =~= pre);
                assert(bs.subrange(0, (b + 1) as int).last() == band);
                lemma_total_prefix(bs, (b + 1) as int);
            }
            let mut i: u32 = 0;
            while i < n
                invariant
                    i <= n,
                    base + 2 * n <= u32::MAX,
                    as_ints(indices@) == idx0 + quads(base as int, n as int, i as nat),
                    as_ints(depths@) == dep0 + depth_pairs(pd as int, cd as int, i as nat),
                decreases n - i,
            {
                let nx: u32 = if i + 1 == n { 0 } else { i + 1 };
                let p_here = (base + 2 * (i as u64)) as u32;
                let c_here = (base + 2 * (i as u64) + 1) as u32;
                let c_next = (base + 2 * (nx as u64) + 1) as u32;
                let p_next = (base + 2 * (nx as u64)) as u32;
                let ghost ib = as_ints(indices@);
                let ghost db = as_ints(depths@);
                indices.push(p_here);
                indices.push(c_here);
                indices.push(c_next);
                indices.push(p_here);
                indices.push(c_next);
                indices.push(p_next);
                depths.push(pd);
                depths.push(cd);
                proof {
                    assert(as_ints(indices@) =~= ib + quad(base as int, n as int, i as int));
                    assert(as_ints(depths@) =~= db + seq![pd as int, cd as int]);
                    assert(quads(base as int, n as int, (i + 1) as nat) == quads(base as int, n as int, i as nat) + quad(base as int, n as int, i as int));
                    assert(depth_pairs(pd as int, cd as int, (i + 1) as nat) == depth_pairs(pd as int, cd as int, i as nat) + seq![pd as int, cd as int]);
                    assert(as_ints(indices@) =~= idx0 + quads(base as int, n as int, (i + 1) as nat));
                    assert(as_ints(depths@) =~= dep0 + depth_pairs(pd as int, cd as int, (i + 1) as nat));
                }
                i += 1;
            }
            base = base + 2 * (n as u64);
            b += 1;
        }
        assert(bs.subrange(0, b as int) =~= bs);
        Some(MeshLayout { bands, indices, depths })
    }
}


/// The mesh is connected as a tree of tubes: each cross-section but the
/// base is stitched to its parent by exactly one band and the base by none;
/// the index buffer holds whole triangles whose indices all name a vertex,
/// and there is one depth per vertex.
pub proof fn lemma_mesh_connected(s: Seq<BranchCrossSection>, bands: Seq<MeshBand>)
    requires
        links_ok(s),
        band_edges(bands) == section_edges(s, s.len()),
    ensures
        forall|c: int|
            #![trigger s[c].parent]
            1 <= c < s.len() ==> exists|b: int|
                0 <= b < bands.len() && (#[trigger] bands[b]).child == c && bands[b].parent == s[c].parent->0,
        forall|a: int, b: int|
            0 <= a < b < bands.len() ==> (#[trigger] bands[a]).child != (#[trigger] bands[b]).child,
        forall|b: int| 0 <= b < bands.len() ==> (#[trigger] bands[b]).child != 0,
        stitch(bands).len() % 3 == 0,
        forall|t: int| 0 <= t < stitch(bands).len() ==> 0 <= #[trigger] stitch(bands)[t] < 2 * total_points(bands),
        band_depths(s, bands).len() == 2 * total_points(bands),
{
    lemma_one_band_per_section(s);
    lemma_stitch_bounds(bands);
    lemma_depths_len(s, bands);
    let e = section_edges(s, s.len());
    assert forall|b: int| 0 <= b < bands.len() implies e[b] == (bands[b].parent as int, bands[b].child as int) by {
        assert(band_edges(bands)[b] == (bands[b].parent as int, bands[b].child as int));
    }
    assert forall|c: int|
        #![trigger s[c].parent]
        1 <= c < s.len() implies exists|b: int|
            0 <= b < bands.len() && (#[trigger] bands[b]).child == c && bands[b].parent == s[c].parent->0 by {
        let b = choose|b: int| 0 <= b < e.len() && #[trigger] e[b] == (s[c].parent->0 as int, c);
        assert(e[b] == (bands[b].parent as int, bands[b].child as int));
    }
    assert forall|a: int, b: int| 0 <= a < b < bands.len() implies (#[trigger] bands[a]).child != (#[trigger] bands[b]).child by {
        assert(e[a].1 != e[b].1);
    }
    assert forall|b: int| 0 <= b < bands.len() implies (#[trigger] bands[b]).child != 0 by {
        assert(e[b].1 >= 1);
    }
}


/// The mesh layout is a function of the arena and the resolution: two
/// layouts that both meet the contract of `generate_mesh` for them are equal,
/// band for band, index for index and depth for depth.
pub proof fn lemma_mesh_layout_determined(s: Seq<BranchCrossSection>, resolution: u32, a: MeshLayout, b: MeshLayout)
    requires
        band_edges(a.bands@) == section_edges(s, s.len()),
        band_edges(b.bands@) == section_edges(s, s.len()),
        forall|x: int| #![trigger a.bands@[x]] 0 <= x < a.bands@.len() ==> a.bands@[x].points == band_points(s, a.bands@[x].parent as int, a.bands@[x].child as int, resolution),
        forall|x: int| #![trigger b.bands@[x]] 0 <= x < b.bands@.len() ==> b.bands@[x].points == band_points(s, b.bands@[x].parent as int, b.bands@[x].child as int, resolution),
        as_ints(a.indices@) == stitch(a.bands@),
        as_ints(b.indices@) == stitch(b.bands@),
        as_ints(a.depths@) == band_depths(s, a.bands@),
        as_ints(b.depths@) == band_depths(s, b.bands@),
    ensures
        a.bands@ == b.bands@,
        a.indices@ == b.indices@,
        a.depths@ == b.depths@,
{
    let (x, y) = (a.bands@, b.bands@);
    assert(x.len() == band_edges(x).len());
    assert(y.len() == band_edges(y).len());
    assert forall|i: int| 0 <= i < x.len() implies x[i] == y[i] by {
        assert(band_edges(x)[i] == band_edges(y)[i]);
        assert(x[i].points == y[i].points);
    }
    assert(x =~= y);
    assert(as_ints(a.indices@).len() == a.indices@.len());
    assert(as_ints(b.indices@).len() == b.indices@.len());
    assert forall|i: int| 0 <= i < a.indices@.len() implies a.indices@[i] == b.indices@[i] by {
        assert(as_ints(a.indices@)[i] == as_ints(b.indices@)[i]);
    }
    assert(a.indices@ =~= b.indices@);
    assert(as_ints(a.depths@).len() == a.depths@.len());
    assert(as_ints(b.depths@).len() == b.depths@.len());
    assert forall|i: int| 0 <= i < a.depths@.len() implies a.depths@[i] == b.depths@[i] by {
        assert(as_ints(a.depths@)[i] == as_ints(b.depths@)[i]);
    }
    assert(a.depths@ =~= b.depths@);
}

} // verus!
