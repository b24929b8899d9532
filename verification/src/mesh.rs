//! Index buffers of the editor's triangle meshes.
//!
//! Every mesh the editor draws is a triangle list: a vertex buffer and a list
//! of vertex indices, three per triangle. The vertices are floating-point
//! positions laid out by the application; their order is fixed, and the
//! index lists here are what that order asks for.

use vstd::prelude::*;

verus! {

/// An index buffer as plain integers.
pub open spec fn as_ints(v: Seq<u32>) -> Seq<int> {
    v.map_values(|x: u32| x as int)
}

/// The two triangles of a quad whose corners are `b, b+1, b+2, b+3` in turn.
pub open spec fn quad_entries(b: int) -> Seq<int> {
    seq![b, b + 1, b + 2, b, b + 2, b + 3]
}

/// `count` quads of four vertices each, one after another.
pub open spec fn quad_list(count: nat) -> Seq<int>
    decreases count,
{
    if count == 0 {
        Seq::empty()
    } else {
        quad_list((count - 1) as nat) + quad_entries(4 * (count - 1))
    }
}

/// The ring between vertex pairs `b, b+1` and `b+2, b+3` (inner, outer).
pub open spec fn ring_entries(b: int) -> Seq<int> {
    seq![b, b + 1, b + 2, b + 1, b + 3, b + 2]
}

/// A ring of `segments` segments over the vertex pairs `2i, 2i+1`.
pub open spec fn ring_list(segments: nat) -> Seq<int>
    decreases segments,
{
    if segments == 0 {
        Seq::empty()
    } else {
        ring_list((segments - 1) as nat) + ring_entries(2 * (segments - 1))
    }
}

/// A fan of `count` triangles around `center` over the rim vertices
/// `first, first+1, ..., first+count`.
pub open spec fn fan_list(center: int, first: int, count: nat) -> Seq<int>
    decreases count,
{
    if count == 0 {
        Seq::empty()
    } else {
        fan_list(center, first, (count - 1) as nat) + seq![
            center,
            first + count - 1,
            first + count,
        ]
    }
}

/// The strip between two rails of `segments + 1` vertices each, laid out as
/// pairs `2i` (left), `2i+1` (right).
pub open spec fn strip_list(segments: nat) -> Seq<int>
    decreases segments,
{
    if segments == 0 {
        Seq::empty()
    } else {
        let l = 2 * (segments - 1);
        strip_list((segments - 1) as nat) + seq![l, l + 2, l + 1, l + 1, l + 2, l + 3]
    }
}

/// The band around a closed polygon of `count` vertices, whose inner and
/// outer offsets are the vertex pairs `base + 2i, base + 2i + 1`: the first
/// `upto` sides, each joining vertex `i` to the next one around.
pub open spec fn band_list(base: int, count: int, upto: nat) -> Seq<int>
    decreases upto,
{
    if upto == 0 {
        Seq::empty()
    } else {
        let i = upto - 1;
        let next = if i + 1 == count {
            0
        } else {
            i + 1
        };
        band_list(base, count, (upto - 1) as nat) + seq![
            base + 2 * i,
            base + 2 * i + 1,
            base + 2 * next + 1,
            base + 2 * i,
            base + 2 * next + 1,
            base + 2 * next,
        ]
    }
}

/// The indices of one quad: two triangles over four corners.
pub fn quad_indices() -> (r: Vec<u32>)
    ensures
        as_ints(r@) == quad_entries(0),
{
    let r: Vec<u32> = vec![0u32, 1, 2, 0, 2, 3];
    assert(as_ints(r@) =~= quad_entries(0));
    r
}

/// The indices of a rectangular frame between an outer rectangle (vertices
/// 0 to 3) and an inner one (vertices 4 to 7), corners in the same turn.
pub fn frame_indices() -> (r: Vec<u32>)
    ensures
        as_ints(r@) == seq![
            0int, 1, 5, 0, 5, 4,
            1, 2, 6, 1, 6, 5,
            2, 3, 7, 2, 7, 6,
            3, 0, 4, 3, 4, 7,
        ],
{
    let r: Vec<u32> = vec![
        0u32, 1, 5, 0, 5, 4,
        1, 2, 6, 1, 6, 5,
        2, 3, 7, 2, 7, 6,
        3, 0, 4, 3, 4, 7,
    ];
    assert(as_ints(r@) =~= seq![
        0int, 1, 5, 0, 5, 4,
        1, 2, 6, 1, 6, 5,
        2, 3, 7, 2, 7, 6,
        3, 0, 4, 3, 4, 7,
    ]);
    r
}

/// The indices of `count` quads laid out one after another: the dashes of a
/// dashed line, the two strokes of a cross.
pub fn quads_indices(count: usize) -> (r: Vec<u32>)
    requires
        4 * count <= u32::MAX,
    ensures
        as_ints(r@) == quad_list(count as nat),
        r.len() == 6 * count,
{
    let mut out: Vec<u32> = Vec::new();
    let mut i: usize = 0;
    while i < count
        invariant
            i <= count,
            4 * count <= u32::MAX,
            as_ints(out@) == quad_list(i as nat),
            out.len() == 6 * i,
        decreases count - i,
    {
        let base = (4 * i) as u32;
        let ghost o = out@;
        out.push(base);
        out.push(base + 1);
        out.push(base + 2);
        out.push(base);
        out.push(base + 2);
        out.push(base + 3);
        proof {
            assert(as_ints(out@) =~= as_ints(o) + quad_entries(4 * i));
            assert(quad_list((i + 1) as nat) == quad_list(i as nat) + quad_entries(4 * i));
        }
        i = i + 1;
    }
    out
}

/// The indices of a ring (a hollow circle) of `segments` segments over the
/// vertex pairs `2i` (inner), `2i+1` (outer), for `i` from 0 to `segments`.
pub fn ring_indices(segments: usize) -> (r: Vec<u32>)
    requires
        2 * segments + 3 <= u32::MAX,
    ensures
        as_ints(r@) == ring_list(segments as nat),
        r.len() == 6 * segments,
{
    let mut out: Vec<u32> = Vec::new();
    let mut i: usize = 0;
    while i < segments
        invariant
            i <= segments,
            2 * segments + 3 <= u32::MAX,
            as_ints(out@) == ring_list(i as nat),
            out.len() == 6 * i,
        decreases segments - i,
    {
        let base = (i * 2) as u32;
        let ghost o = out@;
        out.push(base);
        out.push(base + 1);
        out.push(base + 2);
        out.push(base + 1);
        out.push(base + 3);
        out.push(base + 2);
        proof {
            assert(as_ints(out@) =~= as_ints(o) + ring_entries(2 * i));
        }
        i = i + 1;
    }
    out
}

/// Appends a fan of `count` triangles around `center` over the rim vertices
/// `first` to `first + count`.
pub fn push_fan(out: &mut Vec<u32>, center: u32, first: u32, count: usize)
    requires
        first + count <= u32::MAX,
    ensures
        as_ints(final(out)@) == as_ints(old(out)@) + fan_list(center as int, first as int, count as nat),
        final(out).len() == old(out).len() + 3 * count,
{
    let ghost o = out@;
    let mut i: usize = 0;
    assert(as_ints(o) + fan_list(center as int, first as int, 0) =~= as_ints(o));
    while i < count
        invariant
            i <= count,
            first + count <= u32::MAX,
            as_ints(out@) == as_ints(o) + fan_list(center as int, first as int, i as nat),
            out.len() == o.len() + 3 * i,
        decreases count - i,
    {
        let ghost p = out@;
        out.push(center);
        out.push(first + i as u32);
        out.push(first + i as u32 + 1);
        proof {
            assert(as_ints(out@) =~= as_ints(p) + seq![center as int, first + i, first + i + 1]);
            assert(fan_list(center as int, first as int, (i + 1) as nat) == fan_list(
                center as int,
                first as int,
                i as nat,
            ) + seq![center as int, first + i, first + i + 1]);
            assert(as_ints(out@) =~= as_ints(o) + fan_list(
                center as int,
                first as int,
                (i + 1) as nat,
            ));
        }
        i = i + 1;
    }
}

/// The indices of a filled circle: a fan of `segments` triangles around
/// vertex 0 over the rim vertices 1 to `segments + 1`.
pub fn disk_indices(segments: usize) -> (r: Vec<u32>)
    requires
        segments + 1 <= u32::MAX,
    ensures
        as_ints(r@) == fan_list(0, 1, segments as nat),
{
    let mut out: Vec<u32> = Vec::new();
    push_fan(&mut out, 0, 1, segments);
    assert(as_ints(out@) =~= fan_list(0, 1, segments as nat));
    out
}

/// The index list of a filled strip with fan caps: `rail_len` vertex pairs
/// (left `2i`, right `2i+1`), then, when the head cap has at least two rim
/// points, its centre and its `head_len` rim points, then the same for the
/// tail cap. Rails of fewer than two points make no strip and no mesh at
/// all: the list is empty, caps included.
pub open spec fn strip_fill_list(rail_len: nat, head_len: nat, tail_len: nat) -> Seq<int> {
    if rail_len < 2 {
        Seq::empty()
    } else {
        strip_fill_body(rail_len, head_len, tail_len)
    }
}

/// The index list of a filled strip whose rails have at least two points.
pub open spec fn strip_fill_body(rail_len: nat, head_len: nat, tail_len: nat) -> Seq<int> {
    let head_center: int = 2 * rail_len as int;
    let tail_center: int = head_center + if head_len >= 2 {
        head_len as int + 1
    } else {
        0
    };
    strip_list((rail_len - 1) as nat) + (if head_len >= 2 {
        fan_list(head_center, head_center + 1, (head_len - 1) as nat)
    } else {
        Seq::empty()
    }) + (if tail_len >= 2 {
        fan_list(tail_center, tail_center + 1, (tail_len - 1) as nat)
    } else {
        Seq::empty()
    })
}

/// The indices of a filled strip between two rails of `rail_len` points,
/// with fan caps at the head and the tail (a cap of fewer than two rim points
/// is left out). Rails of fewer than two points give no indices at all.
pub fn strip_fill_indices(rail_len: usize, head_len: usize, tail_len: usize) -> (r: Vec<u32>)
    requires
        rail_len >= 2 ==> 2 * rail_len + head_len + tail_len + 2 <= u32::MAX,
    ensures
        as_ints(r@) == strip_fill_list(rail_len as nat, head_len as nat, tail_len as nat),
{
    let mut out: Vec<u32> = Vec::new();
    if rail_len < 2 {
        assert(as_ints(out@) =~= Seq::<int>::empty());
        return out;
    }
    let mut i: usize = 0;
    while i < rail_len - 1
        invariant
            i <= rail_len - 1,
            rail_len >= 2,
            2 * rail_len + head_len + tail_len + 2 <= u32::MAX,
            as_ints(out@) == strip_list(i as nat),
        decreases rail_len - 1 - i,
    {
        let li = (i * 2) as u32;
        let ri = li + 1;
        let li1 = ((i + 1) * 2) as u32;
        let ri1 = li1 + 1;
        let ghost o = out@;
        out.push(li);
        out.push(li1);
        out.push(ri);
        out.push(ri);
        out.push(li1);
        out.push(ri1);
        proof {
            assert(as_ints(out@) =~= as_ints(o) + seq![
                2 * i,
                2 * i + 2,
                2 * i + 1,
                2 * i + 1,
                2 * i + 2,
                2 * i + 3,
            ]);
        }
        i = i + 1;
    }
    let ghost strip = as_ints(out@);
    let mut vertices: usize = rail_len * 2;
    if head_len >= 2 {
        let center = vertices as u32;
        push_fan(&mut out, center, center + 1, head_len - 1);
        vertices = vertices + 1 + head_len;
    }
    let ghost with_head = as_ints(out@);
    if tail_len >= 2 {
        let center = vertices as u32;
        push_fan(&mut out, center, center + 1, tail_len - 1);
    }
    proof {
        let hc: int = 2 * rail_len;
        let head = if head_len >= 2 {
            fan_list(hc, hc + 1, (head_len - 1) as nat)
        } else {
            Seq::empty()
        };
        let tc: int = hc + if head_len >= 2 {
            head_len as int + 1
        } else {
            0
        };
        let tail = if tail_len >= 2 {
            fan_list(tc, tc + 1, (tail_len - 1) as nat)
        } else {
            Seq::empty()
        };
        assert(with_head =~= strip + head);
        assert(as_ints(out@) =~= strip + head + tail);
    }
    out
}

/// The band list of a run of polygons: each polygon of at least three
/// vertices gets a band over its own vertex pairs, laid out after those of
/// the polygons before it; smaller polygons are skipped and take no vertices.
pub open spec fn outline_list(counts: Seq<usize>) -> Seq<int>
    decreases counts.len(),
{
    if counts.len() == 0 {
        Seq::empty()
    } else {
        let c = counts.last() as int;
        outline_list(counts.drop_last()) + if c >= 3 {
            band_list(outline_vertices(counts.drop_last()), c, c as nat)
        } else {
            Seq::empty()
        }
    }
}

/// The vertices the outline of the polygons `counts` lays out: two per
/// vertex of each polygon of at least three.
pub open spec fn outline_vertices(counts: Seq<usize>) -> int
    decreases counts.len(),
{
    if counts.len() == 0 {
        0
    } else {
        outline_vertices(counts.drop_last()) + if counts.last() >= 3 {
            2 * counts.last()
        } else {
            0
        }
    }
}

pub proof fn lemma_outline_vertices_grow(counts: Seq<usize>, k: int)
    requires
        0 <= k <= counts.len(),
    ensures
        0 <= outline_vertices(counts.take(k)) <= outline_vertices(counts),
    decreases counts.len() - k,
{
    if k < counts.len() {
        lemma_outline_vertices_grow(counts, k + 1);
        assert(counts.take(k + 1).drop_last() =~= counts.take(k));
        assert(counts.take(k + 1).last() == counts[k]);
        lemma_outline_vertices_nonneg(counts.take(k));
    } else {
        assert(counts.take(k) =~= counts);
        lemma_outline_vertices_nonneg(counts);
    }
}

pub proof fn lemma_outline_vertices_nonneg(counts: Seq<usize>)
    ensures
        outline_vertices(counts) >= 0,
    decreases counts.len(),
{
    if counts.len() > 0 {
        lemma_outline_vertices_nonneg(counts.drop_last());
    }
}

/// The indices of the outline of a run of closed polygons with `counts`
/// vertices each: per polygon of at least three vertices, a band of two
/// triangles per side over its inner and outer vertex pairs.
pub fn outline_indices(counts: &Vec<usize>) -> (r: Vec<u32>)
    requires
        outline_vertices(counts@) + 2 <= u32::MAX,
    ensures
        as_ints(r@) == outline_list(counts@),
{
    let mut out: Vec<u32> = Vec::new();
    let mut base: usize = 0;
    let mut p: usize = 0;
    assert(counts@.take(0) =~= Seq::<usize>::empty());
    while p < counts.len()
        invariant
            p <= counts.len(),
            outline_vertices(counts@) + 2 <= u32::MAX,
            base as int == outline_vertices(counts@.take(p as int)),
            as_ints(out@) == outline_list(counts@.take(p as int)),
        decreases counts.len() - p,
    {
        let c = counts[p];
        let ghost pre = counts@.take(p as int);
        let ghost t = counts@.take(p + 1);
        proof {
            assert(t.drop_last() =~= pre);
            assert(t.last() == c);
            lemma_outline_vertices_grow(counts@, p + 1);
        }
        if c >= 3 {
            let ghost o = out@;
            let mut i: usize = 0;
            while i < c
                invariant
                    i <= c,
                    c >= 3,
                    base + 2 * c + 2 <= u32::MAX,
                    as_ints(out@) == as_ints(o) + band_list(base as int, c as int, i as nat),
                decreases c - i,
            {
                let next = if i + 1 == c {
                    0
                } else {
                    i + 1
                };
                let i0 = (base + i * 2) as u32;
                let i1 = i0 + 1;
                let i2 = (base + next * 2 + 1) as u32;
                let i3 = (base + next * 2) as u32;
                let ghost q = out@;
                out.push(i0);
                out.push(i1);
                out.push(i2);
                out.push(i0);
                out.push(i2);
                out.push(i3);
                proof {
                    assert(as_ints(out@) =~= as_ints(q) + seq![
                        base + 2 * i,
                        base + 2 * i + 1,
                        base + 2 * next + 1,
                        base + 2 * i,
                        base + 2 * next + 1,
                        base + 2 * next,
                    ]);
                    assert(as_ints(out@) =~= as_ints(o) + band_list(
                        base as int,
                        c as int,
                        (i + 1) as nat,
                    ));
                }
                i = i + 1;
            }
            base = base + 2 * c;
        } else {
            assert(outline_list(t) =~= outline_list(pre));
        }
        p = p + 1;
    }
    assert(counts@.take(counts.len() as int) =~= counts@);
    out
}

/// The index lists of several meshes put into one: each list is shifted by
/// the vertices of the meshes before it.
pub open spec fn merged_list(counts: Seq<usize>, lists: Seq<Seq<u32>>) -> Seq<int>
    decreases lists.len(),
{
    if lists.len() == 0 {
        Seq::empty()
    } else {
        let k = lists.len() - 1;
        let base = vertex_total(counts.take(k));
        merged_list(counts, lists.drop_last()) + lists[k].map_values(|x: u32| base + x)
    }
}

/// The number of vertices of meshes with `counts` vertices each.
pub open spec fn vertex_total(counts: Seq<usize>) -> int
    decreases counts.len(),
{
    if counts.len() == 0 {
        0
    } else {
        vertex_total(counts.drop_last()) + counts.last()
    }
}

pub proof fn lemma_vertex_total_grow(counts: Seq<usize>, k: int)
    requires
        0 <= k <= counts.len(),
    ensures
        0 <= vertex_total(counts.take(k)) <= vertex_total(counts),
    decreases counts.len() - k,
{
    if k < counts.len() {
        lemma_vertex_total_grow(counts, k + 1);
        assert(counts.take(k + 1).drop_last() =~= counts.take(k));
        assert(counts.take(k + 1).last() == counts[k]);
        lemma_vertex_total_nonneg(counts.take(k));
    } else {
        assert(counts.take(k) =~= counts);
        lemma_vertex_total_nonneg(counts);
    }
}

pub proof fn lemma_vertex_total_nonneg(counts: Seq<usize>)
    ensures
        vertex_total(counts) >= 0,
    decreases counts.len(),
{
    if counts.len() > 0 {
        lemma_vertex_total_nonneg(counts.drop_last());
    }
}

/// What merging meshes gives: no indices when the meshes have no vertices
/// at all (the merged mesh is empty), else the merged list.
pub open spec fn merged_mesh_list(counts: Seq<usize>, lists: Seq<Seq<u32>>) -> Seq<int> {
    if vertex_total(counts) == 0 {
        Seq::empty()
    } else {
        merged_list(counts, lists)
    }
}

/// Merges the index lists of several meshes with `counts` vertices each into
/// the index list of one mesh whose vertex buffer is theirs end to end; when
/// they have no vertices at all, the merged mesh is empty and has no indices.
pub fn merge_indices(counts: &Vec<usize>, lists: &Vec<Vec<u32>>) -> (r: Vec<u32>)
    requires
        counts.len() == lists.len(),
        vertex_total(counts@) <= u32::MAX,
        forall|m: int, t: int|
            0 <= m < lists.len() && 0 <= t < lists@[m].len() ==> vertex_total(counts@.take(m))
                + (#[trigger] lists@[m]@[t]) <= u32::MAX,
    ensures
        as_ints(r@) == merged_mesh_list(counts@, lists@.map_values(|l: Vec<u32>| l@)),
{
    let ghost ls = lists@.map_values(|l: Vec<u32>| l@);
    let mut out: Vec<u32> = Vec::new();
    let mut base: usize = 0;
    let mut m: usize = 0;
    assert(ls.take(0) =~= Seq::<Seq<u32>>::empty());
    while m < lists.len()
        invariant
            m <= lists.len(),
            counts.len() == lists.len(),
            vertex_total(counts@) <= u32::MAX,
            ls == lists@.map_values(|l: Vec<u32>| l@),
            forall|m2: int, t: int|
                0 <= m2 < lists.len() && 0 <= t < lists@[m2].len() ==> vertex_total(
                    counts@.take(m2),
                ) + (#[trigger] lists@[m2]@[t]) <= u32::MAX,
            base as int == vertex_total(counts@.take(m as int)),
            as_ints(out@) == merged_list(counts@, ls.take(m as int)),
        decreases lists.len() - m,
    {
        let list = &lists[m];
        let ghost o = out@;
        let mut t: usize = 0;
        while t < list.len()
            invariant
                t <= list.len(),
                list@ == lists@[m as int]@,
                base as int == vertex_total(counts@.take(m as int)),
                forall|t2: int| 0 <= t2 < list.len() ==> base + (#[trigger] list@[t2]) <= u32::MAX,
                as_ints(out@) == as_ints(o) + list@.take(t as int).map_values(
                    |x: u32| base + x,
                ),
            decreases list.len() - t,
        {
            let ghost q = out@;
            out.push(base as u32 + list[t]);
            proof {
                assert(list@.take(t + 1).map_values(|x: u32| base + x) =~= list@.take(
                    t as int,
                ).map_values(|x: u32| base + x).push(base + list@[t as int]));
                assert(as_ints(out@) =~= as_ints(q).push(base + list@[t as int]));
            }
            t = t + 1;
        }
        proof {
            assert(list@.take(list.len() as int) =~= list@);
            let lt = ls.take(m + 1);
            assert(lt.drop_last() =~= ls.take(m as int));
            assert(lt[m as int] == list@);
            assert(counts@.take(m + 1).drop_last() =~= counts@.take(m as int));
        }
        proof {
            lemma_vertex_total_grow(counts@, m + 1);
        }
        base = base + counts[m];
        m = m + 1;
    }
    assert(ls.take(lists.len() as int) =~= ls);
    assert(counts@.take(counts.len() as int) =~= counts@);
    if base == 0 {
        let empty: Vec<u32> = Vec::new();
        assert(as_ints(empty@) =~= Seq::<int>::empty());
        return empty;
    }
    out
}


// ---------------------------------------------------------------------------
// Every index names a vertex of its mesh
// ---------------------------------------------------------------------------

/// Every entry of `s` lies in `lo..hi`.
pub open spec fn within(s: Seq<int>, lo: int, hi: int) -> bool {
    forall|k: int| 0 <= k < s.len() ==> lo <= #[trigger] s[k] < hi
}

proof fn lemma_within_concat(a: Seq<int>, b: Seq<int>, lo: int, hi: int)
    requires
        within(a, lo, hi),
        within(b, lo, hi),
    ensures
        within(a + b, lo, hi),
{
    assert forall|k: int| 0 <= k < (a + b).len() implies lo <= #[trigger] (a + b)[k] < hi by {
        if k < a.len() {
            assert((a + b)[k] == a[k]);
        } else {
            assert((a + b)[k] == b[k - a.len()]);
        }
    }
}

proof fn lemma_strip_list_within(segments: nat)
    ensures
        within(strip_list(segments), 0, 2 * segments as int + 2),
    decreases segments,
{
    if segments > 0 {
        lemma_strip_list_within((segments - 1) as nat);
        let l = 2 * (segments - 1);
        let t = seq![l, l + 2, l + 1, l + 1, l + 2, l + 3];
        assert(within(t, 0, 2 * segments as int + 2));
        lemma_within_concat(strip_list((segments - 1) as nat), t, 0, 2 * segments as int + 2);
    }
}

proof fn lemma_fan_list_within(center: int, first: int, count: nat)
    requires
        center < first,
    ensures
        within(fan_list(center, first, count), center, first + count + 1),
    decreases count,
{
    if count > 0 {
        lemma_fan_list_within(center, first, (count - 1) as nat);
        let t = seq![center, first + count - 1, first + count];
        assert(within(t, center, first + count + 1));
        lemma_within_concat(fan_list(center, first, (count - 1) as nat), t, center, first + count + 1);
    }
}

/// The vertices of a filled strip with caps: two per rail point, then the
/// centre and the rim points of each cap of at least two rim points.
pub open spec fn strip_fill_vertices(rail_len: nat, head_len: nat, tail_len: nat) -> int {
    if rail_len < 2 {
        0
    } else {
        strip_fill_body_vertices(rail_len, head_len, tail_len)
    }
}

/// The vertices of a filled strip whose rails have at least two points.
pub open spec fn strip_fill_body_vertices(rail_len: nat, head_len: nat, tail_len: nat) -> int {
    2 * rail_len as int + (if head_len >= 2 {
        head_len as int + 1
    } else {
        0
    }) + (if tail_len >= 2 {
        tail_len + 1
    } else {
        0
    })
}

/// Every index of a filled strip names one of its vertices.
pub proof fn strip_fill_stays_in_mesh(rail_len: nat, head_len: nat, tail_len: nat)
    ensures
        within(strip_fill_list(rail_len, head_len, tail_len), 0, strip_fill_vertices(rail_len, head_len, tail_len)),
{
    if rail_len >= 2 {
        let total = strip_fill_vertices(rail_len, head_len, tail_len);
        let head_center: int = 2 * rail_len as int;
        let tail_center: int = head_center + if head_len >= 2 {
            head_len as int + 1
        } else {
            0
        };
        let a = strip_list((rail_len - 1) as nat);
        let b = if head_len >= 2 {
            fan_list(head_center, head_center + 1, (head_len - 1) as nat)
        } else {
            Seq::empty()
        };
        let c = if tail_len >= 2 {
            fan_list(tail_center, tail_center + 1, (tail_len - 1) as nat)
        } else {
            Seq::empty()
        };
        lemma_strip_list_within((rail_len - 1) as nat);
        assert(within(a, 0, total));
        if head_len >= 2 {
            lemma_fan_list_within(head_center, head_center + 1, (head_len - 1) as nat);
        }
        assert(within(b, 0, total));
        if tail_len >= 2 {
            lemma_fan_list_within(tail_center, tail_center + 1, (tail_len - 1) as nat);
        }
        assert(within(c, 0, total));
        lemma_within_concat(a, b, 0, total);
        lemma_within_concat(a + b, c, 0, total);
    }
}

proof fn lemma_band_list_within(base: int, count: int, upto: nat)
    requires
        upto <= count,
    ensures
        within(band_list(base, count, upto), base, base + 2 * count),
    decreases upto,
{
    if upto > 0 {
        lemma_band_list_within(base, count, (upto - 1) as nat);
        let i = upto - 1;
        let next = if i + 1 == count {
            0
        } else {
            i + 1
        };
        let t = seq![
            base + 2 * i,
            base + 2 * i + 1,
            base + 2 * next + 1,
            base + 2 * i,
            base + 2 * next + 1,
            base + 2 * next,
        ];
        assert(within(t, base, base + 2 * count));
        lemma_within_concat(band_list(base, count, (upto - 1) as nat), t, base, base + 2 * count);
    }
}

/// Every index of an outline names one of the vertices it lays out.
pub proof fn outline_stays_in_mesh(counts: Seq<usize>)
    ensures
        within(outline_list(counts), 0, outline_vertices(counts)),
    decreases counts.len(),
{
    if counts.len() > 0 {
        let rest = counts.drop_last();
        let c = counts.last() as int;
        outline_stays_in_mesh(rest);
        lemma_outline_vertices_nonneg(rest);
        let t = if c >= 3 {
            band_list(outline_vertices(rest), c, c as nat)
        } else {
            Seq::empty()
        };
        if c >= 3 {
            lemma_band_list_within(outline_vertices(rest), c, c as nat);
        }
        assert(within(t, 0, outline_vertices(counts)));
        assert(within(outline_list(rest), 0, outline_vertices(counts)));
        lemma_within_concat(outline_list(rest), t, 0, outline_vertices(counts));
    }
}

/// Merging meshes keeps every index inside the merged vertex buffer: when
/// each mesh's indices name its own vertices, every merged index names a
/// vertex of the merged mesh.
pub proof fn merged_stays_in_mesh(counts: Seq<usize>, lists: Seq<Seq<u32>>)
    requires
        counts.len() == lists.len(),
        forall|m: int, t: int| 0 <= m < lists.len() && 0 <= t < lists[m].len() ==> #[trigger] lists[m][t] < counts[m],
    ensures
        within(merged_mesh_list(counts, lists), 0, vertex_total(counts)),
{
    lemma_merged_prefix_within(counts, lists);
    assert(counts.take(lists.len() as int) =~= counts);
}

proof fn lemma_merged_prefix_within(counts: Seq<usize>, lists: Seq<Seq<u32>>)
    requires
        lists.len() <= counts.len(),
        forall|m: int, t: int| 0 <= m < lists.len() && 0 <= t < lists[m].len() ==> #[trigger] lists[m][t] < counts[m],
    ensures
        within(merged_list(counts, lists), 0, vertex_total(counts.take(lists.len() as int))),
    decreases lists.len(),
{
    if lists.len() > 0 {
        let k = lists.len() - 1;
        let base = vertex_total(counts.take(k));
        let top = vertex_total(counts.take(k + 1));
        lemma_merged_prefix_within(counts, lists.drop_last());
        assert(counts.take(k + 1).drop_last() =~= counts.take(k));
        assert(counts.take(k + 1).last() == counts[k]);
        lemma_vertex_total_nonneg(counts.take(k));
        let t = lists[k].map_values(|x: u32| base + x);
        assert forall|j: int| 0 <= j < t.len() implies 0 <= #[trigger] t[j] < top by {
            assert(lists[k][j] < counts[k]);
        }
        assert(within(merged_list(counts, lists.drop_last()), 0, top));
        lemma_within_concat(merged_list(counts, lists.drop_last()), t, 0, top);
    }
}


// ---------------------------------------------------------------------------
// The strip's segments
// ---------------------------------------------------------------------------

proof fn lemma_strip_list_segments(segments: nat)
    ensures
        strip_list(segments).len() == 6 * segments,
        forall|i: int|
            0 <= i < segments ==> (#[trigger] strip_list(segments).subrange(6 * i, 6 * i + 6)) == seq![
                2 * i,
                2 * i + 2,
                2 * i + 1,
                2 * i + 1,
                2 * i + 2,
                2 * i + 3,
            ],
    decreases segments,
{
    if segments > 0 {
        let n = (segments - 1) as nat;
        lemma_strip_list_segments(n);
        let pre = strip_list(n);
        let l = 2 * (segments - 1);
        let t = seq![l, l + 2, l + 1, l + 1, l + 2, l + 3];
        assert(strip_list(segments) == pre + t);
        assert forall|i: int| 0 <= i < segments implies (#[trigger] strip_list(segments).subrange(6 * i, 6 * i + 6))
            == seq![2 * i, 2 * i + 2, 2 * i + 1, 2 * i + 1, 2 * i + 2, 2 * i + 3] by {
            if i < n {
                assert(pre.subrange(6 * i, 6 * i + 6) == seq![2 * i, 2 * i + 2, 2 * i + 1, 2 * i + 1, 2 * i + 2, 2 * i + 3]);
                assert((pre + t).subrange(6 * i, 6 * i + 6) =~= pre.subrange(6 * i, 6 * i + 6));
            } else {
                assert((pre + t).subrange(6 * i, 6 * i + 6) =~= t);
            }
        }
    }
}

/// A strip with rails of at least two points starts with one quad per
/// segment: segment `i` is the triangles `(2i, 2i+2, 2i+1)` and
/// `(2i+1, 2i+2, 2i+3)`, joining the rail pair `i` to the pair `i + 1`, so
/// every rail vertex is used; the caps' triangles come after.
pub proof fn strip_segments_join_consecutive_pairs(rail_len: nat, head_len: nat, tail_len: nat)
    requires
        rail_len >= 2,
    ensures
        strip_fill_list(rail_len, head_len, tail_len).len() >= 6 * (rail_len - 1),
        forall|i: int|
            0 <= i < rail_len - 1 ==> (#[trigger] strip_fill_list(rail_len, head_len, tail_len).subrange(
                6 * i,
                6 * i + 6,
            )) == seq![2 * i, 2 * i + 2, 2 * i + 1, 2 * i + 1, 2 * i + 2, 2 * i + 3],
{
    let n = (rail_len - 1) as nat;
    lemma_strip_list_segments(n);
    let a = strip_list(n);
    let head_center: int = 2 * rail_len as int;
    let tail_center: int = head_center + if head_len >= 2 {
        head_len as int + 1
    } else {
        0
    };
    let b = if head_len >= 2 {
        fan_list(head_center, head_center + 1, (head_len - 1) as nat)
    } else {
        Seq::empty()
    };
    let c = if tail_len >= 2 {
        fan_list(tail_center, tail_center + 1, (tail_len - 1) as nat)
    } else {
        Seq::empty()
    };
    let all = strip_fill_list(rail_len, head_len, tail_len);
    assert(all == a + b + c);
    assert forall|i: int| 0 <= i < rail_len - 1 implies (#[trigger] all.subrange(6 * i, 6 * i + 6)) == seq![
        2 * i,
        2 * i + 2,
        2 * i + 1,
        2 * i + 1,
        2 * i + 2,
        2 * i + 3,
    ] by {
        assert(a.subrange(6 * i, 6 * i + 6) == seq![2 * i, 2 * i + 2, 2 * i + 1, 2 * i + 1, 2 * i + 2, 2 * i + 3]);
        assert(all.subrange(6 * i, 6 * i + 6) =~= a.subrange(6 * i, 6 * i + 6));
    }
}

} // verus!
