//! The broad phase of collision avoidance: a spatial hash grid.
//!
//! Each collider covers a rectangle of grid cells (the application turns its
//! circle into that rectangle). Every collider is entered once in each cell
//! it covers; the entries are sorted by cell, so that entries of one cell sit
//! side by side, and every two colliders that share a cell become a
//! candidate pair for the exact test.

use vstd::prelude::*;

use crate::cell::{CellEntry, cell_lt, same_cell_spec};

verus! {

/// The cells a collider covers: columns `min_x..=max_x`, rows `min_y..=max_y`.
#[derive(Clone, Copy, Debug, PartialEq, Eq, Structural)]
pub struct CellRange {
    pub min_x: i32,
    pub max_x: i32,
    pub min_y: i32,
    pub max_y: i32,
}

/// The range covers the cell `(x, y)`.
pub open spec fn covers(r: CellRange, x: int, y: int) -> bool {
    r.min_x <= x <= r.max_x && r.min_y <= y <= r.max_y
}

/// Two ranges have a cell in common.
pub open spec fn overlap(a: CellRange, b: CellRange) -> bool {
    exists|x: int, y: int| covers(a, x, y) && #[trigger] covers(b, x, y)
}

/// The order in which the entries are generated: by collider, then column,
/// then row.
pub open spec fn gen_lt(a: CellEntry, b: CellEntry) -> bool {
    a.collider_index < b.collider_index || (a.collider_index == b.collider_index && (a.cell_x
        < b.cell_x || (a.cell_x == b.cell_x && a.cell_y < b.cell_y)))
}

/// What the grid entries of the colliders `ranges` are: one entry for each
/// collider and each cell it covers, and no other, in the order of
/// generation.
pub open spec fn grid_entries_ok(ranges: Seq<CellRange>, es: Seq<CellEntry>) -> bool {
    &&& forall|e: CellEntry|
        #[trigger] es.contains(e) <==> e.collider_index < ranges.len() && covers(
            ranges[e.collider_index as int],
            e.cell_x as int,
            e.cell_y as int,
        )
    &&& forall|i: int, j: int| 0 <= i < j < es.len() ==> gen_lt(#[trigger] es[i], #[trigger] es[j])
}

/// Enters every collider in each cell it covers, collider by collider, each
/// column by column and row by row.
pub fn generate_grid_entries(ranges: &Vec<CellRange>) -> (r: Vec<CellEntry>)
    ensures
        grid_entries_ok(ranges@, r@),
{
    let mut out: Vec<CellEntry> = Vec::new();
    let mut index: usize = 0;
    while index < ranges.len()
        invariant
            index <= ranges.len(),
            forall|e: CellEntry|
                #[trigger] out@.contains(e) <==> e.collider_index < index && covers(
                    ranges@[e.collider_index as int],
                    e.cell_x as int,
                    e.cell_y as int,
                ),
            forall|i: int, j: int| 0 <= i < j < out.len() ==> gen_lt(#[trigger] out@[i], #[trigger] out@[j]),
            forall|i: int| 0 <= i < out.len() ==> (#[trigger] out@[i]).collider_index < index,
        decreases ranges.len() - index,
    {
        let r = ranges[index];
        let ghost o0 = out@;
        let mut x: i64 = r.min_x as i64;
        while x <= r.max_x as i64
            invariant
                index < ranges.len(),
                r == ranges@[index as int],
                r.min_x as i64 <= x,
                x <= r.max_x as i64 + 1 || x == r.min_x as i64,
                o0.len() <= out.len(),
                forall|i: int| 0 <= i < o0.len() ==> out@[i] == o0[i],
                forall|e: CellEntry|
                    #[trigger] out@.contains(e) <==> o0.contains(e) || (e.collider_index == index
                        && covers(r, e.cell_x as int, e.cell_y as int) && e.cell_x < x),
                forall|i: int, j: int| 0 <= i < j < out.len() ==> gen_lt(#[trigger] out@[i], #[trigger] out@[j]),
                forall|i: int| 0 <= i < o0.len() ==> (#[trigger] o0[i]).collider_index < index,
                forall|i: int|
                    o0.len() <= i < out.len() ==> (#[trigger] out@[i]).collider_index == index
                        && out@[i].cell_x < x,
            decreases r.max_x as i64 + 1 - x,
        {
            let mut y: i64 = r.min_y as i64;
            let ghost o1 = out@;
            while y <= r.max_y as i64
                invariant
                    index < ranges.len(),
                    r == ranges@[index as int],
                    r.min_x as i64 <= x <= r.max_x as i64,
                    r.min_y as i64 <= y,
                    y <= r.max_y as i64 + 1 || y == r.min_y as i64,
                    o0.len() <= o1.len() <= out.len(),
                    forall|i: int| 0 <= i < o0.len() ==> out@[i] == o0[i],
                    forall|i: int| 0 <= i < o1.len() ==> out@[i] == o1[i],
                    forall|e: CellEntry|
                        #[trigger] o1.contains(e) <==> o0.contains(e) || (e.collider_index == index
                            && covers(r, e.cell_x as int, e.cell_y as int) && e.cell_x < x),
                    forall|e: CellEntry|
                        #[trigger] out@.contains(e) <==> o1.contains(e) || (e.collider_index == index
                            && e.cell_x == x && r.min_y <= e.cell_y && e.cell_y < y),
                    forall|i: int, j: int| 0 <= i < j < out.len() ==> gen_lt(#[trigger] out@[i], #[trigger] out@[j]),
                    forall|i: int| 0 <= i < o0.len() ==> (#[trigger] o0[i]).collider_index < index,
                    forall|i: int|
                        o0.len() <= i < o1.len() ==> (#[trigger] out@[i]).collider_index == index
                            && out@[i].cell_x < x,
                    forall|i: int|
                        o1.len() <= i < out.len() ==> (#[trigger] out@[i]).collider_index == index
                            && out@[i].cell_x == x && out@[i].cell_y < y,
                decreases r.max_y as i64 + 1 - y,
            {
                let e = CellEntry { cell_x: x as i32, cell_y: y as i32, collider_index: index };
                let ghost o2 = out@;
                out.push(e);
                proof {
                    assert forall|i: int, j: int| 0 <= i < j < out.len() implies gen_lt(
                        #[trigger] out@[i],
                        #[trigger] out@[j],
                    ) by {
                        if j == out.len() - 1 {
                            assert(out@[j] == e);
                            if i >= o1.len() {
                                assert(out@[i] == o2[i]);
                            } else if i >= o0.len() {
                                assert(out@[i] == o1[i]);
                            } else {
                                assert(out@[i] == o0[i]);
                            }
                        } else {
                            assert(out@[i] == o2[i] && out@[j] == o2[j]);
                        }
                    }
                    assert forall|c: CellEntry| #[trigger] out@.contains(c) <==> o1.contains(c) || (
                    c.collider_index == index && c.cell_x == x && r.min_y <= c.cell_y && c.cell_y
                        < y + 1) by {
                        if out@.contains(c) {
                            let k = choose|k: int| 0 <= k < out.len() && out@[k] == c;
                            if k < o2.len() {
                                assert(o2[k] == c);
                                assert(o2.contains(c));
                            }
                        }
                        if o2.contains(c) {
                            let k = choose|k: int| 0 <= k < o2.len() && o2[k] == c;
                            assert(out@[k] == c);
                        }
                        if c == e {
                            assert(out@[out.len() - 1] == e);
                        }
                        if o1.contains(c) {
                            let k = choose|k: int| 0 <= k < o1.len() && o1[k] == c;
                            assert(out@[k] == c);
                        }
                    }
                }
                y = y + 1;
            }
            proof {
                assert forall|c: CellEntry| #[trigger] out@.contains(c) <==> o0.contains(c) || (
                c.collider_index == index && covers(r, c.cell_x as int, c.cell_y as int) && c.cell_x
                    < x + 1) by {
                    assert(o1.contains(c) <==> o0.contains(c) || (c.collider_index == index && covers(
                        r,
                        c.cell_x as int,
                        c.cell_y as int,
                    ) && c.cell_x < x));
                }
            }
            x = x + 1;
        }
        proof {
            assert forall|i: int| 0 <= i < out.len() implies (#[trigger] out@[i]).collider_index
                < index + 1 by {
                if i < o0.len() {
                    assert(out@[i] == o0[i]);
                    assert(o0[i].collider_index < index);
                }
            }
        }
        index = index + 1;
    }
    out
}

/// The entries come in cell order (entries of one cell in any order).
pub open spec fn sorted_cells(s: Seq<CellEntry>) -> bool {
    forall|i: int, j: int| 0 <= i < j < s.len() ==> !cell_lt(#[trigger] s[j], #[trigger] s[i])
}

/// Sorts distinct entries by cell.
pub fn sort_by_cell(es: &Vec<CellEntry>) -> (r: Vec<CellEntry>)
    requires
        es@.no_duplicates(),
    ensures
        sorted_cells(r@),
        r@.no_duplicates(),
        r.len() == es.len(),
        forall|e: CellEntry| #[trigger] r@.contains(e) <==> es@.contains(e),
{
    let mut out: Vec<CellEntry> = Vec::new();
    let mut i: usize = 0;
    while i < es.len()
        invariant
            i <= es.len(),
            es@.no_duplicates(),
            sorted_cells(out@),
            out@.no_duplicates(),
            out.len() == i,
            forall|e: CellEntry| #[trigger] out@.contains(e) <==> es@.take(i as int).contains(e),
        decreases es.len() - i,
    {
        let x = es[i];
        proof {
            if out@.contains(x) {
                let k = choose|k: int| 0 <= k < i && es@.take(i as int)[k] == x;
                assert(es@[k] == es@[i as int]);
            }
        }
        let mut pos: usize = 0;
        while pos < out.len() && !x.cell_before(&out[pos])
            invariant
                pos <= out.len(),
                forall|k: int| 0 <= k < pos ==> !cell_lt(x, #[trigger] out@[k]),
            decreases out.len() - pos,
        {
            pos = pos + 1;
        }
        let ghost o = out@;
        out.insert(pos, x);
        proof {
            assert(out@ == o.insert(pos as int, x));
            assert(!o.contains(x));
            assert forall|a: int, b: int| 0 <= a < b < out.len() implies !cell_lt(
                #[trigger] out@[b],
                #[trigger] out@[a],
            ) by {
                if a < pos && b < pos {
                    assert(out@[a] == o[a] && out@[b] == o[b]);
                } else if a < pos && b == pos {
                    assert(out@[a] == o[a]);
                    assert(!cell_lt(x, o[a]));
                } else if a < pos {
                    assert(out@[a] == o[a] && out@[b] == o[b - 1]);
                } else if a == pos {
                    assert(out@[b] == o[b - 1]);
                    assert(cell_lt(x, o[pos as int]));
                    if b - 1 > pos {
                        assert(!cell_lt(o[b - 1], o[pos as int]));
                    }
                } else {
                    assert(out@[a] == o[a - 1] && out@[b] == o[b - 1]);
                }
            }
            assert forall|a: int, b: int| 0 <= a < b < out.len() implies out@[a] != out@[b] by {
                if a == pos {
                    assert(out@[b] == o[b - 1]);
                } else if b == pos {
                    assert(out@[a] == o[a]);
                } else {
                    let a2 = if a < pos { a } else { a - 1 };
                    let b2 = if b < pos { b } else { b - 1 };
                    assert(out@[a] == o[a2] && out@[b] == o[b2]);
                }
            }
            assert forall|e: CellEntry| #[trigger] out@.contains(e) <==> es@.take(i + 1).contains(e) by {
                assert(es@.take(i + 1) =~= es@.take(i as int).push(x));
                if out@.contains(e) {
                    let k = choose|k: int| 0 <= k < out.len() && out@[k] == e;
                    if k < pos {
                        assert(o[k] == e);
                    } else if k > pos {
                        assert(o[k - 1] == e);
                    }
                    if e != x {
                        assert(o.contains(e));
                        assert(es@.take(i as int).contains(e));
                        let m = choose|m: int| 0 <= m < i && es@.take(i as int)[m] == e;
                        assert(es@.take(i + 1)[m] == e);
                    } else {
                        assert(es@.take(i + 1)[i as int] == x);
                    }
                }
                if es@.take(i + 1).contains(e) {
                    if e == x {
                        assert(out@[pos as int] == x);
                    } else {
                        let et = es@.take(i + 1);
                        let m = choose|m: int| 0 <= m < et.len() && et[m] == e;
                        assert(m < i);
                        assert(es@.take(i as int)[m] == e);
                        assert(o.contains(e));
                        let k = choose|k: int| 0 <= k < o.len() && o[k] == e;
                        if k < pos {
                            assert(out@[k] == e);
                        } else {
                            assert(out@[k + 1] == e);
                        }
                    }
                }
            }
        }
        i = i + 1;
    }
    assert(es@.take(es.len() as int) =~= es@);
    out
}

/// A pair of collider indices, smaller first.
pub open spec fn ordered(a: usize, b: usize) -> (usize, usize) {
    if a < b {
        (a, b)
    } else {
        (b, a)
    }
}

/// `p` is the pair of colliders of two entries at different places of `s`
/// that lie in the same cell.
pub open spec fn pair_in(s: Seq<CellEntry>, p: (usize, usize)) -> bool {
    exists|i: int, j: int|
        0 <= i < j < s.len() && same_cell_spec(#[trigger] s[i], #[trigger] s[j]) && p == ordered(
            s[i].collider_index,
            s[j].collider_index,
        )
}

fn contains_pair(v: &Vec<(usize, usize)>, p: (usize, usize)) -> (r: bool)
    ensures
        r == v@.contains(p),
{
    let mut i: usize = 0;
    while i < v.len()
        invariant
            i <= v.len(),
            forall|k: int| 0 <= k < i ==> v@[k] != p,
        decreases v.len() - i,
    {
        if v[i].0 == p.0 && v[i].1 == p.1 {
            return true;
        }
        i = i + 1;
    }
    false
}

/// The candidate pairs of entries sorted by cell: for each run of entries of
/// one cell, every two entries of the run give the pair of their colliders,
/// smaller index first; each pair is listed once.
pub fn find_potential_pairs(s: &Vec<CellEntry>) -> (r: Vec<(usize, usize)>)
    requires
        sorted_cells(s@),
    ensures
        r@.no_duplicates(),
        forall|p: (usize, usize)| #[trigger] r@.contains(p) <==> pair_in(s@, p),
{
    let n = s.len();
    let mut pairs: Vec<(usize, usize)> = Vec::new();
    let mut rs: usize = 0;
    while rs < n
        invariant
            rs <= n,
            n == s.len(),
            sorted_cells(s@),
            pairs@.no_duplicates(),
            forall|p: (usize, usize)| #[trigger] pairs@.contains(p) ==> pair_in(s@, p),
            forall|i: int, j: int|
                0 <= i < j < rs && same_cell_spec(#[trigger] s@[i], #[trigger] s@[j])
                    ==> pairs@.contains(ordered(s@[i].collider_index, s@[j].collider_index)),
            rs == 0 || rs == n || !same_cell_spec(s@[rs - 1], s@[rs as int]),
        decreases n - rs,
    {
        let mut re: usize = rs + 1;
        while re < n && s[re].same_cell(&s[rs])
            invariant
                rs < re <= n,
                n == s.len(),
                forall|k: int| rs <= k < re ==> same_cell_spec(#[trigger] s@[k], s@[rs as int]),
            decreases n - re,
        {
            re = re + 1;
        }
        let mut i: usize = rs;
        while i < re
            invariant
                rs <= i <= re,
                re <= n,
                n == s.len(),
                sorted_cells(s@),
                forall|k: int| rs <= k < re ==> same_cell_spec(#[trigger] s@[k], s@[rs as int]),
                pairs@.no_duplicates(),
                forall|p: (usize, usize)| #[trigger] pairs@.contains(p) ==> pair_in(s@, p),
                forall|a: int, b: int|
                    0 <= a < b < rs && same_cell_spec(#[trigger] s@[a], #[trigger] s@[b])
                        ==> pairs@.contains(ordered(s@[a].collider_index, s@[b].collider_index)),
                forall|a: int, b: int|
                    rs <= a < i && a < b < re ==> pairs@.contains(
                        ordered((#[trigger] s@[a]).collider_index, (#[trigger] s@[b]).collider_index),
                    ),
            decreases re - i,
        {
            let mut j: usize = i + 1;
            while j < re
                invariant
                    rs <= i < re,
                    i < j <= re,
                    re <= n,
                    n == s.len(),
                    forall|k: int| rs <= k < re ==> same_cell_spec(#[trigger] s@[k], s@[rs as int]),
                    pairs@.no_duplicates(),
                    forall|p: (usize, usize)| #[trigger] pairs@.contains(p) ==> pair_in(s@, p),
                    forall|a: int, b: int|
                        0 <= a < b < rs && same_cell_spec(#[trigger] s@[a], #[trigger] s@[b])
                            ==> pairs@.contains(ordered(s@[a].collider_index, s@[b].collider_index)),
                    forall|a: int, b: int|
                        rs <= a < i && a < b < re ==> pairs@.contains(
                            ordered((#[trigger] s@[a]).collider_index, (#[trigger] s@[b]).collider_index),
                        ),
                    forall|b: int|
                        i < b < j ==> pairs@.contains(
                            ordered(s@[i as int].collider_index, (#[trigger] s@[b]).collider_index),
                        ),
                decreases re - j,
            {
                let idx_a = s[i].collider_index;
                let idx_b = s[j].collider_index;
                let (first, second) = if idx_a < idx_b {
                    (idx_a, idx_b)
                } else {
                    (idx_b, idx_a)
                };
                proof {
                    assert(same_cell_spec(s@[i as int], s@[rs as int]));
                    assert(same_cell_spec(s@[j as int], s@[rs as int]));
                    assert(pair_in(s@, (first, second)));
                }
                if !contains_pair(&pairs, (first, second)) {
                    let ghost p0 = pairs@;
                    pairs.push((first, second));
                    proof {
                        assert forall|p: (usize, usize)| #[trigger] pairs@.contains(p) implies pair_in(s@, p) by {
                            if p != (first, second) {
                                let k = choose|k: int| 0 <= k < pairs.len() && pairs@[k] == p;
                                assert(p0[k] == p);
                                assert(p0.contains(p));
                            }
                        }
                        assert forall|a: int, b: int| 0 <= a < b < pairs.len() implies pairs@[a] != pairs@[b] by {
                            if b == pairs.len() - 1 {
                                assert(pairs@[a] == p0[a]);
                                assert(p0.contains(p0[a]));
                            } else {
                                assert(pairs@[a] == p0[a] && pairs@[b] == p0[b]);
                            }
                        }
                        assert forall|q: (usize, usize)| p0.contains(q) implies pairs@.contains(q) by {
                            let k = choose|k: int| 0 <= k < p0.len() && p0[k] == q;
                            assert(pairs@[k] == q);
                        }
                        assert(pairs@[pairs.len() - 1] == (first, second));
                    }
                }
                j = j + 1;
            }
            i = i + 1;
        }
        proof {
            assert forall|a: int, b: int|
                0 <= a < b < re && same_cell_spec(#[trigger] s@[a], #[trigger] s@[b]) implies pairs@.contains(
                ordered(s@[a].collider_index, s@[b].collider_index),
            ) by {
                if a < rs && rs <= b {
                    assert(rs > 0);
                    assert(!same_cell_spec(s@[rs - 1], s@[rs as int]));
                    assert(!cell_lt(s@[rs as int], s@[rs - 1]));
                    if a < rs - 1 {
                        assert(!cell_lt(s@[rs - 1], s@[a]));
                    }
                    if b > rs {
                        assert(!cell_lt(s@[b], s@[rs as int]));
                    }
                    assert(false);
                }
            }
        }
        rs = re;
    }
    proof {
        assert forall|p: (usize, usize)| pair_in(s@, p) implies #[trigger] pairs@.contains(p) by {
            let (i, j) = choose|i: int, j: int|
                0 <= i < j < s.len() && same_cell_spec(#[trigger] s@[i], #[trigger] s@[j]) && p == ordered(
                    s@[i].collider_index,
                    s@[j].collider_index,
                );
        }
    }
    pairs
}

/// The candidate pairs of the broad phase: every two colliders, smaller
/// index first, whose cell ranges have a cell in common, each once.
pub fn broadphase_pairs(ranges: &Vec<CellRange>) -> (r: Vec<(usize, usize)>)
    ensures
        r@.no_duplicates(),
        forall|a: usize, b: usize|
            #[trigger] r@.contains((a, b)) <==> a < b < ranges.len() && overlap(
                ranges@[a as int],
                ranges@[b as int],
            ),
{
    let es = generate_grid_entries(ranges);
    proof {
        assert forall|i: int, j: int| 0 <= i < j < es.len() implies es@[i] != es@[j] by {
            assert(gen_lt(es@[i], es@[j]));
        }
    }
    let s = sort_by_cell(&es);
    let pairs = find_potential_pairs(&s);
    proof {
        assert forall|a: usize, b: usize| #[trigger] pairs@.contains((a, b)) <==> a < b < ranges.len()
            && overlap(ranges@[a as int], ranges@[b as int]) by {
            if pairs@.contains((a, b)) {
                let (i, j) = choose|i: int, j: int|
                    0 <= i < j < s.len() && same_cell_spec(#[trigger] s@[i], #[trigger] s@[j]) && (a, b)
                        == ordered(s@[i].collider_index, s@[j].collider_index);
                let ei = s@[i];
                let ej = s@[j];
                assert(s@.contains(ei));
                assert(s@.contains(ej));
                assert(es@.contains(ei));
                assert(es@.contains(ej));
                assert(ei != ej);
                assert(ei.collider_index != ej.collider_index);
                assert(covers(ranges@[a as int], ei.cell_x as int, ei.cell_y as int));
                assert(covers(ranges@[b as int], ei.cell_x as int, ei.cell_y as int));
            }
            if a < b < ranges.len() && overlap(ranges@[a as int], ranges@[b as int]) {
                let (x, y) = choose|x: int, y: int|
                    covers(ranges@[a as int], x, y) && #[trigger] covers(ranges@[b as int], x, y);
                let ea = CellEntry { cell_x: x as i32, cell_y: y as i32, collider_index: a };
                let eb = CellEntry { cell_x: x as i32, cell_y: y as i32, collider_index: b };
                assert(es@.contains(ea));
                assert(es@.contains(eb));
                assert(s@.contains(ea));
                assert(s@.contains(eb));
                let i = choose|i: int| 0 <= i < s.len() && s@[i] == ea;
                let j = choose|j: int| 0 <= j < s.len() && s@[j] == eb;
                if i < j {
                    assert(same_cell_spec(s@[i], s@[j]));
                    assert(pair_in(s@, (a, b)));
                } else {
                    assert(i != j);
                    assert(same_cell_spec(s@[j], s@[i]));
                    assert(pair_in(s@, (a, b)));
                }
            }
        }
    }
    pairs
}

/// Two colliders of the same body (group) are never pushed apart; any other
/// two are.
pub fn should_resolve(group_a: Option<u32>, group_b: Option<u32>) -> (r: bool)
    ensures
        r == !(group_a is Some && group_b is Some && group_a == group_b),
{
    match (group_a, group_b) {
        (Some(g1), Some(g2)) => g1 != g2,
        _ => true,
    }
}

} // verus!
