//! Sorting entities into the engine's order.

use vstd::prelude::*;

use crate::entity::EntityId;

verus! {

/// The engine orders entities by their `bits`; two distinct identifiers
/// with the same bits (which the engine never hands out) are put in slot
/// index order.
pub open spec fn ent_lt(a: EntityId, b: EntityId) -> bool {
    a.bits < b.bits || (a.bits == b.bits && a.index < b.index)
}

/// Each entity comes strictly before the next.
pub open spec fn strictly_sorted(s: Seq<EntityId>) -> bool {
    forall|i: int, j: int| 0 <= i < j < s.len() ==> ent_lt(#[trigger] s[i], #[trigger] s[j])
}

pub fn ent_less(a: EntityId, b: EntityId) -> (r: bool)
    ensures
        r == ent_lt(a, b),
{
    a.bits < b.bits || (a.bits == b.bits && a.index < b.index)
}

/// Two strictly sorted sequences with the same entities are the same.
pub proof fn lemma_sorted_unique(s: Seq<EntityId>, t: Seq<EntityId>)
    requires
        strictly_sorted(s),
        strictly_sorted(t),
        forall|e: EntityId| s.contains(e) <==> t.contains(e),
    ensures
        s == t,
    decreases s.len() + t.len(),
{
    if s.len() == 0 {
        if t.len() > 0 {
            assert(t.contains(t[0]));
        }
        assert(s =~= t);
    } else if t.len() == 0 {
        assert(s.contains(s[0]));
    } else {
        assert(s.contains(s[0]));
        assert(t.contains(t[0]));
        let js = choose|j: int| 0 <= j < s.len() && s[j] == t[0];
        let jt = choose|j: int| 0 <= j < t.len() && t[j] == s[0];
        if js > 0 {
            assert(ent_lt(s[0], s[js]));
            if jt > 0 {
                assert(ent_lt(t[0], t[jt]));
            }
        }
        if jt > 0 {
            assert(ent_lt(t[0], t[jt]));
        }
        assert(s[0] == t[0]);
        let s1 = s.drop_first();
        let t1 = t.drop_first();
        assert forall|e: EntityId| s1.contains(e) <==> t1.contains(e) by {
            if s1.contains(e) {
                let k = choose|k: int| 0 <= k < s1.len() && s1[k] == e;
                assert(s[k + 1] == e);
                assert(ent_lt(s[0], s[k + 1]));
                assert(t.contains(e));
                let m = choose|m: int| 0 <= m < t.len() && t[m] == e;
                assert(m != 0);
                assert(t1[m - 1] == e);
            }
            if t1.contains(e) {
                let k = choose|k: int| 0 <= k < t1.len() && t1[k] == e;
                assert(t[k + 1] == e);
                assert(ent_lt(t[0], t[k + 1]));
                assert(s.contains(e));
                let m = choose|m: int| 0 <= m < s.len() && s[m] == e;
                assert(m != 0);
                assert(s1[m - 1] == e);
            }
        }
        lemma_sorted_unique(s1, t1);
        assert(s =~= seq![s[0]] + s1);
        assert(t =~= seq![t[0]] + t1);
    }
}

/// Sorts distinct entities into the engine's order.
pub fn sort_entities(v: &Vec<EntityId>) -> (r: Vec<EntityId>)
    requires
        v@.no_duplicates(),
    ensures
        strictly_sorted(r@),
        forall|e: EntityId| r@.contains(e) <==> v@.contains(e),
        r.len() == v.len(),
{
    let mut out: Vec<EntityId> = Vec::new();
    let mut i: usize = 0;
    while i < v.len()
        invariant
            i <= v.len(),
            v@.no_duplicates(),
            strictly_sorted(out@),
            out.len() == i,
            forall|e: EntityId| out@.contains(e) <==> v@.take(i as int).contains(e),
        decreases v.len() - i,
    {
        let x = v[i];
        proof {
            if out@.contains(x) {
                let k = choose|k: int| 0 <= k < i && v@.take(i as int)[k] == x;
                assert(v@[k] == v@[i as int]);
            }
        }
        let mut pos: usize = 0;
        while pos < out.len() && !ent_less(x, out[pos as usize])
            invariant
                pos <= out.len(),
                forall|k: int| 0 <= k < pos ==> !ent_lt(x, #[trigger] out@[k]),
            decreases out.len() - pos,
        {
            pos = pos + 1;
        }
        let ghost o = out@;
        out.insert(pos, x);
        proof {
            assert(out@ == o.insert(pos as int, x));
            assert(!o.contains(x));
            assert forall|a: int, b: int| 0 <= a < b < out.len() implies ent_lt(
                #[trigger] out@[a],
                #[trigger] out@[b],
            ) by {
                if a < pos && b < pos {
                    assert(out@[a] == o[a] && out@[b] == o[b]);
                } else if a < pos && b == pos {
                    assert(out@[a] == o[a]);
                    assert(!ent_lt(x, o[a]));
                    assert(o[a] != x);
                } else if a < pos {
                    assert(out@[a] == o[a] && out@[b] == o[b - 1]);
                } else if a == pos {
                    assert(out@[b] == o[b - 1]);
                    assert(ent_lt(x, o[pos as int]));
                    if b - 1 > pos {
                        assert(ent_lt(o[pos as int], o[b - 1]));
                    }
                } else {
                    assert(out@[a] == o[a - 1] && out@[b] == o[b - 1]);
                }
            }
            assert forall|e: EntityId| out@.contains(e) <==> v@.take(i + 1).contains(e) by {
                assert(v@.take(i + 1) =~= v@.take(i as int).push(x));
                if out@.contains(e) {
                    let k = choose|k: int| 0 <= k < out.len() && out@[k] == e;
                    if k < pos {
                        assert(o[k] == e);
                        assert(o.contains(e));
                    } else if k > pos {
                        assert(o[k - 1] == e);
                        assert(o.contains(e));
                    }
                    if e != x {
                        assert(v@.take(i as int).contains(e));
                        let m = choose|m: int| 0 <= m < i && v@.take(i as int)[m] == e;
                        assert(v@.take(i + 1)[m] == e);
                    } else {
                        assert(v@.take(i + 1)[i as int] == x);
                    }
                }
                if v@.take(i + 1).contains(e) {
                    if e == x {
                        assert(out@[pos as int] == x);
                    } else {
                        let vt = v@.take(i + 1);
                        let m = choose|m: int| 0 <= m < vt.len() && vt[m] == e;
                        assert(m < i);
                        assert(v@.take(i as int)[m] == e);
                        assert(o.contains(e));
                        let k = choose|k: int| 0 <= k < o.len() && o[k] == e;
                        if k < pos {
                            assert(out@[k] == e);
                        } else {
                            assert(out@[k + 1] == e);
                        }
                    }
                }
            }
        }
        i = i + 1;
    }
    assert(v@.take(v.len() as int) =~= v@);
    out
}

} // verus!
