//! The constraint graph: which nodes are linked by distance constraints, and
//! which of them belong together as one body.

use vstd::prelude::*;

use crate::entity::EntityId;

verus! {

/// A distance constraint between two nodes, by its endpoints.
///
/// The rest length it keeps is not part of the topology; wherever an
/// adjacency entry needs it, the entry carries the index of the constraint.
#[derive(Clone, Copy, Debug, PartialEq, Eq, Structural)]
pub struct DistanceConstraint {
    pub node_a: EntityId,
    pub node_b: EntityId,
}

impl DistanceConstraint {
    pub fn new(node_a: EntityId, node_b: EntityId) -> (r: DistanceConstraint)
        ensures
            r.node_a == node_a,
            r.node_b == node_b,
    {
        DistanceConstraint { node_a, node_b }
    }

    /// Whether `entity` is one of the two endpoints.
    pub fn involves(&self, entity: EntityId) -> (r: bool)
        ensures
            r == touches(*self, entity),
    {
        self.node_a == entity || self.node_b == entity
    }

    /// The endpoint across from `entity`, if `entity` is an endpoint.
    pub fn other(&self, entity: EntityId) -> (r: Option<EntityId>)
        ensures
            r == (if self.node_a == entity {
                Some(self.node_b)
            } else if self.node_b == entity {
                Some(self.node_a)
            } else {
                None
            }),
    {
        if self.node_a == entity {
            Some(self.node_b)
        } else if self.node_b == entity {
            Some(self.node_a)
        } else {
            None
        }
    }
}

// ---------------------------------------------------------------------------
// The graph that a list of constraints spells out
// ---------------------------------------------------------------------------

pub open spec fn touches(c: DistanceConstraint, e: EntityId) -> bool {
    c.node_a == e || c.node_b == e
}

/// `c` links `u` and `v`, in either direction.
pub open spec fn joins(c: DistanceConstraint, u: EntityId, v: EntityId) -> bool {
    (c.node_a == u && c.node_b == v) || (c.node_a == v && c.node_b == u)
}

/// Some constraint of `cs` has `e` as an endpoint.
pub open spec fn is_endpoint(cs: Seq<DistanceConstraint>, e: EntityId) -> bool {
    exists|i: int| 0 <= i < cs.len() && #[trigger] touches(cs[i], e)
}

/// Some constraint of `cs` links `u` and `v`.
pub open spec fn linked(cs: Seq<DistanceConstraint>, u: EntityId, v: EntityId) -> bool {
    exists|i: int| 0 <= i < cs.len() && #[trigger] joins(cs[i], u, v)
}

/// The adjacency entries that constraint `c`, the `i`-th, adds to the list of `x`:
/// first the entry seen from `node_a`, then the one seen from `node_b`.
pub open spec fn entries_for(c: DistanceConstraint, i: int, x: EntityId) -> Seq<(EntityId, usize)> {
    (if c.node_a == x {
        seq![(c.node_b, i as usize)]
    } else {
        Seq::empty()
    }) + (if c.node_b == x {
        seq![(c.node_a, i as usize)]
    } else {
        Seq::empty()
    })
}

/// The adjacency list of `x`: one entry per constraint end at `x`, in the
/// order of the constraints, each naming the neighbour and the constraint.
pub open spec fn neighbor_entries(cs: Seq<DistanceConstraint>, x: EntityId) -> Seq<(EntityId, usize)>
    decreases cs.len(),
{
    if cs.len() == 0 {
        Seq::empty()
    } else {
        neighbor_entries(cs.drop_last(), x) + entries_for(cs.last(), cs.len() - 1, x)
    }
}

pub open spec fn add_key(keys: Seq<EntityId>, e: EntityId) -> Seq<EntityId> {
    if keys.contains(e) {
        keys
    } else {
        keys.push(e)
    }
}

/// The nodes of the graph, each once, in the order in which they first occur
/// as an endpoint.
pub open spec fn endpoint_order(cs: Seq<DistanceConstraint>) -> Seq<EntityId>
    decreases cs.len(),
{
    if cs.len() == 0 {
        Seq::empty()
    } else {
        add_key(add_key(endpoint_order(cs.drop_last()), cs.last().node_a), cs.last().node_b)
    }
}

pub open spec fn step_ok(cs: Seq<DistanceConstraint>, p: Seq<EntityId>, i: int) -> bool {
    linked(cs, p[i], p[i + 1])
}

/// `p` is a walk in the graph: each node is linked to the next.
pub open spec fn is_walk(cs: Seq<DistanceConstraint>, p: Seq<EntityId>) -> bool {
    &&& p.len() > 0
    &&& forall|i: int| 0 <= i < p.len() - 1 ==> #[trigger] step_ok(cs, p, i)
}

/// A walk leads from `u` to `v`.
pub open spec fn connected(cs: Seq<DistanceConstraint>, u: EntityId, v: EntityId) -> bool {
    exists|p: Seq<EntityId>| #[trigger] is_walk(cs, p) && p[0] == u && p.last() == v
}

// ---------------------------------------------------------------------------
// Lemmas on the spelled-out graph
// ---------------------------------------------------------------------------

pub proof fn lemma_neighbor_entries(cs: Seq<DistanceConstraint>, x: EntityId)
    requires
        cs.len() <= usize::MAX,
    ensures
        forall|k: int|
            0 <= k < neighbor_entries(cs, x).len() ==> {
                let e = #[trigger] neighbor_entries(cs, x)[k];
                &&& (e.1 as int) < cs.len()
                &&& joins(cs[e.1 as int], x, e.0)
            },
        forall|i: int, y: EntityId|
            0 <= i < cs.len() && #[trigger] joins(cs[i], x, y) ==> neighbor_entries(cs, x).contains(
                (y, i as usize),
            ),
    decreases cs.len(),
{
    if cs.len() > 0 {
        let pre = cs.drop_last();
        lemma_neighbor_entries(pre, x);
        let ne = neighbor_entries(cs, x);
        let nep = neighbor_entries(pre, x);
        let ef = entries_for(cs.last(), cs.len() - 1, x);
        assert(ne == nep + ef);
        assert forall|k: int| 0 <= k < ne.len() implies {
            let e = #[trigger] ne[k];
            &&& (e.1 as int) < cs.len()
            &&& joins(cs[e.1 as int], x, e.0)
        } by {
            if k < nep.len() {
                assert(ne[k] == nep[k]);
                assert(cs[nep[k].1 as int] == pre[nep[k].1 as int]);
            } else {
                assert(ne[k] == ef[k - nep.len()]);
            }
        }
        assert forall|i: int, y: EntityId|
            0 <= i < cs.len() && #[trigger] joins(cs[i], x, y) implies ne.contains((y, i as usize)) by {
            if i < cs.len() - 1 {
                assert(pre[i] == cs[i]);
                let k = choose|k: int| 0 <= k < nep.len() && nep[k] == (y, i as usize);
                assert(ne[k] == nep[k]);
            } else {
                let c = cs.last();
                if c.node_a == x && c.node_b == y {
                    assert(ne[nep.len() as int] == (y, i as usize));
                } else {
                    assert(c.node_a == y && c.node_b == x);
                    if c.node_a == x {
                        assert(ne[nep.len() as int + 1] == (y, i as usize));
                    } else {
                        assert(ne[nep.len() as int] == (y, i as usize));
                    }
                }
            }
        }
    }
}

pub proof fn lemma_endpoint_order(cs: Seq<DistanceConstraint>)
    ensures
        endpoint_order(cs).no_duplicates(),
        endpoint_order(cs).len() <= 2 * cs.len(),
        forall|e: EntityId| #[trigger] endpoint_order(cs).contains(e) <==> is_endpoint(cs, e),
    decreases cs.len(),
{
    if cs.len() > 0 {
        let pre = cs.drop_last();
        lemma_endpoint_order(pre);
        let p = endpoint_order(pre);
        let c = cs.last();
        let p1 = add_key(p, c.node_a);
        let p2 = add_key(p1, c.node_b);
        assert(p1.no_duplicates());
        assert(p2.no_duplicates());
        assert forall|e: EntityId| #[trigger] p2.contains(e) <==> is_endpoint(cs, e) by {
            if p2.contains(e) {
                if p.contains(e) {
                    assert(is_endpoint(pre, e));
                    let i = choose|i: int| 0 <= i < pre.len() && #[trigger] touches(pre[i], e);
                    assert(pre[i] == cs[i]);
                } else {
                    assert(touches(cs[cs.len() - 1], e));
                }
            }
            if is_endpoint(cs, e) {
                let i = choose|i: int| 0 <= i < cs.len() && #[trigger] touches(cs[i], e);
                if i < cs.len() - 1 {
                    assert(pre[i] == cs[i]);
                    assert(is_endpoint(pre, e));
                    assert(p.contains(e));
                    let k = choose|k: int| 0 <= k < p.len() && p[k] == e;
                    assert(p1[k] == e);
                    assert(p2[k] == e);
                } else if e == c.node_a {
                    lemma_add_key_contains(p, e);
                    let k = choose|k: int| 0 <= k < p1.len() && p1[k] == e;
                    assert(p2[k] == e);
                } else {
                    lemma_add_key_contains(p1, e);
                }
            }
        }
    }
}

pub proof fn lemma_add_key_contains(keys: Seq<EntityId>, e: EntityId)
    ensures
        add_key(keys, e).contains(e),
        forall|x: EntityId| keys.contains(x) ==> add_key(keys, e).contains(x),
{
    if !keys.contains(e) {
        assert(keys.push(e)[keys.len() as int] == e);
        assert forall|x: EntityId| keys.contains(x) implies add_key(keys, e).contains(x) by {
            let k = choose|k: int| 0 <= k < keys.len() && keys[k] == x;
            assert(keys.push(e)[k] == x);
        }
    }
}

/// A link lies between two nodes of the graph.
pub proof fn lemma_linked_endpoints(cs: Seq<DistanceConstraint>, u: EntityId, v: EntityId)
    requires
        linked(cs, u, v),
    ensures
        endpoint_order(cs).contains(u),
        endpoint_order(cs).contains(v),
        linked(cs, v, u),
{
    lemma_endpoint_order(cs);
    let i = choose|i: int| 0 <= i < cs.len() && #[trigger] joins(cs[i], u, v);
    assert(touches(cs[i], u));
    assert(touches(cs[i], v));
    assert(joins(cs[i], v, u));
}

pub proof fn lemma_connected_refl(cs: Seq<DistanceConstraint>, u: EntityId)
    ensures
        connected(cs, u, u),
{
    let p = seq![u];
    assert(is_walk(cs, p));
}

pub proof fn lemma_connected_step(cs: Seq<DistanceConstraint>, u: EntityId, x: EntityId, y: EntityId)
    requires
        connected(cs, u, x),
        linked(cs, x, y),
    ensures
        connected(cs, u, y),
{
    let p = choose|p: Seq<EntityId>| #[trigger] is_walk(cs, p) && p[0] == u && p.last() == x;
    let q = p.push(y);
    assert forall|i: int| 0 <= i < q.len() - 1 implies #[trigger] step_ok(cs, q, i) by {
        if i < p.len() - 1 {
            assert(step_ok(cs, p, i));
        }
    }
    assert(is_walk(cs, q));
}

pub proof fn lemma_connected_sym(cs: Seq<DistanceConstraint>, u: EntityId, v: EntityId)
    requires
        connected(cs, u, v),
    ensures
        connected(cs, v, u),
{
    let p = choose|p: Seq<EntityId>| #[trigger] is_walk(cs, p) && p[0] == u && p.last() == v;
    let n = p.len();
    let q = Seq::new(n, |i: int| p[n - 1 - i]);
    assert forall|i: int| 0 <= i < q.len() - 1 implies #[trigger] step_ok(cs, q, i) by {
        assert(step_ok(cs, p, n - 2 - i));
        lemma_linked_endpoints(cs, p[n - 2 - i], p[n - 1 - i]);
    }
    assert(is_walk(cs, q));
}

pub proof fn lemma_connected_trans(cs: Seq<DistanceConstraint>, u: EntityId, v: EntityId, w: EntityId)
    requires
        connected(cs, u, v),
        connected(cs, v, w),
    ensures
        connected(cs, u, w),
{
    let p = choose|p: Seq<EntityId>| #[trigger] is_walk(cs, p) && p[0] == u && p.last() == v;
    let q = choose|q: Seq<EntityId>| #[trigger] is_walk(cs, q) && q[0] == v && q.last() == w;
    let r = p + q.drop_first();
    assert forall|i: int| 0 <= i < r.len() - 1 implies #[trigger] step_ok(cs, r, i) by {
        if i < p.len() - 1 {
            assert(step_ok(cs, p, i));
        } else if i == p.len() - 1 {
            assert(step_ok(cs, q, 0));
        } else {
            assert(step_ok(cs, q, i - p.len() + 1));
        }
    }
    assert(is_walk(cs, r));
}

// ---------------------------------------------------------------------------
// Building the adjacency lists
// ---------------------------------------------------------------------------

/// The adjacency of the graph as held: `keys[j]` has the list `adj[j]`.
pub open spec fn adjacency_of(
    cs: Seq<DistanceConstraint>,
    keys: Seq<EntityId>,
    adj: Seq<Vec<(EntityId, usize)>>,
) -> bool {
    &&& keys == endpoint_order(cs)
    &&& adj.len() == keys.len()
    &&& forall|j: int| 0 <= j < keys.len() ==> (#[trigger] adj[j])@ == neighbor_entries(cs, keys[j])
}

/// The position of `e` among `keys`, if it is there.
pub fn find_key(keys: &Vec<EntityId>, e: EntityId) -> (r: Option<usize>)
    ensures
        match r {
            Some(k) => k < keys.len() && keys[k as int] == e,
            None => !keys@.contains(e),
        },
{
    let mut i: usize = 0;
    while i < keys.len()
        invariant
            i <= keys.len(),
            forall|k: int| 0 <= k < i ==> keys[k] != e,
        decreases keys.len() - i,
    {
        if keys[i] == e {
            return Some(i);
        }
        i = i + 1;
    }
    None
}

fn add_entry(
    keys: &mut Vec<EntityId>,
    adj: &mut Vec<Vec<(EntityId, usize)>>,
    key: EntityId,
    entry: (EntityId, usize),
)
    requires
        old(keys).len() == old(adj).len(),
        old(keys)@.no_duplicates(),
    ensures
        final(keys)@ == add_key(old(keys)@, key),
        final(keys)@.no_duplicates(),
        final(adj).len() == final(keys).len(),
        forall|j: int|
            0 <= j < final(keys).len() ==> (#[trigger] final(adj)[j])@ == (if j < old(adj).len() {
                if final(keys)[j] == key {
                    old(adj)[j]@.push(entry)
                } else {
                    old(adj)[j]@
                }
            } else {
                seq![entry]
            }),
{
    match find_key(keys, key) {
        Some(k) => {
            assert(old(keys)@.contains(key));
            let mut list: Vec<(EntityId, usize)> = Vec::new();
            adj.set_and_swap(k, &mut list);
            list.push(entry);
            adj.set_and_swap(k, &mut list);
        },
        None => {
            keys.push(key);
            let mut list: Vec<(EntityId, usize)> = Vec::new();
            list.push(entry);
            adj.push(list);
        },
    }
}

/// A node that is no endpoint has an empty adjacency list.
pub proof fn lemma_no_entries(cs: Seq<DistanceConstraint>, x: EntityId)
    requires
        cs.len() <= usize::MAX,
        !is_endpoint(cs, x),
    ensures
        neighbor_entries(cs, x) == Seq::<(EntityId, usize)>::empty(),
{
    lemma_neighbor_entries(cs, x);
    let ne = neighbor_entries(cs, x);
    if ne.len() > 0 {
        let e = ne[0];
        assert(joins(cs[e.1 as int], x, e.0));
        assert(touches(cs[e.1 as int], x));
    }
    assert(ne =~= Seq::<(EntityId, usize)>::empty());
}

/// The adjacency lists of the graph that `cs` spells out, keyed in
/// first-occurrence order.
pub fn build_adjacency(cs: &Vec<DistanceConstraint>) -> (r: (Vec<EntityId>, Vec<Vec<(EntityId, usize)>>))
    ensures
        adjacency_of(cs@, r.0@, r.1@),
        r.0@.no_duplicates(),
{
    let mut keys: Vec<EntityId> = Vec::new();
    let mut adj: Vec<Vec<(EntityId, usize)>> = Vec::new();
    let mut i: usize = 0;
    assert(cs@.take(0) =~= Seq::<DistanceConstraint>::empty());
    while i < cs.len()
        invariant
            i <= cs.len(),
            adjacency_of(cs@.take(i as int), keys@, adj@),
            keys@.no_duplicates(),
        decreases cs.len() - i,
    {
        let c = cs[i];
        let ghost pre = cs@.take(i as int);
        let ghost t = cs@.take(i + 1);
        let ghost keys0 = keys@;
        let ghost adj0 = adj@;
        add_entry(&mut keys, &mut adj, c.node_a, (c.node_b, i));
        let ghost keys1 = keys@;
        let ghost adj1 = adj@;
        add_entry(&mut keys, &mut adj, c.node_b, (c.node_a, i));
        proof {
            assert(t.drop_last() =~= pre);
            assert(t.last() == c);
            assert(endpoint_order(t) == add_key(add_key(endpoint_order(pre), c.node_a), c.node_b));
            lemma_endpoint_order(pre);
            assert forall|j: int| 0 <= j < keys.len() implies (#[trigger] adj[j])@ == neighbor_entries(t, keys[j]) by {
                let x = keys[j];
                assert(neighbor_entries(t, x) == neighbor_entries(pre, x) + entries_for(c, i as int, x));
                if j < keys0.len() {
                    assert(keys0[j] == x);
                    assert(keys1[j] == x);
                    assert(adj0[j]@ == neighbor_entries(pre, x));
                    if x == c.node_a && x == c.node_b {
                        assert(adj[j]@ =~= neighbor_entries(pre, x) + entries_for(c, i as int, x));
                    } else if x == c.node_a {
                        assert(adj[j]@ =~= neighbor_entries(pre, x) + entries_for(c, i as int, x));
                    } else if x == c.node_b {
                        assert(adj[j]@ =~= neighbor_entries(pre, x) + entries_for(c, i as int, x));
                    } else {
                        assert(adj[j]@ =~= neighbor_entries(pre, x) + entries_for(c, i as int, x));
                    }
                } else {
                    assert forall|k: int| 0 <= k < keys0.len() implies keys[k] == keys0[k] by {
                        assert(keys1[k] == keys0[k]);
                    }
                    if keys0.contains(x) {
                        let k = choose|k: int| 0 <= k < keys0.len() && keys0[k] == x;
                        assert(keys[k] == x);
                    }
                    assert(!keys0.contains(x));
                    assert(!is_endpoint(pre, x));
                    lemma_no_entries(pre, x);
                    if j < keys1.len() {
                        assert(keys1[j] == x);
                        assert(x == c.node_a);
                        assert(adj[j]@ =~= neighbor_entries(pre, x) + entries_for(c, i as int, x));
                    } else {
                        assert(x == c.node_b);
                        lemma_add_key_contains(keys0, c.node_a);
                        if x == c.node_a {
                            let k = choose|k: int| 0 <= k < keys1.len() && keys1[k] == x;
                            assert(keys[k] == keys1[k]);
                        }
                        assert(x != c.node_a);
                        assert(adj[j]@ =~= neighbor_entries(pre, x) + entries_for(c, i as int, x));
                    }
                }
            }
        }
        i = i + 1;
    }
    assert(cs@.take(cs.len() as int) =~= cs@);
    (keys, adj)
}

// ---------------------------------------------------------------------------
// Labelling the connected components
// ---------------------------------------------------------------------------

/// The position of `e` among `keys` (meaningful when `keys` holds `e`).
pub open spec fn pos_of(keys: Seq<EntityId>, e: EntityId) -> int {
    choose|k: int| 0 <= k < keys.len() && keys[k] == e
}

pub proof fn lemma_pos_of(keys: Seq<EntityId>, e: EntityId)
    requires
        keys.contains(e),
        keys.no_duplicates(),
    ensures
        0 <= pos_of(keys, e) < keys.len(),
        keys[pos_of(keys, e)] == e,
        forall|k: int| 0 <= k < keys.len() && keys[k] == e ==> k == pos_of(keys, e),
{
}

/// How many nodes are still unlabelled.
pub open spec fn count_none(s: Seq<Option<u32>>) -> nat
    decreases s.len(),
{
    if s.len() == 0 {
        0
    } else {
        count_none(s.drop_last()) + if s.last() is None {
            1nat
        } else {
            0nat
        }
    }
}

pub proof fn lemma_count_none_update(s: Seq<Option<u32>>, i: int, v: u32)
    requires
        0 <= i < s.len(),
        s[i] is None,
    ensures
        count_none(s.update(i, Some(v))) + 1 == count_none(s),
    decreases s.len(),
{
    let t = s.update(i, Some(v));
    if i < s.len() - 1 {
        assert(t.drop_last() =~= s.drop_last().update(i, Some(v)));
        lemma_count_none_update(s.drop_last(), i, v);
    } else {
        assert(t.drop_last() =~= s.drop_last());
    }
}

/// Every neighbour of the node at `p` has a label.
pub open spec fn done_at(
    cs: Seq<DistanceConstraint>,
    keys: Seq<EntityId>,
    labels: Seq<Option<u32>>,
    p: int,
) -> bool {
    forall|y: EntityId| #[trigger]
        linked(cs, keys[p], y) ==> keys.contains(y) && labels[pos_of(keys, y)] is Some
}

/// No link leaves group `h`.
pub open spec fn closed(
    cs: Seq<DistanceConstraint>,
    keys: Seq<EntityId>,
    labels: Seq<Option<u32>>,
    h: u32,
) -> bool {
    forall|j: int, y: EntityId|
        0 <= j < labels.len() && labels[j] == Some(h) && #[trigger] linked(cs, keys[j], y)
            ==> keys.contains(y) && labels[pos_of(keys, y)] == Some(h)
}

/// Group `h` is complete: it started at `starts[h]`, is closed, every member is
/// reachable from its start, and `mins[h]` is a member of least slot index.
pub open spec fn group_ok(
    cs: Seq<DistanceConstraint>,
    keys: Seq<EntityId>,
    labels: Seq<Option<u32>>,
    starts: Seq<EntityId>,
    mins: Seq<EntityId>,
    h: u32,
) -> bool {
    &&& keys.contains(starts[h as int])
    &&& labels[pos_of(keys, starts[h as int])] == Some(h)
    &&& keys.contains(mins[h as int])
    &&& labels[pos_of(keys, mins[h as int])] == Some(h)
    &&& closed(cs, keys, labels, h)
    &&& forall|j: int|
        0 <= j < labels.len() && #[trigger] labels[j] == Some(h) ==> mins[h as int].index
            <= keys[j].index && connected(cs, starts[h as int], keys[j])
}

/// The start of a group has no more bits than any node of a later group, or
/// any node not labelled yet.
pub open spec fn order_ok(
    keys: Seq<EntityId>,
    labels: Seq<Option<u32>>,
    starts: Seq<EntityId>,
    bound: u32,
) -> bool {
    forall|j: int, h: u32|
        0 <= j < labels.len() && h < bound && (#[trigger] labels[j] is None || h < labels[j]->0)
            ==> (#[trigger] starts[h as int]).bits <= keys[j].bits
}

/// Groups `0..g` are labelled and complete.
pub open spec fn groups_done(
    cs: Seq<DistanceConstraint>,
    keys: Seq<EntityId>,
    labels: Seq<Option<u32>>,
    starts: Seq<EntityId>,
    mins: Seq<EntityId>,
    g: u32,
) -> bool {
    &&& labels.len() == keys.len()
    &&& starts.len() == g
    &&& mins.len() == g
    &&& forall|j: int| 0 <= j < labels.len() && (#[trigger] labels[j]) is Some ==> labels[j]->0 < g
    &&& forall|h: u32| h < g ==> #[trigger] group_ok(cs, keys, labels, starts, mins, h)
    &&& order_ok(keys, labels, starts, g)
    &&& g + count_none(labels) <= labels.len()
}

/// Labelling an unlabelled node with `g` keeps every finished group `h < g` as it was.
pub proof fn lemma_label_keeps_groups(
    cs: Seq<DistanceConstraint>,
    keys: Seq<EntityId>,
    labels: Seq<Option<u32>>,
    starts: Seq<EntityId>,
    mins: Seq<EntityId>,
    p: int,
    g: u32,
    h: u32,
)
    requires
        0 <= p < labels.len(),
        keys.len() == labels.len(),
        labels[p] is None,
        h < g,
        group_ok(cs, keys, labels, starts, mins, h),
    ensures
        group_ok(cs, keys, labels.update(p, Some(g)), starts, mins, h),
{
    let l2 = labels.update(p, Some(g));
    assert forall|j: int, y: EntityId|
        0 <= j < l2.len() && l2[j] == Some(h) && #[trigger] linked(cs, keys[j], y) implies keys.contains(y)
            && l2[pos_of(keys, y)] == Some(h) by {
        assert(labels[j] == Some(h));
        let q = pos_of(keys, y);
        assert(labels[q] == Some(h));
        assert(q != p);
    }
    assert forall|j: int| 0 <= j < l2.len() && #[trigger] l2[j] == Some(h) implies mins[h as int].index
        <= keys[j].index && connected(cs, starts[h as int], keys[j]) by {
        assert(labels[j] == Some(h));
    }
}

/// The position of an unlabelled node of least `bits`, if any node is unlabelled.
fn min_unlabeled(keys: &Vec<EntityId>, labels: &Vec<Option<u32>>) -> (r: Option<usize>)
    requires
        keys.len() == labels.len(),
    ensures
        match r {
            Some(p) => p < labels.len() && labels[p as int] is None && (forall|j: int|
                0 <= j < labels.len() && labels[j] is None ==> keys[p as int].bits <= keys[j].bits)
                && first_least(keys@, labels@, p as int),
            None => forall|j: int| 0 <= j < labels.len() ==> labels[j] is Some,
        },
{
    let mut best: Option<usize> = None;
    let mut i: usize = 0;
    while i < labels.len()
        invariant
            i <= labels.len(),
            keys.len() == labels.len(),
            match best {
                Some(p) => p < i && labels[p as int] is None && (forall|j: int|
                    0 <= j < i && labels[j] is None ==> keys[p as int].bits <= keys[j].bits) && (forall|j: int|
                    0 <= j < p && labels[j] is None ==> keys[p as int].bits < keys[j].bits),
                None => forall|j: int| 0 <= j < i ==> labels[j] is Some,
            },
        decreases labels.len() - i,
    {
        if labels[i].is_none() {
            match best {
                Some(p) => {
                    if keys[i].bits < keys[p].bits {
                        best = Some(i);
                    }
                },
                None => {
                    best = Some(i);
                },
            }
        }
        i = i + 1;
    }
    best
}

pub proof fn lemma_done_stable(
    cs: Seq<DistanceConstraint>,
    keys: Seq<EntityId>,
    labels: Seq<Option<u32>>,
    p: int,
    q: int,
    g: u32,
)
    requires
        0 <= q < labels.len(),
        0 <= p < keys.len(),
        keys.len() == labels.len(),
        done_at(cs, keys, labels, p),
    ensures
        done_at(cs, keys, labels.update(q, Some(g)), p),
{
    let l2 = labels.update(q, Some(g));
    assert forall|y: EntityId| #[trigger] linked(cs, keys[p], y) implies keys.contains(y)
        && l2[pos_of(keys, y)] is Some by {
        assert(keys.contains(y) && labels[pos_of(keys, y)] is Some);
        if pos_of(keys, y) != q {
            assert(l2[pos_of(keys, y)] == labels[pos_of(keys, y)]);
        }
    }
}

/// An entry of the list of `x` names a node linked to `x`.
pub proof fn lemma_entry_linked(cs: Seq<DistanceConstraint>, x: EntityId, k: int)
    requires
        cs.len() <= usize::MAX,
        0 <= k < neighbor_entries(cs, x).len(),
    ensures
        linked(cs, x, neighbor_entries(cs, x)[k].0),
        endpoint_order(cs).contains(neighbor_entries(cs, x)[k].0),
{
    lemma_neighbor_entries(cs, x);
    let e = neighbor_entries(cs, x)[k];
    assert(joins(cs[e.1 as int], x, e.0));
    lemma_linked_endpoints(cs, x, e.0);
}

/// Labels with `g` the unlabelled node at `sp`, whose `bits` are least among
/// the unlabelled, and every node reachable from it.
#[verifier::rlimit(80)]
fn label_group(
    keys: &Vec<EntityId>,
    adj: &Vec<Vec<(EntityId, usize)>>,
    labels: &mut Vec<Option<u32>>,
    mins: &mut Vec<EntityId>,
    sp: usize,
    g: u32,
    Ghost(cs): Ghost<Seq<DistanceConstraint>>,
    Ghost(starts): Ghost<Seq<EntityId>>,
)
    requires
        cs.len() <= usize::MAX,
        keys.len() <= u32::MAX,
        adjacency_of(cs, keys@, adj@),
        keys@.no_duplicates(),
        groups_done(cs, keys@, old(labels)@, starts, old(mins)@, g),
        sp < keys.len(),
        old(labels)@[sp as int] is None,
        forall|j: int|
            0 <= j < old(labels).len() && old(labels)@[j] is None ==> keys[sp as int].bits
                <= keys[j].bits,
    ensures
        g < u32::MAX,
        groups_done(
            cs,
            keys@,
            final(labels)@,
            starts.push(keys[sp as int]),
            final(mins)@,
            (g + 1) as u32,
        ),
        count_none(final(labels)@) < count_none(old(labels)@),
        final(labels)@ == walk_group(
            keys@,
            adj@,
            old(labels)@.update(sp as int, Some(g)),
            seq![sp],
            g,
            keys[sp as int],
            group_fuel(keys.len() as nat),
        ).0,
        final(mins)@ == old(mins)@.push(
            walk_group(
                keys@,
                adj@,
                old(labels)@.update(sp as int, Some(g)),
                seq![sp],
                g,
                keys[sp as int],
                group_fuel(keys.len() as nat),
            ).1,
        ),
{
    let ghost st = starts.push(keys[sp as int]);
    let ghost l0 = labels@;
    let ghost m0 = mins@;
    let ghost n = keys.len();
    proof {
        lemma_count_none_update(l0, sp as int, g);
        assert(g < u32::MAX);
        assert forall|h: u32| h < g implies #[trigger] group_ok(
            cs,
            keys@,
            l0.update(sp as int, Some(g)),
            starts,
            m0,
            h,
        ) by {
            lemma_label_keeps_groups(cs, keys@, l0, starts, m0, sp as int, g, h);
        }
    }
    labels.set(sp, Some(g));
    mins.push(keys[sp]);
    proof {
        assert forall|h: u32| h < g implies #[trigger] group_ok(cs, keys@, labels@, st, mins@, h) by {
            assert(group_ok(cs, keys@, labels@, starts, m0, h));
            assert(st[h as int] == starts[h as int]);
            assert(mins@[h as int] == m0[h as int]);
        }
        assert forall|j: int, h: u32|
            0 <= j < labels.len() && h < g + 1 && (#[trigger] labels@[j] is None || h
                < labels@[j]->0) implies (#[trigger] st[h as int]).bits <= keys[j].bits by {
            if h < g {
                assert(st[h as int] == starts[h as int]);
                assert(l0[j] is None || h < l0[j]->0);
            } else {
                assert(l0[j] is None);
            }
        }
        lemma_pos_of(keys@, keys[sp as int]);
        lemma_connected_refl(cs, keys[sp as int]);
    }
    let mut stack: Vec<usize> = Vec::new();
    stack.push(sp);
    assert(stack@ =~= seq![sp]);
    assert(labels@ == l0.update(sp as int, Some(g)));
    let ghost target = walk_group(keys@, adj@, labels@, stack@, g, keys[sp as int], group_fuel(n as nat));
    let ghost mut fl: nat = group_fuel(n as nat);
    let ghost mut popped: Set<int> = Set::empty();
    proof {
        assert forall|j: int|
            0 <= j < labels.len() && #[trigger] labels@[j] == Some(g) implies stack@.contains(
                j as usize,
            ) || popped.contains(j) by {
            if j != sp {
                assert(l0[j] is Some);
            }
            assert(stack@[0] == sp);
        }
    }
    while stack.len() > 0
        invariant
            cs.len() <= usize::MAX,
            adjacency_of(cs, keys@, adj@),
            keys@.no_duplicates(),
            n == keys.len(),
            labels.len() == n,
            mins.len() == g + 1,
            st.len() == g + 1,
            st[g as int] == keys[sp as int],
            sp < n,
            g + 1 + count_none(labels@) <= n,
            count_none(labels@) < count_none(l0),
            target == walk_group(keys@, adj@, labels@, stack@, g, mins@[g as int], fl),
            fl >= 2 * count_none(labels@) + stack.len(),
            m0.len() == g,
            mins@ == m0.push(mins@[g as int]),
            forall|j: int|
                0 <= j < labels.len() && (#[trigger] labels@[j]) is Some ==> labels@[j]->0 <= g,
            forall|h: u32| h < g ==> #[trigger] group_ok(cs, keys@, labels@, st, mins@, h),
            order_ok(keys@, labels@, st, (g + 1) as u32),
            labels@[sp as int] == Some(g),
            keys@.contains(mins@[g as int]),
            labels@[pos_of(keys@, mins@[g as int])] == Some(g),
            forall|j: int|
                0 <= j < labels.len() && #[trigger] labels@[j] == Some(g) ==> connected(
                    cs,
                    keys[sp as int],
                    keys[j],
                ),
            forall|i: int|
                0 <= i < stack.len() ==> #[trigger] stack@[i] < n && labels@[stack@[i] as int]
                    == Some(g),
            forall|p: int|
                #[trigger] popped.contains(p) ==> 0 <= p < n && labels@[p] == Some(g) && done_at(
                    cs,
                    keys@,
                    labels@,
                    p,
                ) && mins@[g as int].index <= keys[p].index,
            forall|j: int|
                0 <= j < labels.len() && #[trigger] labels@[j] == Some(g) ==> stack@.contains(
                    j as usize,
                ) || popped.contains(j),
        decreases 2 * count_none(labels@) + stack.len(),
    {
        let ghost d0 = 2 * count_none(labels@) + stack.len();
        let ghost s0 = stack@;
        let ghost big_l = labels@;
        let x = stack.pop().unwrap();
        let ghost sd = stack@;
        assert(labels@[x as int] == Some(g));
        proof {
            assert(stack@ == s0.drop_last());
            assert forall|j: int|
                0 <= j < labels.len() && #[trigger] labels@[j] == Some(g) implies stack@.contains(
                    j as usize,
                ) || popped.contains(j) || j == x by {
                if s0.contains(j as usize) && j != x {
                    let i = choose|i: int| 0 <= i < s0.len() && s0[i] == j as usize;
                    assert(i != s0.len() - 1);
                    assert(stack@[i] == j as usize);
                }
            }
        }
        if keys[x].index < mins[g as usize].index {
            let ghost m1 = mins@;
            mins.set(g as usize, keys[x]);
            proof {
                lemma_pos_of(keys@, keys[x as int]);
                assert forall|h: u32| h < g implies #[trigger] group_ok(cs, keys@, labels@, st, mins@, h) by {
                    assert(group_ok(cs, keys@, labels@, st, m1, h));
                    assert(mins@[h as int] == m1[h as int]);
                }
            }
        }
        let list = &adj[x];
        assert(list@ == neighbor_entries(cs, keys[x as int]));
        proof {
            assert(mins@ =~= m0.push(mins@[g as int]));
            assert(s0.drop_last() == sd);
            assert(s0.last() == x);
            assert(target == walk_group(
                keys@,
                adj@,
                spread(keys@, adj@[x as int]@, big_l, sd, g).0,
                spread(keys@, adj@[x as int]@, big_l, sd, g).1,
                g,
                mins@[g as int],
                (fl - 1) as nat,
            ));
            assert(list@.skip(0) =~= list@);
        }
        let mut k: usize = 0;
        while k < list.len()
            invariant
                cs.len() <= usize::MAX,
                adjacency_of(cs, keys@, adj@),
                keys@.no_duplicates(),
                n == keys.len(),
                labels.len() == n,
                mins.len() == g + 1,
                st.len() == g + 1,
                st[g as int] == keys[sp as int],
                sp < n,
                x < n,
                list@ == neighbor_entries(cs, keys[x as int]),
                list@ == adj@[x as int]@,
                k <= list.len(),
                fl >= 1,
                d0 <= fl,
                target == walk_group(
                    keys@,
                    adj@,
                    spread(keys@, list@, big_l, sd, g).0,
                    spread(keys@, list@, big_l, sd, g).1,
                    g,
                    mins@[g as int],
                    (fl - 1) as nat,
                ),
                spread(keys@, list@, big_l, sd, g) == spread(keys@, list@.skip(k as int), labels@, stack@, g),
                m0.len() == g,
                mins@ == m0.push(mins@[g as int]),
                g + 1 + count_none(labels@) <= n,
                count_none(labels@) < count_none(l0),
                2 * count_none(labels@) + stack.len() < d0,
                forall|j: int|
                    0 <= j < labels.len() && (#[trigger] labels@[j]) is Some ==> labels@[j]->0 <= g,
                forall|h: u32| h < g ==> #[trigger] group_ok(cs, keys@, labels@, st, mins@, h),
                order_ok(keys@, labels@, st, (g + 1) as u32),
                labels@[sp as int] == Some(g),
                labels@[x as int] == Some(g),
                mins@[g as int].index <= keys[x as int].index,
                keys@.contains(mins@[g as int]),
                labels@[pos_of(keys@, mins@[g as int])] == Some(g),
                forall|j: int|
                    0 <= j < labels.len() && #[trigger] labels@[j] == Some(g) ==> connected(
                        cs,
                        keys[sp as int],
                        keys[j],
                    ),
                forall|i: int|
                    0 <= i < stack.len() ==> #[trigger] stack@[i] < n && labels@[stack@[i] as int]
                        == Some(g),
                forall|p: int|
                    #[trigger] popped.contains(p) ==> 0 <= p < n && labels@[p] == Some(g)
                        && done_at(cs, keys@, labels@, p) && mins@[g as int].index <= keys[p].index,
                forall|j: int|
                    0 <= j < labels.len() && #[trigger] labels@[j] == Some(g) ==> stack@.contains(
                        j as usize,
                    ) || popped.contains(j) || j == x,
                forall|k2: int|
                    0 <= k2 < k ==> keys@.contains(#[trigger] list@[k2].0) && labels@[pos_of(
                        keys@,
                        list@[k2].0,
                    )] is Some,
            decreases list.len() - k,
        {
            let y = list[k].0;
            proof {
                lemma_entry_linked(cs, keys[x as int], k as int);
                let sk = list@.skip(k as int);
                assert(sk[0] == list@[k as int]);
                assert(sk.drop_first() =~= list@.skip(k + 1));
            }
            let ghost lk = labels@;
            let ghost sk0 = stack@;
            match find_key(keys, y) {
                Some(py) => {
                    proof {
                        lemma_pos_of(keys@, y);
                        assert(pos_of(keys@, y) == py);
                    }
                    if labels[py].is_none() {
                        let ghost l1 = labels@;
                        proof {
                            lemma_count_none_update(l1, py as int, g);
                            assert forall|h: u32| h < g implies #[trigger] group_ok(
                                cs,
                                keys@,
                                l1.update(py as int, Some(g)),
                                st,
                                mins@,
                                h,
                            ) by {
                                lemma_label_keeps_groups(cs, keys@, l1, st, mins@, py as int, g, h);
                            }
                            assert forall|p: int| #[trigger] popped.contains(p) implies done_at(
                                cs,
                                keys@,
                                l1.update(py as int, Some(g)),
                                p,
                            ) by {
                                lemma_done_stable(cs, keys@, l1, p, py as int, g);
                            }
                            assert(connected(cs, keys[sp as int], keys[x as int]));
                            lemma_connected_step(cs, keys[sp as int], keys[x as int], y);
                        }
                        let ghost s1 = stack@;
                        labels.set(py, Some(g));
                        stack.push(py);
                        proof {
                            assert(stack@ == s1.push(py));
                            assert forall|j: int|
                                0 <= j < labels.len() && #[trigger] labels@[j] == Some(
                                    g,
                                ) implies stack@.contains(j as usize) || popped.contains(j) || j
                                == x by {
                                if j == py {
                                    assert(stack@[stack.len() - 1] == py);
                                } else {
                                    assert(l1[j] == Some(g));
                                    if s1.contains(j as usize) {
                                        let i = choose|i: int|
                                            0 <= i < s1.len() && s1[i] == j as usize;
                                        assert(stack@[i] == j as usize);
                                    }
                                }
                            }
                            assert forall|j: int|
                                0 <= j < labels.len() && #[trigger] labels@[j] == Some(
                                    g,
                                ) implies connected(cs, keys[sp as int], keys[j]) by {
                                if j != py {
                                    assert(l1[j] == Some(g));
                                }
                            }
                            assert forall|k2: int| 0 <= k2 < k + 1 implies keys@.contains(
                                #[trigger] list@[k2].0,
                            ) && labels@[pos_of(keys@, list@[k2].0)] is Some by {
                                if k2 < k {
                                    assert(l1[pos_of(keys@, list@[k2].0)] is Some);
                                }
                            }
                        }
                    }
                },
                None => {
                    proof {
                        assert(false);
                    }
                },
            }
            proof {
                let sk = list@.skip(k as int);
                if keys@.contains(y) && lk[pos_of(keys@, y)] is None {
                    assert(labels@ == lk.update(pos_of(keys@, y), Some(g)));
                    assert(stack@ == sk0.push(pos_of(keys@, y) as usize));
                } else {
                    assert(labels@ == lk);
                    assert(stack@ == sk0);
                }
                assert(spread(keys@, sk, lk, sk0, g) == spread(keys@, list@.skip(k + 1), labels@, stack@, g));
            }
            k = k + 1;
        }
        proof {
            assert(k == list.len());
            assert(list@.skip(list.len() as int) =~= Seq::<(EntityId, usize)>::empty());
            assert(spread(keys@, list@.skip(list.len() as int), labels@, stack@, g) == (labels@, stack@));
            assert(spread(keys@, list@, big_l, sd, g) == (labels@, stack@));
            assert(target == walk_group(keys@, adj@, labels@, stack@, g, mins@[g as int], (fl - 1) as nat));
            fl = (fl - 1) as nat;
            assert forall|y: EntityId| #[trigger] linked(cs, keys[x as int], y) implies keys@.contains(y)
                && labels@[pos_of(keys@, y)] is Some by {
                let i = choose|i: int| 0 <= i < cs.len() && #[trigger] joins(cs[i], keys[x as int], y);
                lemma_neighbor_entries(cs, keys[x as int]);
                assert(list@.contains((y, i as usize)));
                let k2 = choose|k2: int| 0 <= k2 < list@.len() && list@[k2] == (y, i as usize);
                assert(keys@.contains(list@[k2].0));
            }
            popped = popped.insert(x as int);
        }
    }
    proof {
        let l = labels@;
        assert forall|j: int| 0 <= j < l.len() && #[trigger] l[j] == Some(g) implies popped.contains(
            j,
        ) by {
            assert(!stack@.contains(j as usize));
        }
        assert forall|j: int, y: EntityId|
            0 <= j < l.len() && l[j] == Some(g) && #[trigger] linked(cs, keys[j], y) implies keys@.contains(y)
                && l[pos_of(keys@, y)] == Some(g) by {
            assert(popped.contains(j));
            assert(done_at(cs, keys@, l, j));
            let q = pos_of(keys@, y);
            assert(l[q] is Some);
            let h = l[q]->0;
            if h < g {
                assert(group_ok(cs, keys@, l, st, mins@, h));
                lemma_linked_endpoints(cs, keys[j], y);
                assert(linked(cs, keys[q], keys[j]));
                lemma_pos_of(keys@, keys[j]);
                assert(l[pos_of(keys@, keys[j])] == Some(h));
            }
        }
        assert(closed(cs, keys@, l, g));
        lemma_pos_of(keys@, keys[sp as int]);
        assert(group_ok(cs, keys@, l, st, mins@, g));
        assert forall|h: u32| h < g + 1 implies #[trigger] group_ok(cs, keys@, l, st, mins@, h) by {
        }
    }
}

/// The labels and the stack once the entries of `list` are looked at in
/// order: each neighbour that is a node without a label gets `g` and goes on
/// the stack.
pub open spec fn spread(
    keys: Seq<EntityId>,
    list: Seq<(EntityId, usize)>,
    labels: Seq<Option<u32>>,
    stack: Seq<usize>,
    g: u32,
) -> (Seq<Option<u32>>, Seq<usize>)
    decreases list.len(),
{
    if list.len() == 0 {
        (labels, stack)
    } else {
        let y = list[0].0;
        let p = pos_of(keys, y);
        if keys.contains(y) && labels[p] is None {
            spread(keys, list.drop_first(), labels.update(p, Some(g)), stack.push(p as usize), g)
        } else {
            spread(keys, list.drop_first(), labels, stack, g)
        }
    }
}

/// The steps a walk over one body may take: two per node, and one more.
pub open spec fn group_fuel(n: nat) -> nat {
    2 * n + 1
}

/// The depth-first walk that labels body `g`: it takes the last node off the
/// stack, keeps it as the body's node of least slot index when its slot index
/// is smaller than that of the node kept so far (so the first such node met
/// stays), and spreads to the node's neighbours. The labels, and the node
/// kept, once the stack is empty.
pub open spec fn walk_group(
    keys: Seq<EntityId>,
    adj: Seq<Vec<(EntityId, usize)>>,
    labels: Seq<Option<u32>>,
    stack: Seq<usize>,
    g: u32,
    m: EntityId,
    fuel: nat,
) -> (Seq<Option<u32>>, EntityId)
    decreases fuel,
{
    if fuel == 0 || stack.len() == 0 {
        (labels, m)
    } else {
        let x = stack.last() as int;
        let m2 = if keys[x].index < m.index {
            keys[x]
        } else {
            m
        };
        let t = spread(keys, adj[x]@, labels, stack.drop_last(), g);
        walk_group(keys, adj, t.0, t.1, g, m2, (fuel - 1) as nat)
    }
}

/// `p` is the first position, among the unlabelled ones, of least `bits`.
pub open spec fn first_least(keys: Seq<EntityId>, labels: Seq<Option<u32>>, p: int) -> bool {
    &&& 0 <= p < labels.len()
    &&& labels[p] is None
    &&& forall|j: int| 0 <= j < labels.len() && labels[j] is None ==> keys[p].bits <= keys[j].bits
    &&& forall|j: int| 0 <= j < p && labels[j] is None ==> keys[p].bits < keys[j].bits
}

/// The first unlabelled position of least `bits`, if any node is unlabelled.
pub open spec fn least_unlabeled(keys: Seq<EntityId>, labels: Seq<Option<u32>>) -> Option<int> {
    if exists|p: int| #[trigger] first_least(keys, labels, p) {
        Some(choose|p: int| #[trigger] first_least(keys, labels, p))
    } else {
        None
    }
}

pub proof fn lemma_first_least_unique(keys: Seq<EntityId>, labels: Seq<Option<u32>>, p: int, q: int)
    requires
        first_least(keys, labels, p),
        first_least(keys, labels, q),
    ensures
        p == q,
{
}

/// The labelling of all bodies: while a node is unlabelled, the one of least
/// `bits` (the first of them) starts the next body, whose depth-first walk
/// labels it and gives its node of least slot index. The labels and those
/// nodes, body by body.
pub open spec fn label_run(
    keys: Seq<EntityId>,
    adj: Seq<Vec<(EntityId, usize)>>,
    labels: Seq<Option<u32>>,
    mins: Seq<EntityId>,
    g: u32,
    fuel: nat,
) -> (Seq<Option<u32>>, Seq<EntityId>)
    decreases fuel,
{
    if fuel == 0 {
        (labels, mins)
    } else {
        match least_unlabeled(keys, labels) {
            None => (labels, mins),
            Some(sp) => {
                let t = walk_group(
                    keys,
                    adj,
                    labels.update(sp, Some(g)),
                    seq![sp as usize],
                    g,
                    keys[sp],
                    group_fuel(keys.len()),
                );
                label_run(keys, adj, t.0, mins.push(t.1), (g + 1) as u32, (fuel - 1) as nat)
            },
        }
    }
}

/// The nodes of least slot index, body by body, that the labelling of the
/// nodes `keys` with adjacency lists `adj` keeps.
pub open spec fn body_min_nodes(keys: Seq<EntityId>, adj: Seq<Vec<(EntityId, usize)>>) -> Seq<EntityId> {
    label_run(
        keys,
        adj,
        Seq::new(keys.len(), |j: int| None::<u32>),
        Seq::empty(),
        0,
        (keys.len() + 1) as nat,
    ).1
}

/// What a labelling of the nodes into bodies must be: `groups[j]` is the body
/// of `keys[j]` and `mins[h]` the node of least slot index of body `h`.
///
/// Two nodes share a body exactly when a walk links them; every body has a
/// member, its least-index node; and the bodies are numbered in the order of
/// their nodes' `bits`: a body with a smaller number holds a node whose `bits`
/// do not exceed those of any node of a body with a larger number.
pub open spec fn components_ok(
    cs: Seq<DistanceConstraint>,
    keys: Seq<EntityId>,
    groups: Seq<u32>,
    mins: Seq<EntityId>,
) -> bool {
    &&& groups.len() == keys.len()
    &&& forall|j: int| 0 <= j < groups.len() ==> #[trigger] groups[j] < mins.len()
    &&& forall|j: int, k: int|
        0 <= j < groups.len() && 0 <= k < groups.len() ==> (#[trigger] groups[j] == #[trigger] groups[k]
            <==> connected(cs, keys[j], keys[k]))
    &&& forall|h: int|
        0 <= h < mins.len() ==> keys.contains(#[trigger] mins[h]) && groups[pos_of(keys, mins[h])]
            == h
    &&& forall|j: int| 0 <= j < groups.len() ==> mins[#[trigger] groups[j] as int].index <= keys[j].index
    &&& forall|j: int, k: int|
        0 <= j < groups.len() && 0 <= k < groups.len() && #[trigger] groups[j] < #[trigger] groups[k]
            ==> exists|w: int|
            0 <= w < groups.len() && groups[w] == groups[j] && forall|z: int|
                0 <= z < groups.len() && groups[z] == groups[k] ==> keys[w].bits <= #[trigger] keys[z].bits
}

pub proof fn lemma_walk_stays(
    cs: Seq<DistanceConstraint>,
    keys: Seq<EntityId>,
    labels: Seq<Option<u32>>,
    h: u32,
    p: Seq<EntityId>,
    i: int,
)
    requires
        keys.len() == labels.len(),
        closed(cs, keys, labels, h),
        is_walk(cs, p),
        keys.contains(p[0]),
        labels[pos_of(keys, p[0])] == Some(h),
        0 <= i < p.len(),
    ensures
        keys.contains(p[i]),
        labels[pos_of(keys, p[i])] == Some(h),
    decreases i,
{
    if i > 0 {
        lemma_walk_stays(cs, keys, labels, h, p, i - 1);
        assert(step_ok(cs, p, i - 1));
        let j = pos_of(keys, p[i - 1]);
        assert(keys[j] == p[i - 1]);
        assert(linked(cs, keys[j], p[i]));
    }
}

proof fn lemma_final_groups(
    cs: Seq<DistanceConstraint>,
    keys: Seq<EntityId>,
    labels: Seq<Option<u32>>,
    starts: Seq<EntityId>,
    mins: Seq<EntityId>,
    g: u32,
    groups: Seq<u32>,
)
    requires
        keys.no_duplicates(),
        groups_done(cs, keys, labels, starts, mins, g),
        groups.len() == labels.len(),
        forall|j: int| 0 <= j < labels.len() ==> labels[j] == Some(#[trigger] groups[j]),
    ensures
        components_ok(cs, keys, groups, mins),
{
    let n = groups.len();
    assert forall|j: int| 0 <= j < n implies #[trigger] groups[j] < mins.len() by {
        assert(labels[j] == Some(groups[j]));
    }
    assert forall|j: int, k: int| 0 <= j < n && 0 <= k < n implies (#[trigger] groups[j]
        == #[trigger] groups[k] <==> connected(cs, keys[j], keys[k])) by {
        assert(labels[j] == Some(groups[j]));
        assert(labels[k] == Some(groups[k]));
        let h = groups[j];
        assert(group_ok(cs, keys, labels, starts, mins, h));
        if groups[j] == groups[k] {
            assert(connected(cs, starts[h as int], keys[j]));
            assert(connected(cs, starts[h as int], keys[k]));
            lemma_connected_sym(cs, starts[h as int], keys[j]);
            lemma_connected_trans(cs, keys[j], starts[h as int], keys[k]);
        }
        if connected(cs, keys[j], keys[k]) {
            let p = choose|p: Seq<EntityId>| #[trigger]
                is_walk(cs, p) && p[0] == keys[j] && p.last() == keys[k];
            lemma_pos_of(keys, keys[j]);
            lemma_walk_stays(cs, keys, labels, h, p, p.len() - 1);
            lemma_pos_of(keys, keys[k]);
        }
    }
    assert forall|h: int| 0 <= h < mins.len() implies keys.contains(#[trigger] mins[h])
        && groups[pos_of(keys, mins[h])] == h by {
        assert(group_ok(cs, keys, labels, starts, mins, h as u32));
        let j = pos_of(keys, mins[h]);
        lemma_pos_of(keys, mins[h]);
        assert(labels[j] == Some(groups[j]));
        assert(groups[j] == h);
    }
    assert forall|j: int| 0 <= j < n implies mins[#[trigger] groups[j] as int].index
        <= keys[j].index by {
        assert(labels[j] == Some(groups[j]));
        assert(group_ok(cs, keys, labels, starts, mins, groups[j]));
    }
    assert forall|j: int, k: int|
        0 <= j < n && 0 <= k < n && #[trigger] groups[j] < #[trigger] groups[k] implies exists|w: int|
        0 <= w < n && groups[w] == groups[j] && forall|z: int|
            0 <= z < n && groups[z] == groups[k] ==> keys[w].bits <= #[trigger] keys[z].bits by {
        let h = groups[j];
        assert(labels[j] == Some(h));
        assert(group_ok(cs, keys, labels, starts, mins, h));
        let w = pos_of(keys, starts[h as int]);
        assert(labels[w] == Some(groups[w]));
        assert forall|z: int| 0 <= z < n && groups[z] == groups[k] implies keys[w].bits
            <= #[trigger] keys[z].bits by {
            assert(labels[z] == Some(groups[z]));
            assert(h < labels[z]->0);
            assert(starts[h as int].bits <= keys[z].bits);
        }
    }
}

/// Labels every node with its body, numbering the bodies in the order of
/// their least `bits`, and finds each body's node of least slot index.
fn label_components(
    keys: &Vec<EntityId>,
    adj: &Vec<Vec<(EntityId, usize)>>,
    Ghost(cs): Ghost<Seq<DistanceConstraint>>,
) -> (r: (Vec<u32>, Vec<EntityId>))
    requires
        cs.len() <= usize::MAX,
        keys.len() <= u32::MAX,
        adjacency_of(cs, keys@, adj@),
        keys@.no_duplicates(),
    ensures
        components_ok(cs, keys@, r.0@, r.1@),
        r.1@ == body_min_nodes(keys@, adj@),
{
    let n = keys.len();
    let mut labels: Vec<Option<u32>> = Vec::new();
    let mut i: usize = 0;
    while i < n
        invariant
            i <= n,
            n == keys.len(),
            labels.len() == i,
            count_none(labels@) == i,
            forall|j: int| 0 <= j < i ==> labels@[j] is None,
        decreases n - i,
    {
        let ghost l = labels@;
        labels.push(None);
        assert(labels@.drop_last() == l);
        i = i + 1;
    }
    let mut mins: Vec<EntityId> = Vec::new();
    let mut g: u32 = 0;
    let ghost mut starts: Seq<EntityId> = Seq::empty();
    assert(labels@ =~= Seq::new(keys.len() as nat, |j: int| None::<u32>));
    assert(mins@ =~= Seq::<EntityId>::empty());
    let ghost mut fo: nat = (keys.len() + 1) as nat;
    loop
        invariant
            cs.len() <= usize::MAX,
            keys.len() <= u32::MAX,
            adjacency_of(cs, keys@, adj@),
            keys@.no_duplicates(),
            groups_done(cs, keys@, labels@, starts, mins@, g),
            label_run(keys@, adj@, labels@, mins@, g, fo).1 == body_min_nodes(keys@, adj@),
            fo >= count_none(labels@) + 1,
        ensures
            groups_done(cs, keys@, labels@, starts, mins@, g),
            forall|j: int| 0 <= j < labels.len() ==> labels@[j] is Some,
            mins@ == body_min_nodes(keys@, adj@),
        decreases count_none(labels@),
    {
        let next = min_unlabeled(keys, &labels);
        match next {
            None => {
                proof {
                    if exists|p: int| #[trigger] first_least(keys@, labels@, p) {
                        let p = choose|p: int| #[trigger] first_least(keys@, labels@, p);
                        assert(labels@[p] is Some);
                    }
                    assert(least_unlabeled(keys@, labels@) is None);
                }
                break ;
            },
            Some(sp) => {
                proof {
                    let q = choose|p: int| #[trigger] first_least(keys@, labels@, p);
                    lemma_first_least_unique(keys@, labels@, q, sp as int);
                    assert(least_unlabeled(keys@, labels@) == Some(sp as int));
                }
                let ghost l_before = labels@;
                let ghost m_before = mins@;
                label_group(keys, adj, &mut labels, &mut mins, sp, g, Ghost(cs), Ghost(starts));
                proof {
                    starts = starts.push(keys[sp as int]);
                    assert(label_run(keys@, adj@, l_before, m_before, g, fo) == label_run(
                        keys@,
                        adj@,
                        labels@,
                        mins@,
                        (g + 1) as u32,
                        (fo - 1) as nat,
                    ));
                    fo = (fo - 1) as nat;
                }
                g = g + 1;
            },
        }
    }
    let mut groups: Vec<u32> = Vec::new();
    let mut k: usize = 0;
    while k < n
        invariant
            k <= n,
            n == labels.len(),
            groups.len() == k,
            forall|j: int| 0 <= j < labels.len() ==> labels@[j] is Some,
            forall|j: int| 0 <= j < k ==> labels@[j] == Some(#[trigger] groups@[j]),
        decreases n - k,
    {
        match labels[k] {
            Some(h) => {
                groups.push(h);
            },
            None => {
                proof {
                    assert(false);
                }
            },
        }
        k = k + 1;
    }
    proof {
        lemma_final_groups(cs, keys@, labels@, starts, mins@, g, groups@);
    }
    (groups, mins)
}

// ---------------------------------------------------------------------------
// The graph resource
// ---------------------------------------------------------------------------

/// The constraint graph: adjacency lists and the bodies (connected groups)
/// of the nodes.
///
/// `keys[j]` is a node, `adjacency[j]` its list of `(neighbour, constraint
/// index)` entries and `node_groups[j]` its body; `group_min_nodes[h]` is the
/// node of least slot index of body `h`.
pub struct ConstraintGraph {
    pub keys: Vec<EntityId>,
    pub adjacency: Vec<Vec<(EntityId, usize)>>,
    pub node_groups: Vec<u32>,
    pub group_min_nodes: Vec<EntityId>,
}

impl ConstraintGraph {
    /// The parallel vectors agree in length, each node is held once and
    /// every body number names a body.
    pub open spec fn wf(&self) -> bool {
        &&& self.keys.len() == self.adjacency.len()
        &&& self.keys.len() == self.node_groups.len()
        &&& self.keys@.no_duplicates()
        &&& forall|j: int|
            0 <= j < self.node_groups.len() ==> #[trigger] self.node_groups@[j]
                < self.group_min_nodes.len()
    }

    /// The graph is the one that the constraints `cs` spell out.
    pub open spec fn describes(&self, cs: Seq<DistanceConstraint>) -> bool {
        &&& self.wf()
        &&& adjacency_of(cs, self.keys@, self.adjacency@)
        &&& components_ok(cs, self.keys@, self.node_groups@, self.group_min_nodes@)
    }

    /// An empty graph.
    pub fn new() -> (r: ConstraintGraph)
        ensures
            r.wf(),
            r.describes(Seq::empty()),
            r.keys@ == Seq::<EntityId>::empty(),
            r.group_min_nodes@ == Seq::<EntityId>::empty(),
    {
        let r = ConstraintGraph {
            keys: Vec::new(),
            adjacency: Vec::new(),
            node_groups: Vec::new(),
            group_min_nodes: Vec::new(),
        };
        assert(endpoint_order(Seq::<DistanceConstraint>::empty()) == Seq::<EntityId>::empty());
        r
    }

    /// Rebuilds the graph from the constraints: each endpoint becomes a node
    /// with its adjacency list, and the nodes are grouped into bodies. Of the
    /// nodes of least slot index in a body, the one kept is the first that the
    /// depth-first walk labelling the body meets.
    pub fn rebuild(&mut self, constraints: &Vec<DistanceConstraint>)
        requires
            constraints.len() <= 0x7fff_ffff,
        ensures
            final(self).describes(constraints@),
            final(self).group_min_nodes@ == body_min_nodes(final(self).keys@, final(self).adjacency@),
    {
        let (keys, adjacency) = build_adjacency(constraints);
        proof {
            lemma_endpoint_order(constraints@);
        }
        let (groups, mins) = label_components(&keys, &adjacency, Ghost(constraints@));
        self.keys = keys;
        self.adjacency = adjacency;
        self.node_groups = groups;
        self.group_min_nodes = mins;
    }

    /// The body of `node`, if it is a node of the graph.
    pub fn get_group(&self, node: EntityId) -> (r: Option<u32>)
        requires
            self.wf(),
        ensures
            match r {
                Some(g) => self.keys@.contains(node) && g == self.node_groups@[pos_of(
                    self.keys@,
                    node,
                )],
                None => !self.keys@.contains(node),
            },
    {
        match find_key(&self.keys, node) {
            Some(k) => {
                proof {
                    lemma_pos_of(self.keys@, node);
                }
                Some(self.node_groups[k])
            },
            None => None,
        }
    }

    /// The node of least slot index of body `group_id`, if there is such a body.
    pub fn get_group_min(&self, group_id: u32) -> (r: Option<EntityId>)
        ensures
            r == (if (group_id as int) < self.group_min_nodes.len() {
                Some(self.group_min_nodes@[group_id as int])
            } else {
                None
            }),
    {
        if (group_id as usize) < self.group_min_nodes.len() {
            Some(self.group_min_nodes[group_id as usize])
        } else {
            None
        }
    }

    /// The adjacency list of `x` as held, if `x` is a node of the graph.
    pub open spec fn list_of(&self, x: EntityId) -> Option<Seq<(EntityId, usize)>> {
        list_in(self.keys@, self.adjacency@, x)
    }

    /// The adjacency list of `node`, if it is a node of the graph.
    pub fn neighbors(&self, node: EntityId) -> (r: Option<&Vec<(EntityId, usize)>>)
        requires
            self.wf(),
        ensures
            match r {
                Some(list) => self.list_of(node) == Some(list@),
                None => self.list_of(node) is None,
            },
    {
        lookup_list(&self.keys, &self.adjacency, node)
    }
}

/// The list of `x` in adjacency lists held as `lists[j]` for node `keys[j]`.
pub open spec fn list_in(
    keys: Seq<EntityId>,
    lists: Seq<Vec<(EntityId, usize)>>,
    x: EntityId,
) -> Option<Seq<(EntityId, usize)>> {
    if keys.contains(x) {
        Some(lists[pos_of(keys, x)]@)
    } else {
        None
    }
}

/// Looks up the list of `x`.
pub fn lookup_list<'a>(
    keys: &Vec<EntityId>,
    lists: &'a Vec<Vec<(EntityId, usize)>>,
    x: EntityId,
) -> (r: Option<&'a Vec<(EntityId, usize)>>)
    requires
        keys.len() == lists.len(),
        keys@.no_duplicates(),
    ensures
        match r {
            Some(list) => list_in(keys@, lists@, x) == Some(list@),
            None => list_in(keys@, lists@, x) is None,
        },
{
    match find_key(keys, x) {
        Some(k) => {
            proof {
                lemma_pos_of(keys@, x);
            }
            Some(&lists[k])
        },
        None => None,
    }
}

/// The number of entries in all the lists together.
pub open spec fn entry_total(lists: Seq<Vec<(EntityId, usize)>>) -> int
    decreases lists.len(),
{
    if lists.len() == 0 {
        0
    } else {
        entry_total(lists.drop_last()) + lists.last().len()
    }
}

/// A bound on the steps of a walk along the lists: one more than the number
/// of entries, that is of (node, neighbour) pairs a walk can step along.
pub open spec fn walk_fuel(lists: Seq<Vec<(EntityId, usize)>>) -> nat {
    (entry_total(lists) + 1) as nat
}

/// Counts the entries of all the lists, plus one.
pub fn count_walk_fuel(lists: &Vec<Vec<(EntityId, usize)>>) -> (r: usize)
    requires
        entry_total(lists@) < usize::MAX,
    ensures
        r == walk_fuel(lists@),
{
    let mut total: usize = 0;
    let mut i: usize = 0;
    assert(lists@.take(0) =~= Seq::<Vec<(EntityId, usize)>>::empty());
    while i < lists.len()
        invariant
            i <= lists.len(),
            entry_total(lists@) < usize::MAX,
            total as int == entry_total(lists@.take(i as int)),
        decreases lists.len() - i,
    {
        proof {
            let t = lists@.take(i + 1);
            assert(t.drop_last() =~= lists@.take(i as int));
            lemma_entry_total_prefix(lists@, i + 1);
        }
        total = total + lists[i].len();
        i = i + 1;
    }
    assert(lists@.take(lists.len() as int) =~= lists@);
    total + 1
}

pub proof fn lemma_entry_total_prefix(lists: Seq<Vec<(EntityId, usize)>>, k: int)
    requires
        0 <= k <= lists.len(),
    ensures
        entry_total(lists.take(k)) <= entry_total(lists),
    decreases lists.len() - k,
{
    if k < lists.len() {
        lemma_entry_total_prefix(lists, k + 1);
        assert(lists.take(k + 1).drop_last() =~= lists.take(k));
    } else {
        assert(lists.take(k) =~= lists);
    }
}

} // verus!
