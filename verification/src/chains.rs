//! Chains: the spines of bodies, read off the constraint graph.
//!
//! A chain runs from an anchor or a loose end through the nodes that have
//! exactly two neighbours, and ends at the first node that does not. The
//! skin is drawn along such chains, and the constraint solver straightens
//! them one link after the other.

use vstd::prelude::*;

use crate::entity::EntityId;
use crate::graph::{
    ConstraintGraph, DistanceConstraint, adjacency_of, build_adjacency, count_walk_fuel,
    endpoint_order, entries_for, entry_total, is_endpoint, joins, lemma_endpoint_order,
    lemma_neighbor_entries,
    lemma_pos_of, linked, list_in, lookup_list, neighbor_entries, step_ok, is_walk, touches,
    walk_fuel,
};
use crate::node::{NodeType, kind_of, is_leg, is_anchor, find_kind, check_leg, check_anchor};
use crate::order::{strictly_sorted, sort_entities, lemma_sorted_unique};

verus! {

/// One link of a chain: a node, and the constraint that joins it to the next
/// node of the chain (none for the last node, whose rest length counts as 0).
#[derive(Clone, Copy, Debug, PartialEq, Eq)]
pub struct ChainLink {
    pub entity: EntityId,
    pub rest: Option<usize>,
}

/// The nodes of a chain, in order.
pub open spec fn chain_nodes(c: Seq<ChainLink>) -> Seq<EntityId> {
    c.map_values(|l: ChainLink| l.entity)
}

pub open spec fn chains_view(v: Seq<Vec<ChainLink>>) -> Seq<Seq<ChainLink>> {
    v.map_values(|c: Vec<ChainLink>| c@)
}

/// Of two entries, the one that does not lead back to `prev` (the second
/// when the first does).
pub open spec fn other_entry(nl: Seq<(EntityId, usize)>, prev: EntityId) -> (EntityId, usize) {
    if nl[0].0 == prev {
        nl[1]
    } else {
        nl[0]
    }
}

/// Adjacency as a map from a node to its list of `(neighbour, constraint)`
/// entries, none for a node without a list.
pub type Adjacency = spec_fn(EntityId) -> Option<Seq<(EntityId, usize)>>;

/// The adjacency that the graph resource holds.
pub open spec fn graph_adj(g: ConstraintGraph) -> Adjacency {
    |x: EntityId| g.list_of(x)
}

/// The adjacency that the constraints `cs` spell out.
pub open spec fn cs_adj(cs: Seq<DistanceConstraint>) -> Adjacency {
    |x: EntityId|
        if endpoint_order(cs).contains(x) {
            Some(neighbor_entries(cs, x))
        } else {
            None
        }
}

/// Lists held as `lists[j]` for `keys[j]` are the adjacency `adj`.
pub open spec fn held_as(adj: Adjacency, keys: Seq<EntityId>, lists: Seq<Vec<(EntityId, usize)>>) -> bool {
    forall|x: EntityId| #[trigger] list_in(keys, lists, x) == adj(x)
}

pub proof fn lemma_cs_adj_held(
    cs: Seq<DistanceConstraint>,
    keys: Seq<EntityId>,
    lists: Seq<Vec<(EntityId, usize)>>,
)
    requires
        adjacency_of(cs, keys, lists),
        keys.no_duplicates(),
    ensures
        held_as(cs_adj(cs), keys, lists),
{
    assert forall|x: EntityId| #[trigger] list_in(keys, lists, x) == cs_adj(cs)(x) by {
        if keys.contains(x) {
            lemma_pos_of(keys, x);
        }
    }
}

// ---------------------------------------------------------------------------
// Skin chains
// ---------------------------------------------------------------------------

/// `e` is not a leg (a node that does not exist counts as no leg).
pub open spec fn non_limb(kinds: Seq<(EntityId, NodeType)>, e: EntityId) -> bool {
    kind_of(kinds, e) != Some(NodeType::Leg)
}

/// The entries of `nb` that lead to nodes other than legs, in order.
pub open spec fn non_limb_entries(
    nb: Seq<(EntityId, usize)>,
    kinds: Seq<(EntityId, NodeType)>,
) -> Seq<(EntityId, usize)>
    decreases nb.len(),
{
    if nb.len() == 0 {
        Seq::empty()
    } else {
        non_limb_entries(nb.drop_last(), kinds) + if non_limb(kinds, nb.last().0) {
            seq![nb.last()]
        } else {
            Seq::empty()
        }
    }
}

/// The rest of a skin chain, walking from `prev` into `current`: a leg ends
/// the chain before it; a node with exactly two non-leg neighbours joins the
/// chain and the walk goes on through the other one; any other node joins
/// the chain and ends it. None when `fuel` runs out first or a node has no
/// adjacency list.
pub open spec fn skin_walk(
    adj: Adjacency,
    kinds: Seq<(EntityId, NodeType)>,
    prev: EntityId,
    current: EntityId,
    fuel: nat,
) -> Option<Seq<ChainLink>>
    decreases fuel,
{
    if fuel == 0 {
        None
    } else if is_leg(kinds, current) {
        Some(Seq::empty())
    } else {
        match adj(current) {
            None => None,
            Some(nb) => {
                let nl = non_limb_entries(nb, kinds);
                if nl.len() == 2 {
                    let e = other_entry(nl, prev);
                    match skin_walk(adj, kinds, current, e.0, (fuel - 1) as nat) {
                        Some(rest) => Some(seq![ChainLink { entity: current, rest: Some(e.1) }] + rest),
                        None => None,
                    }
                } else {
                    Some(seq![ChainLink { entity: current, rest: None }])
                }
            },
        }
    }
}

/// The skin chain that leaves `start` along the entry `(next, rest)`.
pub open spec fn skin_chain(
    adj: Adjacency,
    fuel: nat,
    kinds: Seq<(EntityId, NodeType)>,
    start: EntityId,
    next: EntityId,
    rest: usize,
) -> Option<Seq<ChainLink>> {
    match skin_walk(adj, kinds, start, next, fuel) {
        Some(tail) => Some(seq![ChainLink { entity: start, rest: Some(rest) }] + tail),
        None => None,
    }
}

fn non_limb_list(nb: &Vec<(EntityId, usize)>, kinds: &Vec<(EntityId, NodeType)>) -> (r: Vec<
    (EntityId, usize),
>)
    ensures
        r@ == non_limb_entries(nb@, kinds@),
{
    let mut out: Vec<(EntityId, usize)> = Vec::new();
    let mut i: usize = 0;
    assert(nb@.take(0) =~= Seq::<(EntityId, usize)>::empty());
    while i < nb.len()
        invariant
            i <= nb.len(),
            out@ == non_limb_entries(nb@.take(i as int), kinds@),
        decreases nb.len() - i,
    {
        let e = nb[i];
        proof {
            let t = nb@.take(i + 1);
            assert(t.drop_last() =~= nb@.take(i as int));
            assert(t.last() == e);
        }
        let k = find_kind(kinds, e.0);
        if k != Some(NodeType::Leg) {
            out.push(e);
        } else {
            assert(non_limb_entries(nb@.take(i + 1), kinds@) =~= out@);
        }
        i = i + 1;
    }
    assert(nb@.take(nb.len() as int) =~= nb@);
    out
}

fn trace_skin_chain(
    keys: &Vec<EntityId>,
    lists: &Vec<Vec<(EntityId, usize)>>,
    kinds: &Vec<(EntityId, NodeType)>,
    start: EntityId,
    next: EntityId,
    rest: usize,
    fuel: usize,
    Ghost(adj): Ghost<Adjacency>,
) -> (r: Option<Vec<ChainLink>>)
    requires
        keys.len() == lists.len(),
        keys@.no_duplicates(),
        held_as(adj, keys@, lists@),
    ensures
        match r {
            Some(c) => skin_chain(adj, fuel as nat, kinds@, start, next, rest) == Some(c@),
            None => skin_chain(adj, fuel as nat, kinds@, start, next, rest) is None,
        },
{
    let mut chain: Vec<ChainLink> = Vec::new();
    chain.push(ChainLink { entity: start, rest: Some(rest) });
    let mut current = next;
    let mut prev = start;
    let mut f: usize = fuel;
    loop
        invariant
            keys.len() == lists.len(),
            keys@.no_duplicates(),
            held_as(adj, keys@, lists@),
            skin_chain(adj, fuel as nat, kinds@, start, next, rest) == (match skin_walk(
                adj,
                kinds@,
                prev,
                current,
                f as nat,
            ) {
                Some(t) => Some(chain@ + t),
                None => None,
            }),
        decreases f,
    {
        if f == 0 {
            return None;
        }
        if find_kind(kinds, current) == Some(NodeType::Leg) {
            assert(chain@ + Seq::<ChainLink>::empty() =~= chain@);
            return Some(chain);
        }
        let nb = match lookup_list(keys, lists, current) {
            Some(nb) => nb,
            None => {
                assert(list_in(keys@, lists@, current) == adj(current));
                return None;
            },
        };
        assert(list_in(keys@, lists@, current) == adj(current));
        let nl = non_limb_list(nb, kinds);
        if nl.len() == 2 {
            let e = if nl[0].0 == prev {
                nl[1]
            } else {
                nl[0]
            };
            let ghost c0 = chain@;
            chain.push(ChainLink { entity: current, rest: Some(e.1) });
            proof {
                match skin_walk(adj, kinds@, current, e.0, (f - 1) as nat) {
                    Some(t) => {
                        assert(c0 + (seq![ChainLink { entity: current, rest: Some(e.1) }] + t)
                            =~= chain@ + t);
                    },
                    None => {},
                }
            }
            prev = current;
            current = e.0;
            f = f - 1;
        } else {
            let ghost c0 = chain@;
            chain.push(ChainLink { entity: current, rest: None });
            assert(c0 + seq![ChainLink { entity: current, rest: None }] =~= chain@);
            return Some(chain);
        }
    }
}

/// What a pass over the starts has done so far: the nodes marked visited
/// (in the order of marking, a node may recur) and the chains kept.
pub type ChainState = (Seq<EntityId>, Seq<Seq<ChainLink>>);

/// Marks a traced chain and keeps it when it has two nodes or more.
pub open spec fn add_chain(s: ChainState, c: Seq<ChainLink>) -> ChainState {
    (
        s.0 + chain_nodes(c),
        if c.len() >= 2 {
            s.1.push(c)
        } else {
            s.1
        },
    )
}

/// One entry `e` of the list of `start`: a visited node or a leg is passed
/// over; otherwise the chain along `e` is traced, its nodes are marked, and it
/// is kept when it has at least two nodes.
pub open spec fn skin_step(
    adj: Adjacency,
    fuel: nat,
    kinds: Seq<(EntityId, NodeType)>,
    start: EntityId,
    st: Option<ChainState>,
    e: (EntityId, usize),
) -> Option<ChainState> {
    match st {
        None => None,
        Some(s) => if s.0.contains(e.0) || is_leg(kinds, e.0) {
            st
        } else {
            match skin_chain(adj, fuel, kinds, start, e.0, e.1) {
                None => None,
                Some(c) => Some(add_chain(s, c)),
            }
        },
    }
}

/// The entries of `nb`, in order.
pub open spec fn skin_over(
    adj: Adjacency,
    fuel: nat,
    kinds: Seq<(EntityId, NodeType)>,
    start: EntityId,
    nb: Seq<(EntityId, usize)>,
    st: Option<ChainState>,
) -> Option<ChainState>
    decreases nb.len(),
{
    if nb.len() == 0 {
        st
    } else {
        skin_over(adj, fuel, kinds, start, nb.drop_first(), skin_step(adj, fuel, kinds, start, st, nb[0]))
    }
}

/// One start: passed over when visited or without a list; else every entry
/// of its list in turn.
pub open spec fn skin_from(
    adj: Adjacency,
    fuel: nat,
    kinds: Seq<(EntityId, NodeType)>,
    st: Option<ChainState>,
    start: EntityId,
) -> Option<ChainState> {
    match st {
        None => None,
        Some(s) => if s.0.contains(start) {
            st
        } else {
            match adj(start) {
                None => st,
                Some(nb) => skin_over(adj, fuel, kinds, start, nb, st),
            }
        },
    }
}

/// All the starts, in order.
pub open spec fn skin_all(
    adj: Adjacency,
    fuel: nat,
    kinds: Seq<(EntityId, NodeType)>,
    starts: Seq<EntityId>,
    st: Option<ChainState>,
) -> Option<ChainState>
    decreases starts.len(),
{
    if starts.len() == 0 {
        st
    } else {
        skin_all(adj, fuel, kinds, starts.drop_first(), skin_from(adj, fuel, kinds, st, starts[0]))
    }
}

/// The kind a start is judged by: a node that does not exist counts as normal.
pub open spec fn start_kind(kinds: Seq<(EntityId, NodeType)>, e: EntityId) -> NodeType {
    match kind_of(kinds, e) {
        Some(k) => k,
        None => NodeType::Normal,
    }
}

/// A node is an anchor start.
pub open spec fn anchor_start(kinds: Seq<(EntityId, NodeType)>, e: EntityId) -> bool {
    start_kind(kinds, e) == NodeType::Anchor
}

/// A node is a loose end: neither leg nor anchor, with exactly one entry.
pub open spec fn leaf_start(adj: Adjacency, kinds: Seq<(EntityId, NodeType)>, e: EntityId) -> bool {
    &&& start_kind(kinds, e) == NodeType::Normal
    &&& adj(e) matches Some(nb) && nb.len() == 1
}

/// The starts of the skin chains: the anchors in order, then the loose ends
/// in order.
pub open spec fn skin_start_order(
    keys: Seq<EntityId>,
    adj: Adjacency,
    kinds: Seq<(EntityId, NodeType)>,
    starts: Seq<EntityId>,
) -> bool {
    exists|a: Seq<EntityId>, l: Seq<EntityId>|
        {
            &&& starts == a + l
            &&& strictly_sorted(a)
            &&& strictly_sorted(l)
            &&& forall|e: EntityId| #[trigger]
                a.contains(e) <==> keys.contains(e) && anchor_start(kinds, e)
            &&& forall|e: EntityId| #[trigger]
                l.contains(e) <==> keys.contains(e) && leaf_start(adj, kinds, e)
        }
}

pub proof fn lemma_start_order_unique(
    keys: Seq<EntityId>,
    adj: Adjacency,
    kinds: Seq<(EntityId, NodeType)>,
    s: Seq<EntityId>,
    t: Seq<EntityId>,
)
    requires
        skin_start_order(keys, adj, kinds, s),
        skin_start_order(keys, adj, kinds, t),
    ensures
        s == t,
{
    let (a, l) = choose|a: Seq<EntityId>, l: Seq<EntityId>|
        {
            &&& s == a + l
            &&& strictly_sorted(a)
            &&& strictly_sorted(l)
            &&& forall|e: EntityId| #[trigger]
                a.contains(e) <==> keys.contains(e) && anchor_start(kinds, e)
            &&& forall|e: EntityId| #[trigger]
                l.contains(e) <==> keys.contains(e) && leaf_start(adj, kinds, e)
        };
    let (a2, l2) = choose|a: Seq<EntityId>, l: Seq<EntityId>|
        {
            &&& t == a + l
            &&& strictly_sorted(a)
            &&& strictly_sorted(l)
            &&& forall|e: EntityId| #[trigger]
                a.contains(e) <==> keys.contains(e) && anchor_start(kinds, e)
            &&& forall|e: EntityId| #[trigger]
                l.contains(e) <==> keys.contains(e) && leaf_start(adj, kinds, e)
        };
    assert forall|e: EntityId| a.contains(e) <==> a2.contains(e) by {
        assert(a.contains(e) <==> keys.contains(e) && anchor_start(kinds, e));
        assert(a2.contains(e) <==> keys.contains(e) && anchor_start(kinds, e));
    }
    assert forall|e: EntityId| l.contains(e) <==> l2.contains(e) by {
        assert(l.contains(e) <==> keys.contains(e) && leaf_start(adj, kinds, e));
        assert(l2.contains(e) <==> keys.contains(e) && leaf_start(adj, kinds, e));
    }
    lemma_sorted_unique(a, a2);
    lemma_sorted_unique(l, l2);
}

pub proof fn lemma_push_contains(s: Seq<EntityId>, e: EntityId, x: EntityId)
    ensures
        s.push(e).contains(x) <==> s.contains(x) || x == e,
{
    if s.contains(x) {
        let k = choose|k: int| 0 <= k < s.len() && s[k] == x;
        assert(s.push(e)[k] == x);
    }
    if x == e {
        assert(s.push(e)[s.len() as int] == e);
    }
    if s.push(e).contains(x) {
        let k = choose|k: int| 0 <= k < s.push(e).len() && s.push(e)[k] == x;
        if k < s.len() {
            assert(s[k] == x);
        }
    }
}

/// Finds the starts of the skin chains: the anchors, sorted, then the loose
/// ends (normal nodes with exactly one entry), sorted. Legs are never starts.
pub fn skin_chain_starts(
    keys: &Vec<EntityId>,
    lists: &Vec<Vec<(EntityId, usize)>>,
    kinds: &Vec<(EntityId, NodeType)>,
) -> (r: Vec<EntityId>)
    requires
        keys.len() == lists.len(),
        keys@.no_duplicates(),
    ensures
        forall|adj: Adjacency| held_as(adj, keys@, lists@) ==> skin_start_order(keys@, adj, kinds@, r@),
{
    let ghost adj: Adjacency = |x: EntityId| list_in(keys@, lists@, x);
    let mut anchors: Vec<EntityId> = Vec::new();
    let mut leaves: Vec<EntityId> = Vec::new();
    let mut i: usize = 0;
    while i < keys.len()
        invariant
            i <= keys.len(),
            keys.len() == lists.len(),
            keys@.no_duplicates(),
            adj == (|x: EntityId| list_in(keys@, lists@, x)),
            anchors@.no_duplicates(),
            leaves@.no_duplicates(),
            forall|e: EntityId|
                #[trigger] anchors@.contains(e) <==> keys@.take(i as int).contains(e) && anchor_start(
                    kinds@,
                    e,
                ),
            forall|e: EntityId|
                #[trigger] leaves@.contains(e) <==> keys@.take(i as int).contains(e) && leaf_start(
                    adj,
                    kinds@,
                    e,
                ),
        decreases keys.len() - i,
    {
        let e = keys[i];
        let k = match find_kind(kinds, e) {
            Some(k) => k,
            None => NodeType::Normal,
        };
        proof {
            lemma_pos_of(keys@, e);
            assert(keys@.take(i + 1) =~= keys@.take(i as int).push(e));
            assert(!keys@.take(i as int).contains(e)) by {
                if keys@.take(i as int).contains(e) {
                    let m = choose|m: int| 0 <= m < i && keys@.take(i as int)[m] == e;
                    assert(keys@[m] == keys@[i as int]);
                }
            }
            assert(adj(e) == Some(lists@[i as int]@));
        }
        let ghost a0 = anchors@;
        let ghost l0 = leaves@;
        proof {
            assert(!a0.contains(e));
            assert(!l0.contains(e));
            assert forall|x: EntityId| keys@.take(i + 1).contains(x) <==> keys@.take(i as int).contains(x)
                || x == e by {
                lemma_push_contains(keys@.take(i as int), e, x);
            }
        }
        if k == NodeType::Leg {
        } else if k == NodeType::Anchor {
            anchors.push(e);
        } else if lists[i].len() == 1 {
            leaves.push(e);
        }
        proof {
            assert forall|x: EntityId| #[trigger] anchors@.contains(x) <==> keys@.take(i + 1).contains(x)
                && anchor_start(kinds@, x) by {
                if x != e {
                    if anchors@.contains(x) {
                        let m = choose|m: int| 0 <= m < anchors.len() && anchors@[m] == x;
                        if m < a0.len() {
                            assert(a0[m] == x);
                        }
                    }
                    if a0.contains(x) {
                        let m = choose|m: int| 0 <= m < a0.len() && a0[m] == x;
                        assert(anchors@[m] == x);
                    }
                } else if anchors@.len() > a0.len() {
                    assert(anchors@[a0.len() as int] == e);
                }
            }
            assert forall|x: EntityId| #[trigger] leaves@.contains(x) <==> keys@.take(i + 1).contains(x)
                && leaf_start(adj, kinds@, x) by {
                if x != e {
                    if leaves@.contains(x) {
                        let m = choose|m: int| 0 <= m < leaves.len() && leaves@[m] == x;
                        if m < l0.len() {
                            assert(l0[m] == x);
                        }
                    }
                    if l0.contains(x) {
                        let m = choose|m: int| 0 <= m < l0.len() && l0[m] == x;
                        assert(leaves@[m] == x);
                    }
                } else if leaves@.len() > l0.len() {
                    assert(leaves@[l0.len() as int] == e);
                }
            }
        }
        i = i + 1;
    }
    assert(keys@.take(keys.len() as int) =~= keys@);
    let a = sort_entities(&anchors);
    let l = sort_entities(&leaves);
    let mut out = a;
    let mut l2 = l;
    let ghost av = out@;
    let ghost lv = l2@;
    out.append(&mut l2);
    assert(out@ == av + lv);
    proof {
        assert forall|adj2: Adjacency| held_as(adj2, keys@, lists@) implies skin_start_order(
            keys@,
            adj2,
            kinds@,
            out@,
        ) by {
            assert forall|e: EntityId| leaf_start(adj2, kinds@, e) <==> leaf_start(adj, kinds@, e) by {
                assert(list_in(keys@, lists@, e) == adj2(e));
            }
            assert forall|e: EntityId| #[trigger] lv.contains(e) <==> keys@.contains(e) && leaf_start(
                adj2,
                kinds@,
                e,
            ) by {
                assert(leaf_start(adj2, kinds@, e) <==> leaf_start(adj, kinds@, e));
            }
        }
    }
    out
}

pub proof fn lemma_skin_over_none(
    adj: Adjacency,
    fuel: nat,
    kinds: Seq<(EntityId, NodeType)>,
    start: EntityId,
    nb: Seq<(EntityId, usize)>,
)
    ensures
        skin_over(adj, fuel, kinds, start, nb, None) is None,
    decreases nb.len(),
{
    if nb.len() > 0 {
        lemma_skin_over_none(adj, fuel, kinds, start, nb.drop_first());
    }
}

pub proof fn lemma_skin_all_none(
    adj: Adjacency,
    fuel: nat,
    kinds: Seq<(EntityId, NodeType)>,
    starts: Seq<EntityId>,
)
    ensures
        skin_all(adj, fuel, kinds, starts, None) is None,
    decreases starts.len(),
{
    if starts.len() > 0 {
        lemma_skin_all_none(adj, fuel, kinds, starts.drop_first());
    }
}

/// The skin chains that the pass over the starts `starts` yields, from
/// nothing visited; none when a walk does not end within `fuel` steps.
pub open spec fn skin_result(
    adj: Adjacency,
    fuel: nat,
    kinds: Seq<(EntityId, NodeType)>,
    starts: Seq<EntityId>,
) -> Option<ChainState> {
    skin_all(adj, fuel, kinds, starts, Some((Seq::empty(), Seq::empty())))
}

fn contains_entity(v: &Vec<EntityId>, e: EntityId) -> (r: bool)
    ensures
        r == v@.contains(e),
{
    let mut i: usize = 0;
    while i < v.len()
        invariant
            i <= v.len(),
            forall|k: int| 0 <= k < i ==> v@[k] != e,
        decreases v.len() - i,
    {
        if v[i] == e {
            return true;
        }
        i = i + 1;
    }
    false
}

fn mark_chain(visited: &mut Vec<EntityId>, c: &Vec<ChainLink>)
    ensures
        final(visited)@ == old(visited)@ + chain_nodes(c@),
{
    let ghost v0 = visited@;
    let mut j: usize = 0;
    while j < c.len()
        invariant
            j <= c.len(),
            visited@ == v0 + chain_nodes(c@.take(j as int)),
        decreases c.len() - j,
    {
        visited.push(c[j].entity);
        proof {
            assert(chain_nodes(c@.take(j + 1)) =~= chain_nodes(c@.take(j as int)).push(c@[j as int].entity));
        }
        j = j + 1;
    }
    assert(c@.take(c.len() as int) =~= c@);
}

fn keep_chain(visited: &mut Vec<EntityId>, chains: &mut Vec<Vec<ChainLink>>, c: Vec<ChainLink>)
    ensures
        (final(visited)@, chains_view(final(chains)@)) == add_chain(
            (old(visited)@, chains_view(old(chains)@)),
            c@,
        ),
{
    mark_chain(visited, &c);
    if c.len() >= 2 {
        let ghost cv = chains_view(chains@);
        let ghost cc = c@;
        chains.push(c);
        assert(chains_view(chains@) =~= cv.push(cc));
    }
}

/// Builds the skin chains of the graph: from each start in turn (anchors,
/// then loose ends, each sorted), along each entry to a node that is neither
/// visited nor a leg, the chain through the nodes with two non-leg
/// neighbours; the nodes of each chain are marked visited and the chains of
/// two nodes or more are kept. None when a walk does not end.
pub fn build_ordered_chains(graph: &ConstraintGraph, kinds: &Vec<(EntityId, NodeType)>) -> (r:
    Option<Vec<Vec<ChainLink>>>)
    requires
        graph.wf(),
        entry_total(graph.adjacency@) < usize::MAX,
    ensures
        exists|starts: Seq<EntityId>| skin_start_order(graph.keys@, graph_adj(*graph), kinds@, starts),
        forall|starts: Seq<EntityId>|
            skin_start_order(graph.keys@, graph_adj(*graph), kinds@, starts) ==> match r {
                Some(v) => skin_result(graph_adj(*graph), walk_fuel(graph.adjacency@), kinds@, starts)
                    matches Some(st) && st.1 == chains_view(v@),
                None => skin_result(graph_adj(*graph), walk_fuel(graph.adjacency@), kinds@, starts) is None,
            },
{
    let keys = &graph.keys;
    let lists = &graph.adjacency;
    let ghost adj = graph_adj(*graph);
    let fuel = count_walk_fuel(lists);
    let ghost fl = fuel as nat;
    assert(held_as(adj, keys@, lists@));
    let starts = skin_chain_starts(keys, lists, kinds);
    let ghost res = skin_result(adj, fl, kinds@, starts@);
    proof {
        assert forall|s2: Seq<EntityId>| skin_start_order(keys@, adj, kinds@, s2) implies s2
            == starts@ by {
            lemma_start_order_unique(keys@, adj, kinds@, s2, starts@);
        }
    }
    let mut visited: Vec<EntityId> = Vec::new();
    let mut chains: Vec<Vec<ChainLink>> = Vec::new();
    let mut si: usize = 0;
    assert(starts@.skip(0) =~= starts@);
    assert(chains_view(chains@) =~= Seq::<Seq<ChainLink>>::empty());
    while si < starts.len()
        invariant
            si <= starts.len(),
            keys.len() == lists.len(),
            keys@.no_duplicates(),
            fl == fuel as nat,
            fl == walk_fuel(graph.adjacency@),
            adj == graph_adj(*graph),
            held_as(adj, keys@, lists@),
            keys@ == graph.keys@,
            lists@ == graph.adjacency@,
            res == skin_result(adj, fl, kinds@, starts@),
            skin_start_order(keys@, adj, kinds@, starts@),
            forall|s2: Seq<EntityId>| skin_start_order(keys@, adj, kinds@, s2) ==> s2 == starts@,
            res == skin_all(adj, fl, kinds@, starts@.skip(si as int), Some((visited@, chains_view(chains@)))),
        decreases starts.len() - si,
    {
        let start = starts[si];
        proof {
            let sk = starts@.skip(si as int);
            assert(sk[0] == start);
            assert(sk.drop_first() =~= starts@.skip(si + 1));
        }
        if !contains_entity(&visited, start) {
            match lookup_list(keys, lists, start) {
                None => {
                    assert(list_in(keys@, lists@, start) == adj(start));
                },
                Some(nb) => {
                    assert(list_in(keys@, lists@, start) == adj(start));
                    let mut k: usize = 0;
                    assert(nb@.skip(0) =~= nb@);
                    while k < nb.len()
                        invariant
                            k <= nb.len(),
                            keys.len() == lists.len(),
                            keys@.no_duplicates(),
                            fl == fuel as nat,
                            fl == walk_fuel(graph.adjacency@),
                            adj == graph_adj(*graph),
                            held_as(adj, keys@, lists@),
                            keys@ == graph.keys@,
                            lists@ == graph.adjacency@,
                            res == skin_result(adj, fl, kinds@, starts@),
                            skin_start_order(keys@, adj, kinds@, starts@),
                            forall|s2: Seq<EntityId>|
                                skin_start_order(keys@, adj, kinds@, s2) ==> s2 == starts@,
                            res == skin_all(
                                adj,
                                fl,
                                kinds@,
                                starts@.skip(si + 1),
                                skin_over(
                                    adj,
                                    fl,
                                    kinds@,
                                    start,
                                    nb@.skip(k as int),
                                    Some((visited@, chains_view(chains@))),
                                ),
                            ),
                        decreases nb.len() - k,
                    {
                        let e = nb[k];
                        let ghost stk: Option<ChainState> = Some((visited@, chains_view(chains@)));
                        proof {
                            let sk = nb@.skip(k as int);
                            assert(sk[0] == e);
                            assert(sk.drop_first() =~= nb@.skip(k + 1));
                        }
                        if contains_entity(&visited, e.0) || check_leg(kinds, e.0) {
                        } else {
                            match trace_skin_chain(keys, lists, kinds, start, e.0, e.1, fuel, Ghost(adj)) {
                                None => {
                                    proof {
                                        assert(skin_step(adj, fl, kinds@, start, stk, e) is None);
                                        lemma_skin_over_none(adj, fl, kinds@, start, nb@.skip(k + 1));
                                        lemma_skin_all_none(adj, fl, kinds@, starts@.skip(si + 1));
                                        assert(res is None);
                                    }
                                    return None;
                                },
                                Some(c) => {
                                    keep_chain(&mut visited, &mut chains, c);
                                },
                            }
                        }
                        k = k + 1;
                    }
                    assert(nb@.skip(k as int) =~= Seq::<(EntityId, usize)>::empty());
                },
            }
        }
        si = si + 1;
    }
    proof {
        assert(starts@.skip(si as int) =~= Seq::<EntityId>::empty());
    }
    Some(chains)
}

// ---------------------------------------------------------------------------
// Solver chains
// ---------------------------------------------------------------------------

/// The steps a solver walk may take: one more than the number of adjacency
/// entries that `m` constraints make.
pub open spec fn solver_fuel(m: nat) -> nat {
    2 * m + 1
}

/// The rest of a solver chain, walking from `prev` into `current`: a node
/// with exactly two entries joins the chain and the walk goes on along the
/// other entry; any other node joins the chain and ends it. None when `fuel`
/// runs out first or a node has no list.
pub open spec fn solver_walk(
    adj: Adjacency,
    prev: EntityId,
    current: EntityId,
    fuel: nat,
) -> Option<Seq<ChainLink>>
    decreases fuel,
{
    if fuel == 0 {
        None
    } else {
        match adj(current) {
            None => None,
            Some(nb) => if nb.len() == 2 {
                let e = other_entry(nb, prev);
                match solver_walk(adj, current, e.0, (fuel - 1) as nat) {
                    Some(rest) => Some(seq![ChainLink { entity: current, rest: Some(e.1) }] + rest),
                    None => None,
                }
            } else {
                Some(seq![ChainLink { entity: current, rest: None }])
            },
        }
    }
}

/// The chain that leaves the end node `start` along the entry `(next, rest)`.
pub open spec fn endpoint_chain(
    adj: Adjacency,
    fuel: nat,
    start: EntityId,
    next: EntityId,
    rest: usize,
) -> Option<Seq<ChainLink>> {
    match solver_walk(adj, start, next, fuel) {
        Some(tail) => Some(seq![ChainLink { entity: start, rest: Some(rest) }] + tail),
        None => None,
    }
}

/// The entry a ring walk takes from a node with list `nb`: the first entry
/// at the outset, else the entry after the first when the first leads back
/// to `prev`, else the first. None when that entry does not exist.
pub open spec fn ring_entry(nb: Seq<(EntityId, usize)>, prev: Option<EntityId>) -> Option<
    (EntityId, usize),
> {
    match prev {
        None => if nb.len() >= 1 {
            Some(nb[0])
        } else {
            None
        },
        Some(p) => if nb.len() == 0 {
            None
        } else if nb[0].0 == p {
            if nb.len() >= 2 {
                Some(nb[1])
            } else {
                None
            }
        } else {
            Some(nb[0])
        },
    }
}

/// The rest of a ring around `start`, walking from `prev` into `current`:
/// `current` joins the ring with the entry it leaves by; the ring closes
/// when that entry leads back to `start`, which then ends it. None when
/// `fuel` runs out first, a node has no list, or the entry does not exist.
pub open spec fn ring_walk(
    adj: Adjacency,
    start: EntityId,
    prev: Option<EntityId>,
    current: EntityId,
    fuel: nat,
) -> Option<Seq<ChainLink>>
    decreases fuel,
{
    if fuel == 0 {
        None
    } else {
        match adj(current) {
            None => None,
            Some(nb) => match ring_entry(nb, prev) {
                None => None,
                Some(e) => {
                    let link = ChainLink { entity: current, rest: Some(e.1) };
                    if e.0 == start {
                        Some(seq![link, ChainLink { entity: start, rest: None }])
                    } else {
                        match ring_walk(adj, start, Some(current), e.0, (fuel - 1) as nat) {
                            Some(rest) => Some(seq![link] + rest),
                            None => None,
                        }
                    }
                },
            },
        }
    }
}

/// The ring that starts and ends at `start`.
pub open spec fn ring_chain(adj: Adjacency, fuel: nat, start: EntityId) -> Option<Seq<ChainLink>> {
    ring_walk(adj, start, None, start, fuel)
}

pub open spec fn solver_step(
    adj: Adjacency,
    fuel: nat,
    start: EntityId,
    st: Option<ChainState>,
    e: (EntityId, usize),
) -> Option<ChainState> {
    match st {
        None => None,
        Some(s) => if s.0.contains(e.0) {
            st
        } else {
            match endpoint_chain(adj, fuel, start, e.0, e.1) {
                None => None,
                Some(c) => Some(add_chain(s, c)),
            }
        },
    }
}

pub open spec fn solver_over(
    adj: Adjacency,
    fuel: nat,
    start: EntityId,
    nb: Seq<(EntityId, usize)>,
    st: Option<ChainState>,
) -> Option<ChainState>
    decreases nb.len(),
{
    if nb.len() == 0 {
        st
    } else {
        solver_over(adj, fuel, start, nb.drop_first(), solver_step(adj, fuel, start, st, nb[0]))
    }
}

/// One start: passed over when visited; else along every entry of its list
/// in turn to a node not visited yet. None when the start has no list.
pub open spec fn solver_from(
    adj: Adjacency,
    fuel: nat,
    st: Option<ChainState>,
    start: EntityId,
) -> Option<ChainState> {
    match st {
        None => None,
        Some(s) => if s.0.contains(start) {
            st
        } else {
            match adj(start) {
                None => None,
                Some(nb) => solver_over(adj, fuel, start, nb, st),
            }
        },
    }
}

pub open spec fn solver_all(
    adj: Adjacency,
    fuel: nat,
    starts: Seq<EntityId>,
    st: Option<ChainState>,
) -> Option<ChainState>
    decreases starts.len(),
{
    if starts.len() == 0 {
        st
    } else {
        solver_all(adj, fuel, starts.drop_first(), solver_from(adj, fuel, st, starts[0]))
    }
}

/// One node left over after the end chains: passed over when visited; else
/// the ring through it is traced.
pub open spec fn ring_from(
    adj: Adjacency,
    fuel: nat,
    st: Option<ChainState>,
    start: EntityId,
) -> Option<ChainState> {
    match st {
        None => None,
        Some(s) => if s.0.contains(start) {
            st
        } else {
            match ring_chain(adj, fuel, start) {
                None => None,
                Some(c) => Some(add_chain(s, c)),
            }
        },
    }
}

pub open spec fn ring_all(
    adj: Adjacency,
    fuel: nat,
    nodes: Seq<EntityId>,
    st: Option<ChainState>,
) -> Option<ChainState>
    decreases nodes.len(),
{
    if nodes.len() == 0 {
        st
    } else {
        ring_all(adj, fuel, nodes.drop_first(), ring_from(adj, fuel, st, nodes[0]))
    }
}

/// The anchors among `keys`, in order.
pub open spec fn anchors_in(keys: Seq<EntityId>, kinds: Seq<(EntityId, NodeType)>) -> Seq<EntityId>
    decreases keys.len(),
{
    if keys.len() == 0 {
        Seq::empty()
    } else {
        anchors_in(keys.drop_last(), kinds) + if is_anchor(kinds, keys.last()) {
            seq![keys.last()]
        } else {
            Seq::empty()
        }
    }
}

/// The nodes among `keys` that are no anchor and have a single entry, in order.
pub open spec fn single_ends_in(
    keys: Seq<EntityId>,
    adj: Adjacency,
    kinds: Seq<(EntityId, NodeType)>,
) -> Seq<EntityId>
    decreases keys.len(),
{
    if keys.len() == 0 {
        Seq::empty()
    } else {
        single_ends_in(keys.drop_last(), adj, kinds) + if !is_anchor(kinds, keys.last()) && (adj(
            keys.last(),
        ) matches Some(nb) && nb.len() == 1) {
            seq![keys.last()]
        } else {
            Seq::empty()
        }
    }
}

/// The constraints that some endpoint of which is not visited, by index.
pub open spec fn standalone_of(cs: Seq<DistanceConstraint>, visited: Seq<EntityId>) -> Seq<usize>
    decreases cs.len(),
{
    if cs.len() == 0 {
        Seq::empty()
    } else {
        let c = cs.last();
        standalone_of(cs.drop_last(), visited) + if !visited.contains(c.node_a) || !visited.contains(
            c.node_b,
        ) {
            seq![(cs.len() - 1) as usize]
        } else {
            Seq::empty()
        }
    }
}

/// The state after the end chains of the constraints `cs`: from each start
/// in turn (the anchors, then the other nodes with a single entry, each in
/// node order) along each entry to a node not visited yet.
pub open spec fn solver_ends(cs: Seq<DistanceConstraint>, kinds: Seq<(EntityId, NodeType)>) -> Option<
    ChainState,
> {
    let keys = endpoint_order(cs);
    let adj = cs_adj(cs);
    solver_all(
        adj,
        solver_fuel(cs.len()),
        anchors_in(keys, kinds) + single_ends_in(keys, adj, kinds),
        Some((Seq::empty(), Seq::empty())),
    )
}

/// What the solver's chain pass yields for the constraints `cs`: the end
/// chains, then the rings through every node left over, in node order, and
/// the constraints left outside every chain. None when a walk does not end,
/// takes an entry that does not exist, or a start has no list.
pub open spec fn solver_result(cs: Seq<DistanceConstraint>, kinds: Seq<(EntityId, NodeType)>) -> Option<
    (Seq<Seq<ChainLink>>, Seq<usize>),
> {
    match ring_all(cs_adj(cs), solver_fuel(cs.len()), endpoint_order(cs), solver_ends(cs, kinds)) {
        None => None,
        Some(st) => Some((st.1, standalone_of(cs, st.0))),
    }
}

fn trace_endpoint_chain(
    keys: &Vec<EntityId>,
    lists: &Vec<Vec<(EntityId, usize)>>,
    start: EntityId,
    next: EntityId,
    rest: usize,
    fuel: usize,
    Ghost(adj): Ghost<Adjacency>,
) -> (r: Option<Vec<ChainLink>>)
    requires
        keys.len() == lists.len(),
        keys@.no_duplicates(),
        held_as(adj, keys@, lists@),
    ensures
        match r {
            Some(c) => endpoint_chain(adj, fuel as nat, start, next, rest) == Some(c@),
            None => endpoint_chain(adj, fuel as nat, start, next, rest) is None,
        },
{
    let mut chain: Vec<ChainLink> = Vec::new();
    chain.push(ChainLink { entity: start, rest: Some(rest) });
    let mut current = next;
    let mut prev = start;
    let mut f: usize = fuel;
    loop
        invariant
            keys.len() == lists.len(),
            keys@.no_duplicates(),
            held_as(adj, keys@, lists@),
            endpoint_chain(adj, fuel as nat, start, next, rest) == (match solver_walk(
                adj,
                prev,
                current,
                f as nat,
            ) {
                Some(t) => Some(chain@ + t),
                None => None,
            }),
        decreases f,
    {
        if f == 0 {
            return None;
        }
        let nb = match lookup_list(keys, lists, current) {
            Some(nb) => nb,
            None => {
                assert(list_in(keys@, lists@, current) == adj(current));
                return None;
            },
        };
        assert(list_in(keys@, lists@, current) == adj(current));
        if nb.len() == 2 {
            let e = if nb[0].0 == prev {
                nb[1]
            } else {
                nb[0]
            };
            let ghost c0 = chain@;
            chain.push(ChainLink { entity: current, rest: Some(e.1) });
            proof {
                match solver_walk(adj, current, e.0, (f - 1) as nat) {
                    Some(t) => {
                        assert(c0 + (seq![ChainLink { entity: current, rest: Some(e.1) }] + t)
                            =~= chain@ + t);
                    },
                    None => {},
                }
            }
            prev = current;
            current = e.0;
            f = f - 1;
        } else {
            let ghost c0 = chain@;
            chain.push(ChainLink { entity: current, rest: None });
            assert(c0 + seq![ChainLink { entity: current, rest: None }] =~= chain@);
            return Some(chain);
        }
    }
}

fn trace_ring_chain(
    keys: &Vec<EntityId>,
    lists: &Vec<Vec<(EntityId, usize)>>,
    start: EntityId,
    fuel: usize,
    Ghost(adj): Ghost<Adjacency>,
) -> (r: Option<Vec<ChainLink>>)
    requires
        keys.len() == lists.len(),
        keys@.no_duplicates(),
        held_as(adj, keys@, lists@),
    ensures
        match r {
            Some(c) => ring_chain(adj, fuel as nat, start) == Some(c@),
            None => ring_chain(adj, fuel as nat, start) is None,
        },
{
    let mut chain: Vec<ChainLink> = Vec::new();
    let mut current = start;
    let mut prev: Option<EntityId> = None;
    let mut f: usize = fuel;
    assert(chain@ + Seq::<ChainLink>::empty() =~= chain@);
    loop
        invariant
            keys.len() == lists.len(),
            keys@.no_duplicates(),
            held_as(adj, keys@, lists@),
            ring_chain(adj, fuel as nat, start) == (match ring_walk(adj, start, prev, current, f as nat) {
                Some(t) => Some(chain@ + t),
                None => None,
            }),
        decreases f,
    {
        if f == 0 {
            return None;
        }
        let nb = match lookup_list(keys, lists, current) {
            Some(nb) => nb,
            None => {
                assert(list_in(keys@, lists@, current) == adj(current));
                return None;
            },
        };
        assert(list_in(keys@, lists@, current) == adj(current));
        let pick: Option<(EntityId, usize)> = match prev {
            None => if nb.len() >= 1 {
                Some(nb[0])
            } else {
                None
            },
            Some(p) => if nb.len() == 0 {
                None
            } else if nb[0].0 == p {
                if nb.len() >= 2 {
                    Some(nb[1])
                } else {
                    None
                }
            } else {
                Some(nb[0])
            },
        };
        assert(pick == ring_entry(nb@, prev));
        match pick {
            None => {
                return None;
            },
            Some(e) => {
                let ghost c0 = chain@;
                chain.push(ChainLink { entity: current, rest: Some(e.1) });
                if e.0 == start {
                    chain.push(ChainLink { entity: start, rest: None });
                    assert(c0 + seq![
                        ChainLink { entity: current, rest: Some(e.1) },
                        ChainLink { entity: start, rest: None },
                    ] =~= chain@);
                    return Some(chain);
                }
                proof {
                    match ring_walk(adj, start, Some(current), e.0, (f - 1) as nat) {
                        Some(t) => {
                            assert(c0 + (seq![ChainLink { entity: current, rest: Some(e.1) }] + t)
                                =~= chain@ + t);
                        },
                        None => {},
                    }
                }
                prev = Some(current);
                current = e.0;
                f = f - 1;
            },
        }
    }
}

fn solver_starts_of(
    keys: &Vec<EntityId>,
    lists: &Vec<Vec<(EntityId, usize)>>,
    kinds: &Vec<(EntityId, NodeType)>,
    Ghost(adj): Ghost<Adjacency>,
) -> (r: Vec<EntityId>)
    requires
        keys.len() == lists.len(),
        keys@.no_duplicates(),
        held_as(adj, keys@, lists@),
    ensures
        r@ == anchors_in(keys@, kinds@) + single_ends_in(keys@, adj, kinds@),
{
    let mut anchors: Vec<EntityId> = Vec::new();
    let mut singles: Vec<EntityId> = Vec::new();
    let mut i: usize = 0;
    assert(keys@.take(0) =~= Seq::<EntityId>::empty());
    while i < keys.len()
        invariant
            i <= keys.len(),
            keys.len() == lists.len(),
            keys@.no_duplicates(),
            held_as(adj, keys@, lists@),
            anchors@ == anchors_in(keys@.take(i as int), kinds@),
            singles@ == single_ends_in(keys@.take(i as int), adj, kinds@),
        decreases keys.len() - i,
    {
        let e = keys[i];
        proof {
            let t = keys@.take(i + 1);
            assert(t.drop_last() =~= keys@.take(i as int));
            assert(t.last() == e);
            lemma_pos_of(keys@, e);
            assert(list_in(keys@, lists@, e) == adj(e));
            assert(adj(e) == Some(lists@[i as int]@));
        }
        if check_anchor(kinds, e) {
            anchors.push(e);
        } else if lists[i].len() == 1 {
            singles.push(e);
        }
        i = i + 1;
    }
    assert(keys@.take(keys.len() as int) =~= keys@);
    let mut out = anchors;
    let ghost a = out@;
    let ghost s = singles@;
    out.append(&mut singles);
    assert(out@ == a + s);
    out
}

pub proof fn lemma_solver_over_none(
    adj: Adjacency,
    fuel: nat,
    start: EntityId,
    nb: Seq<(EntityId, usize)>,
)
    ensures
        solver_over(adj, fuel, start, nb, None) is None,
    decreases nb.len(),
{
    if nb.len() > 0 {
        lemma_solver_over_none(adj, fuel, start, nb.drop_first());
    }
}

pub proof fn lemma_solver_all_none(adj: Adjacency, fuel: nat, starts: Seq<EntityId>)
    ensures
        solver_all(adj, fuel, starts, None) is None,
    decreases starts.len(),
{
    if starts.len() > 0 {
        lemma_solver_all_none(adj, fuel, starts.drop_first());
    }
}

pub proof fn lemma_ring_all_none(adj: Adjacency, fuel: nat, nodes: Seq<EntityId>)
    ensures
        ring_all(adj, fuel, nodes, None) is None,
    decreases nodes.len(),
{
    if nodes.len() > 0 {
        lemma_ring_all_none(adj, fuel, nodes.drop_first());
    }
}

fn standalone_constraints(cs: &Vec<DistanceConstraint>, visited: &Vec<EntityId>) -> (r: Vec<usize>)
    ensures
        r@ == standalone_of(cs@, visited@),
{
    let mut out: Vec<usize> = Vec::new();
    let mut i: usize = 0;
    assert(cs@.take(0) =~= Seq::<DistanceConstraint>::empty());
    while i < cs.len()
        invariant
            i <= cs.len(),
            out@ == standalone_of(cs@.take(i as int), visited@),
        decreases cs.len() - i,
    {
        let c = cs[i];
        proof {
            let t = cs@.take(i + 1);
            assert(t.drop_last() =~= cs@.take(i as int));
            assert(t.last() == c);
        }
        if !contains_entity(visited, c.node_a) || !contains_entity(visited, c.node_b) {
            out.push(i);
        }
        i = i + 1;
    }
    assert(cs@.take(cs.len() as int) =~= cs@);
    out
}

/// Splits the constraint graph into chains for the solver: from each start
/// (the anchors, then the other nodes with a single neighbour, in node
/// order), along each entry to a node not yet visited, the chain through the
/// nodes with exactly two entries; then, through every node still not
/// visited, the ring that returns to it. Also lists, by index, the
/// constraints that some endpoint of which no chain visits. None when a walk
/// does not end or reaches a node from which it cannot go on.
pub fn build_chains(constraints: &Vec<DistanceConstraint>, kinds: &Vec<(EntityId, NodeType)>) -> (r:
    Option<(Vec<Vec<ChainLink>>, Vec<usize>)>)
    requires
        constraints.len() < 0x7fff_ffff,
    ensures
        match r {
            Some(p) => solver_result(constraints@, kinds@) == Some((chains_view(p.0@), p.1@)),
            None => solver_result(constraints@, kinds@) is None,
        },
{
    let ghost cs = constraints@;
    let ghost adj = cs_adj(cs);
    let (keys, lists) = build_adjacency(constraints);
    proof {
        lemma_cs_adj_held(cs, keys@, lists@);
    }
    let fuel: usize = 2 * constraints.len() + 1;
    let ghost fl = fuel as nat;
    assert(fl == solver_fuel(cs.len()));
    let starts = solver_starts_of(&keys, &lists, kinds, Ghost(adj));
    let ghost ends = solver_ends(cs, kinds@);
    let ghost res = solver_result(cs, kinds@);
    let mut visited: Vec<EntityId> = Vec::new();
    let mut chains: Vec<Vec<ChainLink>> = Vec::new();
    assert(chains_view(chains@) =~= Seq::<Seq<ChainLink>>::empty());
    assert(starts@.skip(0) =~= starts@);
    let mut si: usize = 0;
    while si < starts.len()
        invariant
            si <= starts.len(),
            keys.len() == lists.len(),
            keys@.no_duplicates(),
            keys@ == endpoint_order(cs),
            cs == constraints@,
            adj == cs_adj(cs),
            held_as(adj, keys@, lists@),
            fl == fuel as nat,
            fl == solver_fuel(cs.len()),
            res == solver_result(cs, kinds@),
            ends == solver_ends(cs, kinds@),
            ends == solver_all(adj, fl, starts@.skip(si as int), Some((visited@, chains_view(chains@)))),
        decreases starts.len() - si,
    {
        let start = starts[si];
        proof {
            let sk = starts@.skip(si as int);
            assert(sk[0] == start);
            assert(sk.drop_first() =~= starts@.skip(si + 1));
        }
        if !contains_entity(&visited, start) {
            match lookup_list(&keys, &lists, start) {
                None => {
                    proof {
                        assert(list_in(keys@, lists@, start) == adj(start));
                        lemma_solver_all_none(adj, fl, starts@.skip(si + 1));
                        lemma_ring_all_none(adj, fl, keys@);
                    }
                    return None;
                },
                Some(nb) => {
                    assert(list_in(keys@, lists@, start) == adj(start));
                    let mut k: usize = 0;
                    assert(nb@.skip(0) =~= nb@);
                    while k < nb.len()
                        invariant
                            k <= nb.len(),
                            keys.len() == lists.len(),
                            keys@.no_duplicates(),
                            keys@ == endpoint_order(cs),
                            cs == constraints@,
                            adj == cs_adj(cs),
                            held_as(adj, keys@, lists@),
                            fl == fuel as nat,
                            fl == solver_fuel(cs.len()),
                            res == solver_result(cs, kinds@),
                            ends == solver_ends(cs, kinds@),
                            ends == solver_all(
                                adj,
                                fl,
                                starts@.skip(si + 1),
                                solver_over(
                                    adj,
                                    fl,
                                    start,
                                    nb@.skip(k as int),
                                    Some((visited@, chains_view(chains@))),
                                ),
                            ),
                        decreases nb.len() - k,
                    {
                        let e = nb[k];
                        let ghost stk: Option<ChainState> = Some((visited@, chains_view(chains@)));
                        proof {
                            let sk = nb@.skip(k as int);
                            assert(sk[0] == e);
                            assert(sk.drop_first() =~= nb@.skip(k + 1));
                        }
                        if !contains_entity(&visited, e.0) {
                            match trace_endpoint_chain(&keys, &lists, start, e.0, e.1, fuel, Ghost(adj)) {
                                None => {
                                    proof {
                                        assert(solver_step(adj, fl, start, stk, e) is None);
                                        lemma_solver_over_none(adj, fl, start, nb@.skip(k + 1));
                                        lemma_solver_all_none(adj, fl, starts@.skip(si + 1));
                                        lemma_ring_all_none(adj, fl, keys@);
                                    }
                                    return None;
                                },
                                Some(c) => {
                                    keep_chain(&mut visited, &mut chains, c);
                                },
                            }
                        }
                        k = k + 1;
                    }
                    assert(nb@.skip(k as int) =~= Seq::<(EntityId, usize)>::empty());
                },
            }
        }
        si = si + 1;
    }
    assert(starts@.skip(si as int) =~= Seq::<EntityId>::empty());
    let mut ki: usize = 0;
    assert(keys@.skip(0) =~= keys@);
    while ki < keys.len()
        invariant
            ki <= keys.len(),
            keys.len() == lists.len(),
            keys@.no_duplicates(),
            keys@ == endpoint_order(cs),
            cs == constraints@,
            adj == cs_adj(cs),
            held_as(adj, keys@, lists@),
            fl == fuel as nat,
            fl == solver_fuel(cs.len()),
            res == solver_result(cs, kinds@),
            res == (match ring_all(adj, fl, keys@.skip(ki as int), Some((visited@, chains_view(chains@)))) {
                None => None,
                Some(st) => Some((st.1, standalone_of(cs, st.0))),
            }),
        decreases keys.len() - ki,
    {
        let start = keys[ki];
        let ghost stk: Option<ChainState> = Some((visited@, chains_view(chains@)));
        proof {
            let sk = keys@.skip(ki as int);
            assert(sk[0] == start);
            assert(sk.drop_first() =~= keys@.skip(ki + 1));
        }
        if !contains_entity(&visited, start) {
            match trace_ring_chain(&keys, &lists, start, fuel, Ghost(adj)) {
                None => {
                    proof {
                        assert(ring_from(adj, fl, stk, start) is None);
                        lemma_ring_all_none(adj, fl, keys@.skip(ki + 1));
                    }
                    return None;
                },
                Some(c) => {
                    keep_chain(&mut visited, &mut chains, c);
                },
            }
        }
        ki = ki + 1;
    }
    assert(keys@.skip(ki as int) =~= Seq::<EntityId>::empty());
    let standalone = standalone_constraints(constraints, &visited);
    Some((chains, standalone))
}

pub proof fn lemma_ring_all_grows(adj: Adjacency, fuel: nat, nodes: Seq<EntityId>, s: ChainState)
    ensures
        ring_all(adj, fuel, nodes, Some(s)) matches Some(t) ==> (forall|x: EntityId|
            s.0.contains(x) ==> t.0.contains(x)) && (forall|i: int|
            0 <= i < nodes.len() ==> t.0.contains(#[trigger] nodes[i])),
    decreases nodes.len(),
{
    if nodes.len() > 0 {
        let n0 = nodes[0];
        let st1 = ring_from(adj, fuel, Some(s), n0);
        match st1 {
            None => {
                lemma_ring_all_none(adj, fuel, nodes.drop_first());
            },
            Some(s1) => {
                lemma_ring_all_grows(adj, fuel, nodes.drop_first(), s1);
                assert(s1.0.contains(n0) && forall|x: EntityId| s.0.contains(x) ==> s1.0.contains(x))
                    by {
                    if !s.0.contains(n0) {
                        let c = ring_chain(adj, fuel, n0)->0;
                        assert(c[0].entity == n0);
                        assert(s1.0 == s.0 + chain_nodes(c));
                        assert(s1.0[s.0.len() as int] == n0);
                        assert forall|x: EntityId| s.0.contains(x) implies s1.0.contains(x) by {
                            let k = choose|k: int| 0 <= k < s.0.len() && s.0[k] == x;
                            assert(s1.0[k] == x);
                        }
                    }
                }
                match ring_all(adj, fuel, nodes, Some(s)) {
                    Some(t) => {
                        assert forall|i: int| 0 <= i < nodes.len() implies t.0.contains(
                            #[trigger] nodes[i],
                        ) by {
                            if i > 0 {
                                assert(nodes.drop_first()[i - 1] == nodes[i]);
                            }
                        }
                    },
                    None => {},
                }
            },
        }
    }
}

pub proof fn lemma_standalone_empty(cs: Seq<DistanceConstraint>, visited: Seq<EntityId>)
    requires
        forall|e: EntityId| is_endpoint(cs, e) ==> visited.contains(e),
    ensures
        standalone_of(cs, visited).len() == 0,
    decreases cs.len(),
{
    if cs.len() > 0 {
        let pre = cs.drop_last();
        assert forall|e: EntityId| is_endpoint(pre, e) implies visited.contains(e) by {
            let i = choose|i: int| 0 <= i < pre.len() && #[trigger] touches(pre[i], e);
            assert(touches(cs[i], e));
        }
        lemma_standalone_empty(pre, visited);
        assert(touches(cs[cs.len() - 1], cs.last().node_a));
        assert(touches(cs[cs.len() - 1], cs.last().node_b));
    }
}

/// Every node ends up on some chain: when the solver's chain pass succeeds,
/// no constraint is left standalone.
pub proof fn solver_chains_leave_nothing_standalone(
    cs: Seq<DistanceConstraint>,
    kinds: Seq<(EntityId, NodeType)>,
)
    ensures
        solver_result(cs, kinds) matches Some(p) ==> p.1.len() == 0,
{
    let keys = endpoint_order(cs);
    match solver_ends(cs, kinds) {
        None => {
            lemma_ring_all_none(cs_adj(cs), solver_fuel(cs.len()), keys);
        },
        Some(s) => {
            lemma_ring_all_grows(cs_adj(cs), solver_fuel(cs.len()), keys, s);
            match ring_all(cs_adj(cs), solver_fuel(cs.len()), keys, Some(s)) {
                Some(t) => {
                    lemma_endpoint_order(cs);
                    assert forall|e: EntityId| is_endpoint(cs, e) implies t.0.contains(e) by {
                        assert(keys.contains(e));
                        let i = choose|i: int| 0 <= i < keys.len() && keys[i] == e;
                        assert(t.0.contains(keys[i]));
                    }
                    lemma_standalone_empty(cs, t.0);
                },
                None => {},
            }
        },
    }
}

/// Each link of the chain names a constraint that joins its node to the
/// next node of the chain; the last link names none.
pub open spec fn linked_chain(cs: Seq<DistanceConstraint>, c: Seq<ChainLink>) -> bool {
    &&& c.len() >= 1
    &&& c.last().rest is None
    &&& forall|i: int| 0 <= i < c.len() - 1 ==> link_ok(cs, #[trigger] c[i], c[i + 1])
}

/// The link `a` names a constraint that joins its node to the node of `b`.
pub open spec fn link_ok(cs: Seq<DistanceConstraint>, a: ChainLink, b: ChainLink) -> bool {
    match a.rest {
        Some(r) => (r as int) < cs.len() && joins(cs[r as int], a.entity, b.entity),
        None => false,
    }
}

pub open spec fn all_linked(cs: Seq<DistanceConstraint>, chains: Seq<Seq<ChainLink>>) -> bool {
    forall|i: int| 0 <= i < chains.len() ==> linked_chain(cs, #[trigger] chains[i])
}

/// `e` is an entry of the list of `x`: its constraint joins `x` to its node.
pub open spec fn entry_of(cs: Seq<DistanceConstraint>, x: EntityId, e: (EntityId, usize)) -> bool {
    (e.1 as int) < cs.len() && joins(cs[e.1 as int], x, e.0)
}

pub proof fn lemma_entries_of(cs: Seq<DistanceConstraint>, x: EntityId)
    requires
        cs.len() <= usize::MAX,
    ensures
        forall|k: int|
            0 <= k < neighbor_entries(cs, x).len() ==> entry_of(cs, x, #[trigger] neighbor_entries(cs, x)[k]),
{
    lemma_neighbor_entries(cs, x);
}

pub proof fn lemma_solver_walk_linked(
    cs: Seq<DistanceConstraint>,
    prev: EntityId,
    current: EntityId,
    fuel: nat,
)
    requires
        cs.len() <= usize::MAX,
    ensures
        solver_walk(cs_adj(cs), prev, current, fuel) matches Some(t) ==> linked_chain(cs, t) && t[0].entity
            == current,
    decreases fuel,
{
    if fuel > 0 {
        if endpoint_order(cs).contains(current) {
            let nb = neighbor_entries(cs, current);
            lemma_entries_of(cs, current);
            if nb.len() == 2 {
                let e = other_entry(nb, prev);
                assert(entry_of(cs, current, nb[0]));
                assert(entry_of(cs, current, nb[1]));
                lemma_solver_walk_linked(cs, current, e.0, (fuel - 1) as nat);
                match solver_walk(cs_adj(cs), current, e.0, (fuel - 1) as nat) {
                    Some(rest) => {
                        let t = seq![ChainLink { entity: current, rest: Some(e.1) }] + rest;
                        assert forall|i: int| 0 <= i < t.len() - 1 implies link_ok(cs, #[trigger] t[i], t[i + 1]) by {
                            if i > 0 {
                                assert(t[i] == rest[i - 1]);
                                assert(t[i + 1] == rest[i]);
                            }
                        }
                    },
                    None => {},
                }
            }
        }
    }
}

pub proof fn lemma_ring_walk_linked(
    cs: Seq<DistanceConstraint>,
    start: EntityId,
    prev: Option<EntityId>,
    current: EntityId,
    fuel: nat,
)
    requires
        cs.len() <= usize::MAX,
    ensures
        ring_walk(cs_adj(cs), start, prev, current, fuel) matches Some(t) ==> linked_chain(cs, t)
            && t[0].entity == current,
    decreases fuel,
{
    if fuel > 0 {
        if endpoint_order(cs).contains(current) {
            let nb = neighbor_entries(cs, current);
            lemma_entries_of(cs, current);
            match ring_entry(nb, prev) {
                None => {},
                Some(e) => {
                    if nb.len() >= 1 {
                        assert(entry_of(cs, current, nb[0]));
                    }
                    if nb.len() >= 2 {
                        assert(entry_of(cs, current, nb[1]));
                    }
                    assert(entry_of(cs, current, e));
                    if e.0 != start {
                        lemma_ring_walk_linked(cs, start, Some(current), e.0, (fuel - 1) as nat);
                        match ring_walk(cs_adj(cs), start, Some(current), e.0, (fuel - 1) as nat) {
                            Some(rest) => {
                                let t = seq![ChainLink { entity: current, rest: Some(e.1) }] + rest;
                                assert forall|i: int| 0 <= i < t.len() - 1 implies link_ok(cs, #[trigger] t[i], t[i + 1]) by {
                                    if i > 0 {
                                        assert(t[i] == rest[i - 1]);
                                        assert(t[i + 1] == rest[i]);
                                    }
                                }
                            },
                            None => {},
                        }
                    } else {
                        let t = seq![
                            ChainLink { entity: current, rest: Some(e.1) },
                            ChainLink { entity: start, rest: None },
                        ];
                        assert(linked_chain(cs, t));
                    }
                },
            }
        }
    }
}

pub proof fn lemma_add_linked(cs: Seq<DistanceConstraint>, s: ChainState, c: Seq<ChainLink>)
    requires
        all_linked(cs, s.1),
        linked_chain(cs, c),
    ensures
        all_linked(cs, add_chain(s, c).1),
{
    if c.len() >= 2 {
        assert forall|i: int| 0 <= i < s.1.push(c).len() implies linked_chain(cs, #[trigger] s.1.push(c)[i]) by {
            if i < s.1.len() {
                assert(s.1.push(c)[i] == s.1[i]);
            }
        }
    }
}

pub proof fn lemma_solver_over_linked(
    cs: Seq<DistanceConstraint>,
    start: EntityId,
    nb: Seq<(EntityId, usize)>,
    s: ChainState,
)
    requires
        cs.len() <= usize::MAX,
        all_linked(cs, s.1),
        forall|k: int| 0 <= k < nb.len() ==> entry_of(cs, start, #[trigger] nb[k]),
    ensures
        solver_over(cs_adj(cs), solver_fuel(cs.len()), start, nb, Some(s)) matches Some(t) ==> all_linked(
            cs,
            t.1,
        ),
    decreases nb.len(),
{
    if nb.len() > 0 {
        let adj = cs_adj(cs);
        let f = solver_fuel(cs.len());
        let e = nb[0];
        assert(entry_of(cs, start, e));
        let st1 = solver_step(adj, f, start, Some(s), e);
        assert forall|k: int| 0 <= k < nb.drop_first().len() implies entry_of(
            cs,
            start,
            #[trigger] nb.drop_first()[k],
        ) by {
            assert(nb.drop_first()[k] == nb[k + 1]);
        }
        match st1 {
            None => {
                lemma_solver_over_none(adj, f, start, nb.drop_first());
            },
            Some(s1) => {
                if !s.0.contains(e.0) {
                    lemma_solver_walk_linked(cs, start, e.0, f);
                    let tail = solver_walk(adj, start, e.0, f)->0;
                    let c = seq![ChainLink { entity: start, rest: Some(e.1) }] + tail;
                    assert forall|i: int| 0 <= i < c.len() - 1 implies link_ok(cs, #[trigger] c[i], c[i + 1]) by {
                        if i > 0 {
                            assert(c[i] == tail[i - 1]);
                            assert(c[i + 1] == tail[i]);
                        }
                    }
                    lemma_add_linked(cs, s, c);
                }
                lemma_solver_over_linked(cs, start, nb.drop_first(), s1);
            },
        }
    }
}

pub proof fn lemma_solver_all_linked(
    cs: Seq<DistanceConstraint>,
    starts: Seq<EntityId>,
    s: ChainState,
)
    requires
        cs.len() <= usize::MAX,
        all_linked(cs, s.1),
    ensures
        solver_all(cs_adj(cs), solver_fuel(cs.len()), starts, Some(s)) matches Some(t) ==> all_linked(
            cs,
            t.1,
        ),
    decreases starts.len(),
{
    if starts.len() > 0 {
        let adj = cs_adj(cs);
        let f = solver_fuel(cs.len());
        let x = starts[0];
        let st1 = solver_from(adj, f, Some(s), x);
        match st1 {
            None => {
                lemma_solver_all_none(adj, f, starts.drop_first());
            },
            Some(s1) => {
                if !s.0.contains(x) {
                    let nb = neighbor_entries(cs, x);
                    lemma_entries_of(cs, x);
                    lemma_solver_over_linked(cs, x, nb, s);
                }
                lemma_solver_all_linked(cs, starts.drop_first(), s1);
            },
        }
    }
}

pub proof fn lemma_ring_all_linked(cs: Seq<DistanceConstraint>, nodes: Seq<EntityId>, s: ChainState)
    requires
        cs.len() <= usize::MAX,
        all_linked(cs, s.1),
    ensures
        ring_all(cs_adj(cs), solver_fuel(cs.len()), nodes, Some(s)) matches Some(t) ==> all_linked(
            cs,
            t.1,
        ),
    decreases nodes.len(),
{
    if nodes.len() > 0 {
        let adj = cs_adj(cs);
        let f = solver_fuel(cs.len());
        let x = nodes[0];
        match ring_from(adj, f, Some(s), x) {
            None => {
                lemma_ring_all_none(adj, f, nodes.drop_first());
            },
            Some(s1) => {
                if !s.0.contains(x) {
                    lemma_ring_walk_linked(cs, x, None, x, f);
                    lemma_add_linked(cs, s, ring_chain(adj, f, x)->0);
                }
                lemma_ring_all_linked(cs, nodes.drop_first(), s1);
            },
        }
    }
}

/// The solver's chains only follow constraints: in every chain, each link
/// names a constraint that joins its node to the next one, and the last link
/// names none.
pub proof fn solver_chains_follow_constraints(
    cs: Seq<DistanceConstraint>,
    kinds: Seq<(EntityId, NodeType)>,
)
    requires
        cs.len() <= usize::MAX,
    ensures
        solver_result(cs, kinds) matches Some(p) ==> all_linked(cs, p.0),
{
    let keys = endpoint_order(cs);
    let adj = cs_adj(cs);
    let s0: ChainState = (Seq::empty(), Seq::empty());
    lemma_solver_all_linked(cs, anchors_in(keys, kinds) + single_ends_in(keys, adj, kinds), s0);
    match solver_ends(cs, kinds) {
        None => {
            lemma_ring_all_none(adj, solver_fuel(cs.len()), keys);
        },
        Some(s) => {
            lemma_ring_all_linked(cs, keys, s);
        },
    }
}


/// A skin chain follows the constraints and keeps off the legs: each link
/// but the last names a constraint that joins its node to the next one, and
/// no node of the chain is a leg.
pub open spec fn skin_linked(
    cs: Seq<DistanceConstraint>,
    kinds: Seq<(EntityId, NodeType)>,
    c: Seq<ChainLink>,
) -> bool {
    &&& forall|i: int| 0 <= i < c.len() - 1 ==> link_ok(cs, #[trigger] c[i], c[i + 1])
    &&& forall|i: int| 0 <= i < c.len() ==> !is_leg(kinds, (#[trigger] c[i]).entity)
}

pub open spec fn all_skin_linked(
    cs: Seq<DistanceConstraint>,
    kinds: Seq<(EntityId, NodeType)>,
    chains: Seq<Seq<ChainLink>>,
) -> bool {
    forall|i: int| 0 <= i < chains.len() ==> skin_linked(cs, kinds, #[trigger] chains[i])
}

proof fn lemma_non_limb_entries_of(
    cs: Seq<DistanceConstraint>,
    x: EntityId,
    nb: Seq<(EntityId, usize)>,
    kinds: Seq<(EntityId, NodeType)>,
)
    requires
        forall|k: int| 0 <= k < nb.len() ==> entry_of(cs, x, #[trigger] nb[k]),
    ensures
        forall|k: int|
            0 <= k < non_limb_entries(nb, kinds).len() ==> entry_of(
                cs,
                x,
                #[trigger] non_limb_entries(nb, kinds)[k],
            ) && !is_leg(kinds, non_limb_entries(nb, kinds)[k].0),
    decreases nb.len(),
{
    if nb.len() > 0 {
        let d = nb.drop_last();
        assert forall|k: int| 0 <= k < d.len() implies entry_of(cs, x, #[trigger] d[k]) by {
            assert(d[k] == nb[k]);
        }
        lemma_non_limb_entries_of(cs, x, d, kinds);
        let a = non_limb_entries(d, kinds);
        let b = if non_limb(kinds, nb.last().0) {
            seq![nb.last()]
        } else {
            Seq::empty()
        };
        assert(entry_of(cs, x, nb[nb.len() - 1]));
        assert forall|k: int| 0 <= k < (a + b).len() implies entry_of(cs, x, #[trigger] (a + b)[k])
            && !is_leg(kinds, (a + b)[k].0) by {
            if k < a.len() {
                assert((a + b)[k] == a[k]);
            } else {
                assert((a + b)[k] == b[k - a.len()]);
            }
        }
    }
}

proof fn lemma_skin_walk_linked(
    cs: Seq<DistanceConstraint>,
    kinds: Seq<(EntityId, NodeType)>,
    prev: EntityId,
    current: EntityId,
    fuel: nat,
)
    requires
        cs.len() <= usize::MAX,
    ensures
        skin_walk(cs_adj(cs), kinds, prev, current, fuel) matches Some(t) ==> skin_linked(cs, kinds, t)
            && (t.len() > 0 ==> t[0].entity == current),
    decreases fuel,
{
    if fuel > 0 && !is_leg(kinds, current) && endpoint_order(cs).contains(current) {
        let nb = neighbor_entries(cs, current);
        lemma_entries_of(cs, current);
        lemma_non_limb_entries_of(cs, current, nb, kinds);
        let nl = non_limb_entries(nb, kinds);
        if nl.len() == 2 {
            let e = other_entry(nl, prev);
            assert(entry_of(cs, current, nl[0]));
            assert(entry_of(cs, current, nl[1]));
            lemma_skin_walk_linked(cs, kinds, current, e.0, (fuel - 1) as nat);
            match skin_walk(cs_adj(cs), kinds, current, e.0, (fuel - 1) as nat) {
                Some(rest) => {
                    let t = seq![ChainLink { entity: current, rest: Some(e.1) }] + rest;
                    assert forall|i: int| 0 <= i < t.len() - 1 implies link_ok(cs, #[trigger] t[i], t[i + 1]) by {
                        if i > 0 {
                            assert(t[i] == rest[i - 1]);
                            assert(t[i + 1] == rest[i]);
                        }
                    }
                    assert forall|i: int| 0 <= i < t.len() implies !is_leg(kinds, (#[trigger] t[i]).entity) by {
                        if i > 0 {
                            assert(t[i] == rest[i - 1]);
                        }
                    }
                },
                None => {},
            }
        }
    }
}

proof fn lemma_add_skin_linked(
    cs: Seq<DistanceConstraint>,
    kinds: Seq<(EntityId, NodeType)>,
    s: ChainState,
    c: Seq<ChainLink>,
)
    requires
        all_skin_linked(cs, kinds, s.1),
        skin_linked(cs, kinds, c),
    ensures
        all_skin_linked(cs, kinds, add_chain(s, c).1),
{
    if c.len() >= 2 {
        assert forall|i: int| 0 <= i < s.1.push(c).len() implies skin_linked(
            cs,
            kinds,
            #[trigger] s.1.push(c)[i],
        ) by {
            if i < s.1.len() {
                assert(s.1.push(c)[i] == s.1[i]);
            }
        }
    }
}

proof fn lemma_skin_over_linked(
    cs: Seq<DistanceConstraint>,
    fuel: nat,
    kinds: Seq<(EntityId, NodeType)>,
    start: EntityId,
    nb: Seq<(EntityId, usize)>,
    s: ChainState,
)
    requires
        cs.len() <= usize::MAX,
        !is_leg(kinds, start),
        all_skin_linked(cs, kinds, s.1),
        forall|k: int| 0 <= k < nb.len() ==> entry_of(cs, start, #[trigger] nb[k]),
    ensures
        skin_over(cs_adj(cs), fuel, kinds, start, nb, Some(s)) matches Some(t) ==> all_skin_linked(
            cs,
            kinds,
            t.1,
        ),
    decreases nb.len(),
{
    if nb.len() > 0 {
        let adj = cs_adj(cs);
        let e = nb[0];
        assert(entry_of(cs, start, e));
        assert forall|k: int| 0 <= k < nb.drop_first().len() implies entry_of(
            cs,
            start,
            #[trigger] nb.drop_first()[k],
        ) by {
            assert(nb.drop_first()[k] == nb[k + 1]);
        }
        match skin_step(adj, fuel, kinds, start, Some(s), e) {
            None => {
                lemma_skin_over_none(adj, fuel, kinds, start, nb.drop_first());
            },
            Some(s1) => {
                if !(s.0.contains(e.0) || is_leg(kinds, e.0)) {
                    lemma_skin_walk_linked(cs, kinds, start, e.0, fuel);
                    let tail = skin_walk(adj, kinds, start, e.0, fuel)->0;
                    let c = seq![ChainLink { entity: start, rest: Some(e.1) }] + tail;
                    assert forall|i: int| 0 <= i < c.len() - 1 implies link_ok(cs, #[trigger] c[i], c[i + 1]) by {
                        if i > 0 {
                            assert(c[i] == tail[i - 1]);
                            assert(c[i + 1] == tail[i]);
                        }
                    }
                    assert forall|i: int| 0 <= i < c.len() implies !is_leg(kinds, (#[trigger] c[i]).entity) by {
                        if i > 0 {
                            assert(c[i] == tail[i - 1]);
                        }
                    }
                    lemma_add_skin_linked(cs, kinds, s, c);
                }
                lemma_skin_over_linked(cs, fuel, kinds, start, nb.drop_first(), s1);
            },
        }
    }
}

proof fn lemma_skin_all_linked(
    cs: Seq<DistanceConstraint>,
    fuel: nat,
    kinds: Seq<(EntityId, NodeType)>,
    starts: Seq<EntityId>,
    s: ChainState,
)
    requires
        cs.len() <= usize::MAX,
        forall|i: int| 0 <= i < starts.len() ==> !is_leg(kinds, #[trigger] starts[i]),
        all_skin_linked(cs, kinds, s.1),
    ensures
        skin_all(cs_adj(cs), fuel, kinds, starts, Some(s)) matches Some(t) ==> all_skin_linked(
            cs,
            kinds,
            t.1,
        ),
    decreases starts.len(),
{
    if starts.len() > 0 {
        let adj = cs_adj(cs);
        let x = starts[0];
        assert(!is_leg(kinds, x));
        assert forall|i: int| 0 <= i < starts.drop_first().len() implies !is_leg(
            kinds,
            #[trigger] starts.drop_first()[i],
        ) by {
            assert(starts.drop_first()[i] == starts[i + 1]);
        }
        match skin_from(adj, fuel, kinds, Some(s), x) {
            None => {
                lemma_skin_all_none(adj, fuel, kinds, starts.drop_first());
            },
            Some(s1) => {
                if !s.0.contains(x) && endpoint_order(cs).contains(x) {
                    let nb = neighbor_entries(cs, x);
                    lemma_entries_of(cs, x);
                    lemma_skin_over_linked(cs, fuel, kinds, x, nb, s);
                }
                lemma_skin_all_linked(cs, fuel, kinds, starts.drop_first(), s1);
            },
        }
    }
}

/// The skin's chains follow the constraints and keep off the legs: for the
/// graph of the constraints `cs` and the starts that the skin takes, every
/// chain that the pass keeps links each node to the next by the constraint
/// its link names, and holds no leg.
pub proof fn skin_chains_follow_constraints(
    g: ConstraintGraph,
    cs: Seq<DistanceConstraint>,
    kinds: Seq<(EntityId, NodeType)>,
    starts: Seq<EntityId>,
)
    requires
        cs.len() <= usize::MAX,
        g.describes(cs),
        skin_start_order(g.keys@, graph_adj(g), kinds, starts),
    ensures
        skin_result(graph_adj(g), walk_fuel(g.adjacency@), kinds, starts) matches Some(st)
            ==> all_skin_linked(cs, kinds, st.1),
{
    lemma_cs_adj_held(cs, g.keys@, g.adjacency@);
    assert(graph_adj(g) =~= cs_adj(cs)) by {
        assert forall|x: EntityId| #[trigger] graph_adj(g)(x) == cs_adj(cs)(x) by {
            assert(list_in(g.keys@, g.adjacency@, x) == cs_adj(cs)(x));
        }
    }
    let (a, l) = choose|a: Seq<EntityId>, l: Seq<EntityId>|
        {
            &&& starts == a + l
            &&& strictly_sorted(a)
            &&& strictly_sorted(l)
            &&& forall|e: EntityId| #[trigger]
                a.contains(e) <==> g.keys@.contains(e) && anchor_start(kinds, e)
            &&& forall|e: EntityId| #[trigger]
                l.contains(e) <==> g.keys@.contains(e) && leaf_start(graph_adj(g), kinds, e)
        };
    assert forall|i: int| 0 <= i < starts.len() implies !is_leg(kinds, #[trigger] starts[i]) by {
        if i < a.len() {
            assert(starts[i] == a[i]);
            assert(a.contains(a[i]));
        } else {
            assert(starts[i] == l[i - a.len()]);
            assert(l.contains(l[i - a.len()]));
        }
    }
    let s0: ChainState = (Seq::empty(), Seq::empty());
    lemma_skin_all_linked(cs, walk_fuel(g.adjacency@), kinds, starts, s0);
}


// ---------------------------------------------------------------------------
// When the skin pass finds its chains
// ---------------------------------------------------------------------------

/// No constraint joins a node to itself, and no two constraints join the
/// same two nodes.
pub open spec fn no_repeated_links(cs: Seq<DistanceConstraint>) -> bool {
    &&& forall|i: int| 0 <= i < cs.len() ==> (#[trigger] cs[i]).node_a != cs[i].node_b
    &&& forall|i: int, j: int|
        0 <= i < j < cs.len() ==> !joins(#[trigger] cs[j], (#[trigger] cs[i]).node_a, cs[i].node_b)
}

/// The walk `w` does not step straight back at its `k`-th node.
pub open spec fn no_turn_back(w: Seq<EntityId>, k: int) -> bool {
    w[k] != w[k + 2]
}

/// A cycle of the constraints: a walk of at least one step that comes back
/// to its first node without ever stepping straight back.
pub open spec fn is_cycle(cs: Seq<DistanceConstraint>, p: Seq<EntityId>) -> bool {
    &&& is_walk(cs, p)
    &&& p.len() >= 2
    &&& p[0] == p.last()
    &&& forall|k: int| 0 <= k < p.len() - 2 ==> #[trigger] no_turn_back(p, k)
}

/// The constraints form a forest: they have no cycle.
pub open spec fn acyclic(cs: Seq<DistanceConstraint>) -> bool {
    forall|p: Seq<EntityId>| !#[trigger] is_cycle(cs, p)
}

proof fn lemma_entities_distinct(cs: Seq<DistanceConstraint>, x: EntityId)
    requires
        cs.len() <= usize::MAX,
        no_repeated_links(cs),
    ensures
        forall|k1: int, k2: int|
            0 <= k1 < k2 < neighbor_entries(cs, x).len() ==> (#[trigger] neighbor_entries(cs, x)[k1]).0
                != (#[trigger] neighbor_entries(cs, x)[k2]).0,
    decreases cs.len(),
{
    if cs.len() > 0 {
        let pre = cs.drop_last();
        let m = cs.len() - 1;
        assert forall|i: int| 0 <= i < pre.len() implies (#[trigger] pre[i]).node_a != pre[i].node_b by {
            assert(pre[i] == cs[i]);
        }
        assert forall|i: int, j: int| 0 <= i < j < pre.len() implies !joins(
            #[trigger] pre[j],
            (#[trigger] pre[i]).node_a,
            pre[i].node_b,
        ) by {
            assert(pre[i] == cs[i]);
            assert(pre[j] == cs[j]);
        }
        lemma_entities_distinct(pre, x);
        lemma_neighbor_entries(pre, x);
        let a = neighbor_entries(pre, x);
        let c = cs.last();
        let b = entries_for(c, m, x);
        assert(c.node_a != c.node_b) by {
            assert(cs[m] == c);
        }
        assert(neighbor_entries(cs, x) == a + b);
        assert forall|k1: int, k2: int| 0 <= k1 < k2 < (a + b).len() implies (#[trigger] (a + b)[k1]).0
            != (#[trigger] (a + b)[k2]).0 by {
            if k2 < a.len() {
                assert((a + b)[k1] == a[k1]);
                assert((a + b)[k2] == a[k2]);
            } else if k1 < a.len() {
                let e1 = a[k1];
                let e2 = b[k2 - a.len()];
                assert((a + b)[k1] == e1);
                assert((a + b)[k2] == e2);
                let i = e1.1 as int;
                assert(joins(pre[i], x, e1.0));
                assert(pre[i] == cs[i]);
                assert(joins(c, x, e2.0));
                if e1.0 == e2.0 {
                    assert(joins(cs[m], cs[i].node_a, cs[i].node_b));
                }
            } else {
                assert(b.len() <= 1);
            }
        }
    }
}

proof fn lemma_non_limb_distinct(nb: Seq<(EntityId, usize)>, kinds: Seq<(EntityId, NodeType)>)
    requires
        forall|k1: int, k2: int| 0 <= k1 < k2 < nb.len() ==> (#[trigger] nb[k1]).0 != (#[trigger] nb[k2]).0,
    ensures
        forall|k1: int, k2: int|
            0 <= k1 < k2 < non_limb_entries(nb, kinds).len() ==> (#[trigger] non_limb_entries(
                nb,
                kinds,
            )[k1]).0 != (#[trigger] non_limb_entries(nb, kinds)[k2]).0,
        forall|k: int|
            0 <= k < non_limb_entries(nb, kinds).len() ==> exists|j: int|
                0 <= j < nb.len() && nb[j] == #[trigger] non_limb_entries(nb, kinds)[k],
    decreases nb.len(),
{
    if nb.len() > 0 {
        let d = nb.drop_last();
        assert forall|k1: int, k2: int| 0 <= k1 < k2 < d.len() implies (#[trigger] d[k1]).0
            != (#[trigger] d[k2]).0 by {
            assert(d[k1] == nb[k1]);
            assert(d[k2] == nb[k2]);
        }
        lemma_non_limb_distinct(d, kinds);
        let a = non_limb_entries(d, kinds);
        let b = if non_limb(kinds, nb.last().0) {
            seq![nb.last()]
        } else {
            Seq::empty()
        };
        assert(non_limb_entries(nb, kinds) == a + b);
        assert forall|k: int| 0 <= k < (a + b).len() implies exists|j: int|
            0 <= j < nb.len() && nb[j] == #[trigger] (a + b)[k] by {
            if k < a.len() {
                assert((a + b)[k] == a[k]);
                let j = choose|j: int| 0 <= j < d.len() && d[j] == a[k];
                assert(nb[j] == d[j]);
            } else {
                assert((a + b)[k] == nb[nb.len() - 1]);
            }
        }
        assert forall|k1: int, k2: int| 0 <= k1 < k2 < (a + b).len() implies (#[trigger] (a + b)[k1]).0
            != (#[trigger] (a + b)[k2]).0 by {
            if k2 < a.len() {
                assert((a + b)[k1] == a[k1]);
                assert((a + b)[k2] == a[k2]);
            } else if k1 < a.len() {
                assert((a + b)[k1] == a[k1]);
                assert((a + b)[k2] == nb[nb.len() - 1]);
                let j = choose|j: int| 0 <= j < d.len() && d[j] == a[k1];
                assert(nb[j] == d[j]);
            }
        }
    }
}

/// The walk `w` runs `fuel + 2` nodes from `prev` into `current` and never
/// steps straight back.
pub open spec fn long_walk(
    cs: Seq<DistanceConstraint>,
    w: Seq<EntityId>,
    prev: EntityId,
    current: EntityId,
    fuel: nat,
) -> bool {
    &&& is_walk(cs, w)
    &&& w.len() == fuel + 2
    &&& w[0] == prev
    &&& w[1] == current
    &&& forall|k: int| 0 <= k < w.len() - 2 ==> #[trigger] no_turn_back(w, k)
}

proof fn lemma_skin_walk_none(
    cs: Seq<DistanceConstraint>,
    kinds: Seq<(EntityId, NodeType)>,
    prev: EntityId,
    current: EntityId,
    fuel: nat,
)
    requires
        cs.len() <= usize::MAX,
        no_repeated_links(cs),
        linked(cs, prev, current),
    ensures
        skin_walk(cs_adj(cs), kinds, prev, current, fuel) is None ==> exists|w: Seq<EntityId>|
            #[trigger] long_walk(cs, w, prev, current, fuel),
    decreases fuel,
{
    if fuel == 0 {
        let w = seq![prev, current];
        assert(step_ok(cs, w, 0));
        assert(long_walk(cs, w, prev, current, fuel));
    } else if !is_leg(kinds, current) {
        let i = choose|i: int| 0 <= i < cs.len() && #[trigger] joins(cs[i], prev, current);
        assert(touches(cs[i], current));
        lemma_endpoint_order(cs);
        assert(endpoint_order(cs).contains(current));
        let nb = neighbor_entries(cs, current);
        let nl = non_limb_entries(nb, kinds);
        if nl.len() == 2 {
            lemma_entries_of(cs, current);
            lemma_non_limb_entries_of(cs, current, nb, kinds);
            lemma_entities_distinct(cs, current);
            lemma_non_limb_distinct(nb, kinds);
            assert(nl[0].0 != nl[1].0);
            let e = other_entry(nl, prev);
            assert(entry_of(cs, current, nl[0]));
            assert(entry_of(cs, current, nl[1]));
            assert(e.0 != prev);
            assert(joins(cs[e.1 as int], current, e.0));
            assert(linked(cs, current, e.0));
            lemma_skin_walk_none(cs, kinds, current, e.0, (fuel - 1) as nat);
            if skin_walk(cs_adj(cs), kinds, current, e.0, (fuel - 1) as nat) is None {
                let w1 = choose|w1: Seq<EntityId>| #[trigger] long_walk(cs, w1, current, e.0, (fuel - 1) as nat);
                let w = seq![prev] + w1;
                assert(w[0] == prev);
                assert(w[1] == w1[0]);
                assert forall|t: int| 0 <= t < w.len() - 1 implies #[trigger] step_ok(cs, w, t) by {
                    if t == 0 {
                        assert(w[0] == prev && w[1] == current);
                    } else {
                        assert(w[t] == w1[t - 1]);
                        assert(w[t + 1] == w1[t]);
                        assert(step_ok(cs, w1, t - 1));
                    }
                }
                assert forall|k: int| 0 <= k < w.len() - 2 implies #[trigger] no_turn_back(w, k) by {
                    if k == 0 {
                        assert(w[2] == w1[1]);
                    } else {
                        assert(w[k] == w1[k - 1]);
                        assert(w[k + 2] == w1[k + 1]);
                        assert(no_turn_back(w1, k - 1));
                    }
                }
                assert(long_walk(cs, w, prev, current, fuel));
            }
        }
    }
}

proof fn lemma_long_walk_cycle(cs: Seq<DistanceConstraint>, w: Seq<EntityId>)
    requires
        is_walk(cs, w),
        w.len() >= 2,
        forall|k: int| 0 <= k < w.len() - 2 ==> #[trigger] no_turn_back(w, k),
        w.len() > endpoint_order(cs).len(),
    ensures
        exists|p: Seq<EntityId>| #[trigger] is_cycle(cs, p),
{
    let keys = endpoint_order(cs);
    lemma_endpoint_order(cs);
    assert forall|t: int| 0 <= t < w.len() implies keys.contains(#[trigger] w[t]) by {
        let s = if t < w.len() - 1 {
            t
        } else {
            t - 1
        };
        assert(step_ok(cs, w, s));
        let i = choose|i: int| 0 <= i < cs.len() && #[trigger] joins(cs[i], w[s], w[s + 1]);
        assert(touches(cs[i], w[t]));
    }
    if w.no_duplicates() {
        w.unique_seq_to_set();
        keys.unique_seq_to_set();
        assert(w.to_set().subset_of(keys.to_set()));
        vstd::set_lib::lemma_len_subset(w.to_set(), keys.to_set());
        assert(false);
    }
    let (i, j) = choose|i: int, j: int| 0 <= i < w.len() && 0 <= j < w.len() && i != j && w[i] == w[j];
    let (lo, hi) = if i < j {
        (i, j)
    } else {
        (j, i)
    };
    let p = w.subrange(lo, hi + 1);
    assert forall|t: int| 0 <= t < p.len() - 1 implies #[trigger] step_ok(cs, p, t) by {
        assert(step_ok(cs, w, lo + t));
    }
    assert forall|k: int| 0 <= k < p.len() - 2 implies #[trigger] no_turn_back(p, k) by {
        assert(no_turn_back(w, lo + k));
    }
    assert(is_cycle(cs, p));
}

proof fn lemma_skin_walk_some(
    cs: Seq<DistanceConstraint>,
    kinds: Seq<(EntityId, NodeType)>,
    prev: EntityId,
    current: EntityId,
    fuel: nat,
)
    requires
        cs.len() <= usize::MAX,
        no_repeated_links(cs),
        acyclic(cs),
        linked(cs, prev, current),
        fuel + 2 > endpoint_order(cs).len(),
    ensures
        skin_walk(cs_adj(cs), kinds, prev, current, fuel) is Some,
{
    lemma_skin_walk_none(cs, kinds, prev, current, fuel);
    if skin_walk(cs_adj(cs), kinds, prev, current, fuel) is None {
        let w = choose|w: Seq<EntityId>| #[trigger] long_walk(cs, w, prev, current, fuel);
        lemma_long_walk_cycle(cs, w);
        let p = choose|p: Seq<EntityId>| #[trigger] is_cycle(cs, p);
        assert(!is_cycle(cs, p));
    }
}

proof fn lemma_skin_over_some(
    cs: Seq<DistanceConstraint>,
    fuel: nat,
    kinds: Seq<(EntityId, NodeType)>,
    start: EntityId,
    nb: Seq<(EntityId, usize)>,
    s: ChainState,
)
    requires
        cs.len() <= usize::MAX,
        no_repeated_links(cs),
        acyclic(cs),
        fuel + 2 > endpoint_order(cs).len(),
        forall|k: int| 0 <= k < nb.len() ==> entry_of(cs, start, #[trigger] nb[k]),
    ensures
        skin_over(cs_adj(cs), fuel, kinds, start, nb, Some(s)) is Some,
    decreases nb.len(),
{
    if nb.len() > 0 {
        let adj = cs_adj(cs);
        let e = nb[0];
        assert(entry_of(cs, start, e));
        assert(joins(cs[e.1 as int], start, e.0));
        assert(linked(cs, start, e.0));
        lemma_skin_walk_some(cs, kinds, start, e.0, fuel);
        assert forall|k: int| 0 <= k < nb.drop_first().len() implies entry_of(
            cs,
            start,
            #[trigger] nb.drop_first()[k],
        ) by {
            assert(nb.drop_first()[k] == nb[k + 1]);
        }
        let st1 = skin_step(adj, fuel, kinds, start, Some(s), e);
        assert(st1 is Some);
        lemma_skin_over_some(cs, fuel, kinds, start, nb.drop_first(), st1->0);
    }
}

proof fn lemma_skin_all_some(
    cs: Seq<DistanceConstraint>,
    fuel: nat,
    kinds: Seq<(EntityId, NodeType)>,
    starts: Seq<EntityId>,
    s: ChainState,
)
    requires
        cs.len() <= usize::MAX,
        no_repeated_links(cs),
        acyclic(cs),
        fuel + 2 > endpoint_order(cs).len(),
    ensures
        skin_all(cs_adj(cs), fuel, kinds, starts, Some(s)) is Some,
    decreases starts.len(),
{
    if starts.len() > 0 {
        let adj = cs_adj(cs);
        let x = starts[0];
        if !s.0.contains(x) && endpoint_order(cs).contains(x) {
            lemma_entries_of(cs, x);
            lemma_skin_over_some(cs, fuel, kinds, x, neighbor_entries(cs, x), s);
        }
        let st1 = skin_from(adj, fuel, kinds, Some(s), x);
        assert(st1 is Some);
        lemma_skin_all_some(cs, fuel, kinds, starts.drop_first(), st1->0);
    }
}

proof fn lemma_entry_total_covers(lists: Seq<Vec<(EntityId, usize)>>)
    requires
        forall|j: int| 0 <= j < lists.len() ==> (#[trigger] lists[j]).len() >= 1,
    ensures
        entry_total(lists) >= lists.len(),
    decreases lists.len(),
{
    if lists.len() > 0 {
        let d = lists.drop_last();
        assert forall|j: int| 0 <= j < d.len() implies (#[trigger] d[j]).len() >= 1 by {
            assert(d[j] == lists[j]);
        }
        lemma_entry_total_covers(d);
        assert(lists.last() == lists[lists.len() - 1]);
    }
}

/// On a forest the skin pass always finds its chains: when no constraint
/// joins a node to itself, no two constraints join the same two nodes, and
/// the constraints have no cycle, the pass over any starts succeeds.
pub proof fn skin_chains_found_on_forests(
    g: ConstraintGraph,
    cs: Seq<DistanceConstraint>,
    kinds: Seq<(EntityId, NodeType)>,
    starts: Seq<EntityId>,
)
    requires
        cs.len() <= usize::MAX,
        g.describes(cs),
        no_repeated_links(cs),
        acyclic(cs),
    ensures
        skin_result(graph_adj(g), walk_fuel(g.adjacency@), kinds, starts) is Some,
{
    lemma_cs_adj_held(cs, g.keys@, g.adjacency@);
    assert(graph_adj(g) =~= cs_adj(cs)) by {
        assert forall|x: EntityId| #[trigger] graph_adj(g)(x) == cs_adj(cs)(x) by {
            assert(list_in(g.keys@, g.adjacency@, x) == cs_adj(cs)(x));
        }
    }
    lemma_endpoint_order(cs);
    let keys = g.keys@;
    let lists = g.adjacency@;
    assert forall|j: int| 0 <= j < lists.len() implies (#[trigger] lists[j]).len() >= 1 by {
        assert(keys.contains(keys[j]));
        assert(is_endpoint(cs, keys[j]));
        let i = choose|i: int| 0 <= i < cs.len() && #[trigger] touches(cs[i], keys[j]);
        lemma_neighbor_entries(cs, keys[j]);
        if cs[i].node_a == keys[j] {
            assert(joins(cs[i], keys[j], cs[i].node_b));
            assert(neighbor_entries(cs, keys[j]).contains((cs[i].node_b, i as usize)));
        } else {
            assert(joins(cs[i], keys[j], cs[i].node_a));
            assert(neighbor_entries(cs, keys[j]).contains((cs[i].node_a, i as usize)));
        }
        assert(lists[j]@ == neighbor_entries(cs, keys[j]));
    }
    lemma_entry_total_covers(lists);
    let s0: ChainState = (Seq::empty(), Seq::empty());
    lemma_skin_all_some(cs, walk_fuel(lists), kinds, starts, s0);
}


// ---------------------------------------------------------------------------
// When the solver's end chains are found
// ---------------------------------------------------------------------------

proof fn lemma_solver_walk_none(cs: Seq<DistanceConstraint>, prev: EntityId, current: EntityId, fuel: nat)
    requires
        cs.len() <= usize::MAX,
        no_repeated_links(cs),
        linked(cs, prev, current),
    ensures
        solver_walk(cs_adj(cs), prev, current, fuel) is None ==> exists|w: Seq<EntityId>|
            #[trigger] long_walk(cs, w, prev, current, fuel),
    decreases fuel,
{
    if fuel == 0 {
        let w = seq![prev, current];
        assert(step_ok(cs, w, 0));
        assert(long_walk(cs, w, prev, current, fuel));
    } else {
        let i = choose|i: int| 0 <= i < cs.len() && #[trigger] joins(cs[i], prev, current);
        assert(touches(cs[i], current));
        lemma_endpoint_order(cs);
        assert(endpoint_order(cs).contains(current));
        let nb = neighbor_entries(cs, current);
        if nb.len() == 2 {
            lemma_entries_of(cs, current);
            lemma_entities_distinct(cs, current);
            assert(nb[0].0 != nb[1].0);
            let e = other_entry(nb, prev);
            assert(entry_of(cs, current, nb[0]));
            assert(entry_of(cs, current, nb[1]));
            assert(e.0 != prev);
            assert(joins(cs[e.1 as int], current, e.0));
            assert(linked(cs, current, e.0));
            lemma_solver_walk_none(cs, current, e.0, (fuel - 1) as nat);
            if solver_walk(cs_adj(cs), current, e.0, (fuel - 1) as nat) is None {
                let w1 = choose|w1: Seq<EntityId>| #[trigger] long_walk(cs, w1, current, e.0, (fuel - 1) as nat);
                let w = seq![prev] + w1;
                assert(w[0] == prev);
                assert(w[1] == w1[0]);
                assert forall|t: int| 0 <= t < w.len() - 1 implies #[trigger] step_ok(cs, w, t) by {
                    if t == 0 {
                        assert(w[0] == prev && w[1] == current);
                    } else {
                        assert(w[t] == w1[t - 1]);
                        assert(w[t + 1] == w1[t]);
                        assert(step_ok(cs, w1, t - 1));
                    }
                }
                assert forall|k: int| 0 <= k < w.len() - 2 implies #[trigger] no_turn_back(w, k) by {
                    if k == 0 {
                        assert(w[2] == w1[1]);
                    } else {
                        assert(w[k] == w1[k - 1]);
                        assert(w[k + 2] == w1[k + 1]);
                        assert(no_turn_back(w1, k - 1));
                    }
                }
                assert(long_walk(cs, w, prev, current, fuel));
            }
        }
    }
}

proof fn lemma_solver_over_some(
    cs: Seq<DistanceConstraint>,
    start: EntityId,
    nb: Seq<(EntityId, usize)>,
    s: ChainState,
)
    requires
        cs.len() <= usize::MAX,
        no_repeated_links(cs),
        acyclic(cs),
        forall|k: int| 0 <= k < nb.len() ==> entry_of(cs, start, #[trigger] nb[k]),
    ensures
        solver_over(cs_adj(cs), solver_fuel(cs.len()), start, nb, Some(s)) is Some,
    decreases nb.len(),
{
    if nb.len() > 0 {
        let adj = cs_adj(cs);
        let f = solver_fuel(cs.len());
        let e = nb[0];
        assert(entry_of(cs, start, e));
        assert(joins(cs[e.1 as int], start, e.0));
        assert(linked(cs, start, e.0));
        lemma_endpoint_order(cs);
        lemma_solver_walk_none(cs, start, e.0, f);
        if solver_walk(adj, start, e.0, f) is None {
            let w = choose|w: Seq<EntityId>| #[trigger] long_walk(cs, w, start, e.0, f);
            lemma_long_walk_cycle(cs, w);
            let p = choose|p: Seq<EntityId>| #[trigger] is_cycle(cs, p);
            assert(!is_cycle(cs, p));
        }
        assert forall|k: int| 0 <= k < nb.drop_first().len() implies entry_of(
            cs,
            start,
            #[trigger] nb.drop_first()[k],
        ) by {
            assert(nb.drop_first()[k] == nb[k + 1]);
        }
        let st1 = solver_step(adj, f, start, Some(s), e);
        assert(st1 is Some);
        lemma_solver_over_some(cs, start, nb.drop_first(), st1->0);
    }
}

proof fn lemma_solver_all_some(cs: Seq<DistanceConstraint>, starts: Seq<EntityId>, s: ChainState)
    requires
        cs.len() <= usize::MAX,
        no_repeated_links(cs),
        acyclic(cs),
        forall|i: int| 0 <= i < starts.len() ==> endpoint_order(cs).contains(#[trigger] starts[i]),
    ensures
        solver_all(cs_adj(cs), solver_fuel(cs.len()), starts, Some(s)) is Some,
    decreases starts.len(),
{
    if starts.len() > 0 {
        let adj = cs_adj(cs);
        let x = starts[0];
        assert(endpoint_order(cs).contains(x));
        if !s.0.contains(x) {
            lemma_entries_of(cs, x);
            lemma_solver_over_some(cs, x, neighbor_entries(cs, x), s);
        }
        let st1 = solver_from(adj, solver_fuel(cs.len()), Some(s), x);
        assert(st1 is Some);
        assert forall|i: int| 0 <= i < starts.drop_first().len() implies endpoint_order(cs).contains(
            #[trigger] starts.drop_first()[i],
        ) by {
            assert(starts.drop_first()[i] == starts[i + 1]);
        }
        lemma_solver_all_some(cs, starts.drop_first(), st1->0);
    }
}

proof fn lemma_anchors_in_keys(keys: Seq<EntityId>, kinds: Seq<(EntityId, NodeType)>)
    ensures
        forall|i: int| 0 <= i < anchors_in(keys, kinds).len() ==> keys.contains(#[trigger] anchors_in(keys, kinds)[i]),
    decreases keys.len(),
{
    if keys.len() > 0 {
        let d = keys.drop_last();
        lemma_anchors_in_keys(d, kinds);
        let a = anchors_in(d, kinds);
        let b = if is_anchor(kinds, keys.last()) {
            seq![keys.last()]
        } else {
            Seq::empty()
        };
        assert(anchors_in(keys, kinds) == a + b);
        assert forall|i: int| 0 <= i < (a + b).len() implies keys.contains(#[trigger] (a + b)[i]) by {
            if i < a.len() {
                assert((a + b)[i] == a[i]);
                let j = choose|j: int| 0 <= j < d.len() && d[j] == a[i];
                assert(keys[j] == d[j]);
            } else {
                assert((a + b)[i] == keys[keys.len() - 1]);
            }
        }
    }
}

proof fn lemma_single_ends_in_keys(keys: Seq<EntityId>, adj: Adjacency, kinds: Seq<(EntityId, NodeType)>)
    ensures
        forall|i: int|
            0 <= i < single_ends_in(keys, adj, kinds).len() ==> keys.contains(
                #[trigger] single_ends_in(keys, adj, kinds)[i],
            ),
    decreases keys.len(),
{
    if keys.len() > 0 {
        let d = keys.drop_last();
        lemma_single_ends_in_keys(d, adj, kinds);
        let a = single_ends_in(d, adj, kinds);
        let b = if !is_anchor(kinds, keys.last()) && (adj(keys.last()) matches Some(nb) && nb.len() == 1) {
            seq![keys.last()]
        } else {
            Seq::empty()
        };
        assert(single_ends_in(keys, adj, kinds) == a + b);
        assert forall|i: int| 0 <= i < (a + b).len() implies keys.contains(#[trigger] (a + b)[i]) by {
            if i < a.len() {
                assert((a + b)[i] == a[i]);
                let j = choose|j: int| 0 <= j < d.len() && d[j] == a[i];
                assert(keys[j] == d[j]);
            } else {
                assert((a + b)[i] == keys[keys.len() - 1]);
            }
        }
    }
}

/// On a forest the pass over the chains from the anchors and loose ends
/// succeeds.
proof fn lemma_solver_ends_on_forests(cs: Seq<DistanceConstraint>, kinds: Seq<(EntityId, NodeType)>)
    requires
        cs.len() <= usize::MAX,
        no_repeated_links(cs),
        acyclic(cs),
    ensures
        solver_ends(cs, kinds) is Some,
{
    let keys = endpoint_order(cs);
    let adj = cs_adj(cs);
    lemma_anchors_in_keys(keys, kinds);
    lemma_single_ends_in_keys(keys, adj, kinds);
    let a = anchors_in(keys, kinds);
    let l = single_ends_in(keys, adj, kinds);
    assert forall|i: int| 0 <= i < (a + l).len() implies keys.contains(#[trigger] (a + l)[i]) by {
        if i < a.len() {
            assert((a + l)[i] == a[i]);
        } else {
            assert((a + l)[i] == l[i - a.len()]);
        }
    }
    lemma_solver_all_some(cs, a + l, (Seq::empty(), Seq::empty()));
}


/// `w` walks from its first node back to `start` without stepping straight
/// back, and does not start by going back to `prev`.
pub open spec fn closing_walk(
    cs: Seq<DistanceConstraint>,
    w: Seq<EntityId>,
    start: EntityId,
    prev: Option<EntityId>,
    current: EntityId,
) -> bool {
    &&& is_walk(cs, w)
    &&& w.len() >= 2
    &&& w[0] == current
    &&& w.last() == start
    &&& forall|k: int| 0 <= k < w.len() - 2 ==> #[trigger] no_turn_back(w, k)
    &&& (prev matches Some(p) ==> w[1] != p)
}

proof fn lemma_ring_walk_closes(
    cs: Seq<DistanceConstraint>,
    start: EntityId,
    prev: Option<EntityId>,
    current: EntityId,
    fuel: nat,
)
    requires
        cs.len() <= usize::MAX,
        no_repeated_links(cs),
    ensures
        ring_walk(cs_adj(cs), start, prev, current, fuel) is Some ==> exists|w: Seq<EntityId>|
            #[trigger] closing_walk(cs, w, start, prev, current),
    decreases fuel,
{
    if fuel > 0 && endpoint_order(cs).contains(current) {
        let nb = neighbor_entries(cs, current);
        match ring_entry(nb, prev) {
            None => {},
            Some(e) => {
                lemma_entries_of(cs, current);
                lemma_entities_distinct(cs, current);
                assert(entry_of(cs, current, nb[0]));
                if nb.len() >= 2 {
                    assert(entry_of(cs, current, nb[1]));
                    assert(nb[0].0 != nb[1].0);
                }
                assert(entry_of(cs, current, e));
                assert(joins(cs[e.1 as int], current, e.0));
                assert(linked(cs, current, e.0));
                assert(prev matches Some(p) ==> e.0 != p);
                if e.0 == start {
                    let w = seq![current, start];
                    assert(step_ok(cs, w, 0));
                    assert(closing_walk(cs, w, start, prev, current));
                } else {
                    lemma_ring_walk_closes(cs, start, Some(current), e.0, (fuel - 1) as nat);
                    if ring_walk(cs_adj(cs), start, Some(current), e.0, (fuel - 1) as nat) is Some {
                        let w1 = choose|w1: Seq<EntityId>| #[trigger] closing_walk(cs, w1, start, Some(current), e.0);
                        let w = seq![current] + w1;
                        assert(w[1] == w1[0]);
                        assert(w.last() == w1.last());
                        assert forall|t: int| 0 <= t < w.len() - 1 implies #[trigger] step_ok(cs, w, t) by {
                            if t > 0 {
                                assert(w[t] == w1[t - 1]);
                                assert(w[t + 1] == w1[t]);
                                assert(step_ok(cs, w1, t - 1));
                            }
                        }
                        assert forall|k: int| 0 <= k < w.len() - 2 implies #[trigger] no_turn_back(w, k) by {
                            if k == 0 {
                                assert(w[2] == w1[1]);
                            } else {
                                assert(w[k] == w1[k - 1]);
                                assert(w[k + 2] == w1[k + 1]);
                                assert(no_turn_back(w1, k - 1));
                            }
                        }
                        assert(closing_walk(cs, w, start, prev, current));
                    }
                }
            },
        }
    }
}

proof fn lemma_ring_all_forest(cs: Seq<DistanceConstraint>, nodes: Seq<EntityId>, s: ChainState)
    requires
        cs.len() <= usize::MAX,
        no_repeated_links(cs),
        acyclic(cs),
    ensures
        ring_all(cs_adj(cs), solver_fuel(cs.len()), nodes, Some(s)) is Some <==> forall|i: int|
            0 <= i < nodes.len() ==> s.0.contains(#[trigger] nodes[i]),
        ring_all(cs_adj(cs), solver_fuel(cs.len()), nodes, Some(s)) is Some ==> ring_all(
            cs_adj(cs),
            solver_fuel(cs.len()),
            nodes,
            Some(s),
        ) == Some(s),
    decreases nodes.len(),
{
    if nodes.len() > 0 {
        let adj = cs_adj(cs);
        let f = solver_fuel(cs.len());
        let x = nodes[0];
        assert forall|i: int| 0 <= i < nodes.drop_first().len() implies nodes.drop_first()[i] == nodes[i + 1] by {}
        if s.0.contains(x) {
            lemma_ring_all_forest(cs, nodes.drop_first(), s);
            if forall|i: int| 0 <= i < nodes.drop_first().len() ==> s.0.contains(#[trigger] nodes.drop_first()[i]) {
                assert forall|i: int| 0 <= i < nodes.len() implies s.0.contains(#[trigger] nodes[i]) by {
                    if i > 0 {
                        assert(nodes[i] == nodes.drop_first()[i - 1]);
                    }
                }
            } else {
                let i = choose|i: int| 0 <= i < nodes.drop_first().len() && !s.0.contains(#[trigger] nodes.drop_first()[i]);
                assert(nodes[i + 1] == nodes.drop_first()[i]);
            }
        } else {
            lemma_ring_walk_closes(cs, x, None, x, f);
            if ring_chain(adj, f, x) is Some {
                let w = choose|w: Seq<EntityId>| #[trigger] closing_walk(cs, w, x, None, x);
                assert(is_cycle(cs, w));
            }
            assert(ring_from(adj, f, Some(s), x) is None);
            lemma_ring_all_none(adj, f, nodes.drop_first());
            assert(!s.0.contains(nodes[0]));
        }
    }
}

/// On a forest the solver succeeds exactly when its end chains reach every
/// node: when no constraint joins a node to itself, no two constraints join
/// the same two nodes, and the constraints have no cycle, the chains from the
/// anchors and loose ends are always found, and a node they leave over is
/// walked as a ring, which on a forest never closes.
pub proof fn solver_chains_on_forests(cs: Seq<DistanceConstraint>, kinds: Seq<(EntityId, NodeType)>)
    requires
        cs.len() <= usize::MAX,
        no_repeated_links(cs),
        acyclic(cs),
    ensures
        solver_ends(cs, kinds) is Some,
        solver_result(cs, kinds) is Some <==> forall|x: EntityId|
            #[trigger] endpoint_order(cs).contains(x) ==> (solver_ends(cs, kinds)->0).0.contains(x),
{
    lemma_solver_ends_on_forests(cs, kinds);
    let keys = endpoint_order(cs);
    let s = solver_ends(cs, kinds)->0;
    lemma_ring_all_forest(cs, keys, s);
    if forall|x: EntityId| #[trigger] keys.contains(x) ==> s.0.contains(x) {
        assert forall|i: int| 0 <= i < keys.len() implies s.0.contains(#[trigger] keys[i]) by {
            assert(keys.contains(keys[i]));
        }
    } else {
        let x = choose|x: EntityId| #[trigger] keys.contains(x) && !s.0.contains(x);
        let i = choose|i: int| 0 <= i < keys.len() && keys[i] == x;
        assert(!s.0.contains(keys[i]));
    }
}


// ---------------------------------------------------------------------------
// The passes look at every entry and every start, in turn
// ---------------------------------------------------------------------------

/// Looking at the entries `nb1 + nb2` of a start is looking at `nb1`, then
/// at `nb2` from where that left off: no entry is skipped for what came
/// before it.
pub proof fn skin_entries_in_turn(
    adj: Adjacency,
    fuel: nat,
    kinds: Seq<(EntityId, NodeType)>,
    start: EntityId,
    nb1: Seq<(EntityId, usize)>,
    nb2: Seq<(EntityId, usize)>,
    st: Option<ChainState>,
)
    ensures
        skin_over(adj, fuel, kinds, start, nb1 + nb2, st) == skin_over(
            adj,
            fuel,
            kinds,
            start,
            nb2,
            skin_over(adj, fuel, kinds, start, nb1, st),
        ),
    decreases nb1.len(),
{
    if nb1.len() == 0 {
        assert(nb1 + nb2 =~= nb2);
    } else {
        assert((nb1 + nb2)[0] == nb1[0]);
        assert((nb1 + nb2).drop_first() =~= nb1.drop_first() + nb2);
        skin_entries_in_turn(adj, fuel, kinds, start, nb1.drop_first(), nb2, skin_step(adj, fuel, kinds, start, st, nb1[0]));
    }
}

/// Taking the starts `s1 + s2` is taking `s1`, then `s2` from where that
/// left off.
pub proof fn skin_starts_in_turn(
    adj: Adjacency,
    fuel: nat,
    kinds: Seq<(EntityId, NodeType)>,
    s1: Seq<EntityId>,
    s2: Seq<EntityId>,
    st: Option<ChainState>,
)
    ensures
        skin_all(adj, fuel, kinds, s1 + s2, st) == skin_all(adj, fuel, kinds, s2, skin_all(adj, fuel, kinds, s1, st)),
    decreases s1.len(),
{
    if s1.len() == 0 {
        assert(s1 + s2 =~= s2);
    } else {
        assert((s1 + s2)[0] == s1[0]);
        assert((s1 + s2).drop_first() =~= s1.drop_first() + s2);
        skin_starts_in_turn(adj, fuel, kinds, s1.drop_first(), s2, skin_from(adj, fuel, kinds, st, s1[0]));
    }
}

/// `t` is `s` with the chain `c` kept: a chain that begins at `start` with
/// the constraint of `e` and goes on to `e`'s node, its nodes marked visited.
pub open spec fn keeps_chain(
    s: ChainState,
    t: ChainState,
    start: EntityId,
    e: (EntityId, usize),
    c: Seq<ChainLink>,
) -> bool {
    &&& t.1 == s.1.push(c)
    &&& t.0 == s.0 + chain_nodes(c)
    &&& c.len() >= 2
    &&& c[0] == ChainLink { entity: start, rest: Some(e.1) }
    &&& c[1].entity == e.0
}

/// What one entry `e` of the list of `start` does to the skin pass: when its
/// node is visited or a leg, nothing; else, when the chain can be traced, a
/// chain is kept that begins at `start` with `e`'s constraint and goes on to
/// `e`'s node, and the chain's nodes are marked visited.
pub proof fn skin_entry_keeps_a_chain(
    adj: Adjacency,
    fuel: nat,
    kinds: Seq<(EntityId, NodeType)>,
    start: EntityId,
    e: (EntityId, usize),
    s: ChainState,
)
    ensures
        s.0.contains(e.0) || is_leg(kinds, e.0) ==> skin_over(adj, fuel, kinds, start, seq![e], Some(s)) == Some(s),
        !(s.0.contains(e.0) || is_leg(kinds, e.0)) ==> (skin_over(adj, fuel, kinds, start, seq![e], Some(s)) matches Some(t)
            ==> exists|c: Seq<ChainLink>| #[trigger] keeps_chain(s, t, start, e, c)),
{
    let one = seq![e];
    assert(one.drop_first() =~= Seq::<(EntityId, usize)>::empty());
    assert(one[0] == e);
    let st1 = skin_step(adj, fuel, kinds, start, Some(s), e);
    assert(skin_over(adj, fuel, kinds, start, one, Some(s)) == skin_over(adj, fuel, kinds, start, one.drop_first(), st1));
    assert(skin_over(adj, fuel, kinds, start, one.drop_first(), st1) == st1);
    if !(s.0.contains(e.0) || is_leg(kinds, e.0)) {
        if fuel > 0 {
            match adj(e.0) {
                None => {},
                Some(nb) => {
                    let nl = non_limb_entries(nb, kinds);
                    if nl.len() == 2 {
                        let n2 = other_entry(nl, start);
                        match skin_walk(adj, kinds, e.0, n2.0, (fuel - 1) as nat) {
                            Some(rest) => {
                                let tail = seq![ChainLink { entity: e.0, rest: Some(n2.1) }] + rest;
                                let c = seq![ChainLink { entity: start, rest: Some(e.1) }] + tail;
                                assert(c[1] == tail[0]);
                                assert(keeps_chain(s, st1->0, start, e, c));
                            },
                            None => {},
                        }
                    } else {
                        let c = seq![ChainLink { entity: start, rest: Some(e.1) }] + seq![ChainLink { entity: e.0, rest: None }];
                        assert(c[1].entity == e.0);
                        assert(keeps_chain(s, st1->0, start, e, c));
                    }
                },
            }
        }
    }
}

proof fn lemma_skin_over_marks(
    adj: Adjacency,
    fuel: nat,
    kinds: Seq<(EntityId, NodeType)>,
    start: EntityId,
    nb: Seq<(EntityId, usize)>,
    s: ChainState,
)
    ensures
        skin_over(adj, fuel, kinds, start, nb, Some(s)) matches Some(t) ==> {
            &&& forall|y: EntityId| s.0.contains(y) ==> t.0.contains(y)
            &&& forall|k: int| 0 <= k < nb.len() && !is_leg(kinds, #[trigger] nb[k].0) ==> t.0.contains(nb[k].0)
            &&& s.1.len() <= t.1.len()
            &&& t.1.subrange(0, s.1.len() as int) == s.1
        },
    decreases nb.len(),
{
    if nb.len() > 0 {
        let e = nb[0];
        let st1 = skin_step(adj, fuel, kinds, start, Some(s), e);
        match st1 {
            None => {
                lemma_skin_over_none(adj, fuel, kinds, start, nb.drop_first());
            },
            Some(s1) => {
                let one = seq![e];
                assert(one.drop_first() =~= Seq::<(EntityId, usize)>::empty());
                assert(one[0] == e);
                assert(skin_over(adj, fuel, kinds, start, one, Some(s)) == skin_over(adj, fuel, kinds, start, one.drop_first(), st1));
                skin_entry_keeps_a_chain(adj, fuel, kinds, start, e, s);
                if !(s.0.contains(e.0) || is_leg(kinds, e.0)) {
                    let c = choose|c: Seq<ChainLink>| #[trigger] keeps_chain(s, s1, start, e, c);
                    assert(s1.0[s.0.len() + 1int] == chain_nodes(c)[1]);
                    assert(s1.0.contains(e.0));
                    assert forall|y: EntityId| s.0.contains(y) implies s1.0.contains(y) by {
                        let k = choose|k: int| 0 <= k < s.0.len() && s.0[k] == y;
                        assert(s1.0[k] == y);
                    }
                    assert(s1.1.subrange(0, s.1.len() as int) =~= s.1);
                } else {
                    assert(s1.1.subrange(0, s.1.len() as int) =~= s.1);
                }
                lemma_skin_over_marks(adj, fuel, kinds, start, nb.drop_first(), s1);
                match skin_over(adj, fuel, kinds, start, nb, Some(s)) {
                    Some(t) => {
                        assert forall|k: int| 0 <= k < nb.len() && !is_leg(kinds, #[trigger] nb[k].0) implies t.0.contains(nb[k].0) by {
                            if k > 0 {
                                assert(nb.drop_first()[k - 1] == nb[k]);
                            }
                        }
                        assert(t.1.subrange(0, s1.1.len() as int) == s1.1);
                        assert(t.1.subrange(0, s.1.len() as int) =~= s1.1.subrange(0, s.1.len() as int));
                    },
                    None => {},
                }
            },
        }
    }
}

/// A start takes every arm: after the pass from a start not visited before,
/// every node of the start's list that is not a leg is visited, whether it
/// was before or lies on a chain kept in this pass; what was visited stays
/// visited, and the chains kept before stay first, as they were.
pub proof fn skin_start_takes_every_arm(
    adj: Adjacency,
    fuel: nat,
    kinds: Seq<(EntityId, NodeType)>,
    start: EntityId,
    s: ChainState,
)
    requires
        !s.0.contains(start),
        adj(start) is Some,
    ensures
        skin_from(adj, fuel, kinds, Some(s), start) matches Some(t) ==> {
            &&& forall|y: EntityId| s.0.contains(y) ==> t.0.contains(y)
            &&& forall|k: int|
                0 <= k < adj(start)->0.len() && !is_leg(kinds, #[trigger] adj(start)->0[k].0) ==> t.0.contains(
                    adj(start)->0[k].0,
                )
            &&& s.1.len() <= t.1.len()
            &&& t.1.subrange(0, s.1.len() as int) == s.1
        },
{
    lemma_skin_over_marks(adj, fuel, kinds, start, adj(start)->0, s);
}

/// Looking at the entries `nb1 + nb2` of a start is looking at `nb1`, then
/// at `nb2` from where that left off.
pub proof fn solver_entries_in_turn(
    adj: Adjacency,
    fuel: nat,
    start: EntityId,
    nb1: Seq<(EntityId, usize)>,
    nb2: Seq<(EntityId, usize)>,
    st: Option<ChainState>,
)
    ensures
        solver_over(adj, fuel, start, nb1 + nb2, st) == solver_over(adj, fuel, start, nb2, solver_over(adj, fuel, start, nb1, st)),
    decreases nb1.len(),
{
    if nb1.len() == 0 {
        assert(nb1 + nb2 =~= nb2);
    } else {
        assert((nb1 + nb2)[0] == nb1[0]);
        assert((nb1 + nb2).drop_first() =~= nb1.drop_first() + nb2);
        solver_entries_in_turn(adj, fuel, start, nb1.drop_first(), nb2, solver_step(adj, fuel, start, st, nb1[0]));
    }
}

/// Taking the starts `s1 + s2` is taking `s1`, then `s2` from where that
/// left off.
pub proof fn solver_starts_in_turn(adj: Adjacency, fuel: nat, s1: Seq<EntityId>, s2: Seq<EntityId>, st: Option<ChainState>)
    ensures
        solver_all(adj, fuel, s1 + s2, st) == solver_all(adj, fuel, s2, solver_all(adj, fuel, s1, st)),
    decreases s1.len(),
{
    if s1.len() == 0 {
        assert(s1 + s2 =~= s2);
    } else {
        assert((s1 + s2)[0] == s1[0]);
        assert((s1 + s2).drop_first() =~= s1.drop_first() + s2);
        solver_starts_in_turn(adj, fuel, s1.drop_first(), s2, solver_from(adj, fuel, st, s1[0]));
    }
}

/// Walking rings from the nodes `s1 + s2` is walking from `s1`, then from
/// `s2` from where that left off.
pub proof fn ring_starts_in_turn(adj: Adjacency, fuel: nat, s1: Seq<EntityId>, s2: Seq<EntityId>, st: Option<ChainState>)
    ensures
        ring_all(adj, fuel, s1 + s2, st) == ring_all(adj, fuel, s2, ring_all(adj, fuel, s1, st)),
    decreases s1.len(),
{
    if s1.len() == 0 {
        assert(s1 + s2 =~= s2);
    } else {
        assert((s1 + s2)[0] == s1[0]);
        assert((s1 + s2).drop_first() =~= s1.drop_first() + s2);
        ring_starts_in_turn(adj, fuel, s1.drop_first(), s2, ring_from(adj, fuel, st, s1[0]));
    }
}


/// How many adjacency entries the constraints `cs` give the node `x`.
pub open spec fn entry_count(cs: Seq<DistanceConstraint>, x: EntityId) -> nat {
    neighbor_entries(cs, x).len()
}

/// The chain `c` runs on only through nodes with exactly two entries and
/// ends at the first node that has another number of them.
pub open spec fn ends_at_branch(cs: Seq<DistanceConstraint>, c: Seq<ChainLink>) -> bool {
    &&& c.len() >= 2
    &&& forall|i: int| 0 < i < c.len() - 1 ==> entry_count(cs, #[trigger] c[i].entity) == 2
    &&& entry_count(cs, c.last().entity) != 2
}

/// The chain `c` is a ring: it ends on the node it began with.
pub open spec fn closes_ring(c: Seq<ChainLink>) -> bool {
    c.len() >= 2 && c.last().entity == c[0].entity
}

/// The first `n` chains end at branch nodes and the others are rings.
pub open spec fn branches_then_rings(cs: Seq<DistanceConstraint>, chains: Seq<Seq<ChainLink>>, n: int) -> bool {
    &&& 0 <= n <= chains.len()
    &&& forall|i: int| 0 <= i < n ==> ends_at_branch(cs, #[trigger] chains[i])
    &&& forall|i: int| n <= i < chains.len() ==> closes_ring(#[trigger] chains[i])
}

proof fn lemma_solver_walk_stops(cs: Seq<DistanceConstraint>, prev: EntityId, current: EntityId, fuel: nat)
    ensures
        solver_walk(cs_adj(cs), prev, current, fuel) matches Some(t) ==> {
            &&& t.len() >= 1
            &&& t[0].entity == current
            &&& forall|i: int| 0 <= i < t.len() - 1 ==> entry_count(cs, #[trigger] t[i].entity) == 2
            &&& entry_count(cs, t.last().entity) != 2
        },
    decreases fuel,
{
    if fuel > 0 {
        if endpoint_order(cs).contains(current) {
            let nb = neighbor_entries(cs, current);
            if nb.len() == 2 {
                let e = other_entry(nb, prev);
                lemma_solver_walk_stops(cs, current, e.0, (fuel - 1) as nat);
                match solver_walk(cs_adj(cs), current, e.0, (fuel - 1) as nat) {
                    Some(rest) => {
                        let t = seq![ChainLink { entity: current, rest: Some(e.1) }] + rest;
                        assert(t.last() == rest.last());
                        assert forall|i: int| 0 <= i < t.len() - 1 implies entry_count(cs, #[trigger] t[i].entity) == 2 by {
                            if i > 0 {
                                assert(t[i] == rest[i - 1]);
                            }
                        }
                    },
                    None => {},
                }
            }
        }
    }
}

proof fn lemma_ring_walk_closes_on_start(
    adj: Adjacency,
    start: EntityId,
    prev: Option<EntityId>,
    current: EntityId,
    fuel: nat,
)
    ensures
        ring_walk(adj, start, prev, current, fuel) matches Some(t) ==> t.len() >= 2 && t[0].entity
            == current && t.last().entity == start,
    decreases fuel,
{
    if fuel > 0 {
        match adj(current) {
            None => {},
            Some(nb) => match ring_entry(nb, prev) {
                None => {},
                Some(e) => {
                    if e.0 != start {
                        lemma_ring_walk_closes_on_start(adj, start, Some(current), e.0, (fuel - 1) as nat);
                        match ring_walk(adj, start, Some(current), e.0, (fuel - 1) as nat) {
                            Some(rest) => {
                                let t = seq![ChainLink { entity: current, rest: Some(e.1) }] + rest;
                                assert(t.last() == rest.last());
                            },
                            None => {},
                        }
                    }
                },
            },
        }
    }
}

proof fn lemma_add_branch(cs: Seq<DistanceConstraint>, s: ChainState, c: Seq<ChainLink>)
    requires
        branches_then_rings(cs, s.1, s.1.len() as int),
        c.len() >= 2 ==> ends_at_branch(cs, c),
    ensures
        branches_then_rings(cs, add_chain(s, c).1, add_chain(s, c).1.len() as int),
{
    if c.len() >= 2 {
        assert forall|i: int| 0 <= i < s.1.push(c).len() implies ends_at_branch(cs, #[trigger] s.1.push(c)[i]) by {
            if i < s.1.len() {
                assert(s.1.push(c)[i] == s.1[i]);
            }
        }
    }
}

proof fn lemma_add_ring(cs: Seq<DistanceConstraint>, s: ChainState, c: Seq<ChainLink>, n: int)
    requires
        branches_then_rings(cs, s.1, n),
        c.len() >= 2 ==> closes_ring(c),
    ensures
        branches_then_rings(cs, add_chain(s, c).1, n),
{
    if c.len() >= 2 {
        assert forall|i: int| 0 <= i < n implies ends_at_branch(cs, #[trigger] s.1.push(c)[i]) by {
            assert(s.1.push(c)[i] == s.1[i]);
        }
        assert forall|i: int| n <= i < s.1.push(c).len() implies closes_ring(#[trigger] s.1.push(c)[i]) by {
            if i < s.1.len() {
                assert(s.1.push(c)[i] == s.1[i]);
            }
        }
    }
}

proof fn lemma_endpoint_chain_stops(cs: Seq<DistanceConstraint>, fuel: nat, start: EntityId, e: (EntityId, usize))
    ensures
        endpoint_chain(cs_adj(cs), fuel, start, e.0, e.1) matches Some(c) ==> ends_at_branch(cs, c),
{
    lemma_solver_walk_stops(cs, start, e.0, fuel);
    match solver_walk(cs_adj(cs), start, e.0, fuel) {
        Some(tail) => {
            let c = seq![ChainLink { entity: start, rest: Some(e.1) }] + tail;
            assert(c.last() == tail.last());
            assert forall|i: int| 0 < i < c.len() - 1 implies entry_count(cs, #[trigger] c[i].entity) == 2 by {
                assert(c[i] == tail[i - 1]);
            }
        },
        None => {},
    }
}

proof fn lemma_solver_over_stops(
    cs: Seq<DistanceConstraint>,
    fuel: nat,
    start: EntityId,
    nb: Seq<(EntityId, usize)>,
    s: ChainState,
)
    requires
        branches_then_rings(cs, s.1, s.1.len() as int),
    ensures
        solver_over(cs_adj(cs), fuel, start, nb, Some(s)) matches Some(t) ==> branches_then_rings(
            cs,
            t.1,
            t.1.len() as int,
        ),
    decreases nb.len(),
{
    if nb.len() > 0 {
        let adj = cs_adj(cs);
        let e = nb[0];
        match solver_step(adj, fuel, start, Some(s), e) {
            None => {
                lemma_solver_over_none(adj, fuel, start, nb.drop_first());
            },
            Some(s1) => {
                if !s.0.contains(e.0) {
                    lemma_endpoint_chain_stops(cs, fuel, start, e);
                    lemma_add_branch(cs, s, endpoint_chain(adj, fuel, start, e.0, e.1)->0);
                }
                lemma_solver_over_stops(cs, fuel, start, nb.drop_first(), s1);
            },
        }
    }
}

proof fn lemma_solver_all_stops(cs: Seq<DistanceConstraint>, fuel: nat, starts: Seq<EntityId>, s: ChainState)
    requires
        branches_then_rings(cs, s.1, s.1.len() as int),
    ensures
        solver_all(cs_adj(cs), fuel, starts, Some(s)) matches Some(t) ==> branches_then_rings(
            cs,
            t.1,
            t.1.len() as int,
        ),
    decreases starts.len(),
{
    if starts.len() > 0 {
        let adj = cs_adj(cs);
        let x = starts[0];
        match solver_from(adj, fuel, Some(s), x) {
            None => {
                lemma_solver_all_none(adj, fuel, starts.drop_first());
            },
            Some(s1) => {
                if !s.0.contains(x) {
                    lemma_solver_over_stops(cs, fuel, x, neighbor_entries(cs, x), s);
                }
                lemma_solver_all_stops(cs, fuel, starts.drop_first(), s1);
            },
        }
    }
}

proof fn lemma_ring_all_stops(cs: Seq<DistanceConstraint>, fuel: nat, nodes: Seq<EntityId>, s: ChainState, n: int)
    requires
        branches_then_rings(cs, s.1, n),
    ensures
        ring_all(cs_adj(cs), fuel, nodes, Some(s)) matches Some(t) ==> branches_then_rings(cs, t.1, n),
    decreases nodes.len(),
{
    if nodes.len() > 0 {
        let adj = cs_adj(cs);
        let x = nodes[0];
        match ring_from(adj, fuel, Some(s), x) {
            None => {
                lemma_ring_all_none(adj, fuel, nodes.drop_first());
            },
            Some(s1) => {
                if !s.0.contains(x) {
                    lemma_ring_walk_closes_on_start(adj, x, None, x, fuel);
                    lemma_add_ring(cs, s, ring_chain(adj, fuel, x)->0, n);
                }
                lemma_ring_all_stops(cs, fuel, nodes.drop_first(), s1, n);
            },
        }
    }
}

/// The solver's chains stop at branch nodes. The chains traced from the
/// anchors and loose ends come first: in each of them, every node strictly
/// between the first and the last has exactly two adjacency entries, and
/// the last node has some other number of them. Every chain after those is
/// a ring that ends on the node it began with.
pub proof fn solver_chains_stop_at_branches(cs: Seq<DistanceConstraint>, kinds: Seq<(EntityId, NodeType)>)
    ensures
        solver_result(cs, kinds) matches Some(p) ==> exists|n: int| branches_then_rings(cs, p.0, n),
{
    let keys = endpoint_order(cs);
    let adj = cs_adj(cs);
    let f = solver_fuel(cs.len());
    let s0: ChainState = (Seq::empty(), Seq::empty());
    lemma_solver_all_stops(cs, f, anchors_in(keys, kinds) + single_ends_in(keys, adj, kinds), s0);
    match solver_ends(cs, kinds) {
        None => {
            lemma_ring_all_none(adj, f, keys);
        },
        Some(s) => {
            let n = s.1.len() as int;
            lemma_ring_all_stops(cs, f, keys, s, n);
            match solver_result(cs, kinds) {
                Some(p) => {
                    assert(branches_then_rings(cs, p.0, n));
                },
                None => {},
            }
        },
    }
}

proof fn lemma_solver_over_marks(
    cs: Seq<DistanceConstraint>,
    fuel: nat,
    start: EntityId,
    nb: Seq<(EntityId, usize)>,
    s: ChainState,
)
    ensures
        solver_over(cs_adj(cs), fuel, start, nb, Some(s)) matches Some(t) ==> {
            &&& forall|y: EntityId| s.0.contains(y) ==> t.0.contains(y)
            &&& forall|k: int| 0 <= k < nb.len() ==> t.0.contains(#[trigger] nb[k].0)
            &&& s.1.len() <= t.1.len()
            &&& t.1.subrange(0, s.1.len() as int) == s.1
        },
    decreases nb.len(),
{
    if nb.len() > 0 {
        let adj = cs_adj(cs);
        let e = nb[0];
        match solver_step(adj, fuel, start, Some(s), e) {
            None => {
                lemma_solver_over_none(adj, fuel, start, nb.drop_first());
            },
            Some(s1) => {
                if !s.0.contains(e.0) {
                    lemma_solver_walk_stops(cs, start, e.0, fuel);
                    let tail = solver_walk(adj, start, e.0, fuel)->0;
                    let c = seq![ChainLink { entity: start, rest: Some(e.1) }] + tail;
                    assert(c[1] == tail[0]);
                    assert(s1.0 == s.0 + chain_nodes(c));
                    assert(s1.0[s.0.len() + 1int] == chain_nodes(c)[1]);
                    assert(s1.0.contains(e.0));
                    assert forall|y: EntityId| s.0.contains(y) implies s1.0.contains(y) by {
                        let k = choose|k: int| 0 <= k < s.0.len() && s.0[k] == y;
                        assert(s1.0[k] == y);
                    }
                }
                assert(s1.1.subrange(0, s.1.len() as int) =~= s.1);
                lemma_solver_over_marks(cs, fuel, start, nb.drop_first(), s1);
                match solver_over(adj, fuel, start, nb, Some(s)) {
                    Some(t) => {
                        assert forall|k: int| 0 <= k < nb.len() implies t.0.contains(#[trigger] nb[k].0) by {
                            if k > 0 {
                                assert(nb.drop_first()[k - 1] == nb[k]);
                            }
                        }
                        assert(t.1.subrange(0, s1.1.len() as int) == s1.1);
                        assert(t.1.subrange(0, s.1.len() as int) =~= s1.1.subrange(0, s.1.len() as int));
                    },
                    None => {},
                }
            },
        }
    }
}

/// A solver start takes every arm: after the pass from a start not visited
/// before, every neighbour of the start is visited, whether it was before or
/// lies on a chain traced in this pass; what was visited stays visited, and
/// the chains kept before stay first, as they were.
pub proof fn solver_start_takes_every_arm(
    cs: Seq<DistanceConstraint>,
    fuel: nat,
    start: EntityId,
    s: ChainState,
)
    requires
        !s.0.contains(start),
    ensures
        solver_from(cs_adj(cs), fuel, Some(s), start) matches Some(t) ==> {
            &&& forall|y: EntityId| s.0.contains(y) ==> t.0.contains(y)
            &&& forall|k: int|
                0 <= k < neighbor_entries(cs, start).len() ==> t.0.contains(
                    #[trigger] neighbor_entries(cs, start)[k].0,
                )
            &&& s.1.len() <= t.1.len()
            &&& t.1.subrange(0, s.1.len() as int) == s.1
        },
{
    lemma_solver_over_marks(cs, fuel, start, neighbor_entries(cs, start), s);
}

} // verus!
