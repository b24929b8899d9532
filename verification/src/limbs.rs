//! Limbs: chains of leg nodes that hang off a body node, found from the
//! constraint graph, and the bookkeeping that keeps a body's limbs in step
//! with the graph.

use vstd::prelude::*;

use crate::entity::EntityId;
use crate::graph::{ConstraintGraph, pos_of};
use crate::node::{NodeType, is_leg, check_leg, kind_of};

verus! {

/// A limb chain is cut after this many steps from its first joint.
pub const MAX_LIMB_DEPTH: usize = 100;

/// The first entry of `nb` that leads somewhere other than `prev`, to a leg.
pub open spec fn first_leg(
    nb: Seq<(EntityId, usize)>,
    prev: EntityId,
    kinds: Seq<(EntityId, NodeType)>,
) -> Option<EntityId>
    decreases nb.len(),
{
    if nb.len() == 0 {
        None
    } else if nb[0].0 != prev && is_leg(kinds, nb[0].0) {
        Some(nb[0].0)
    } else {
        first_leg(nb.drop_first(), prev, kinds)
    }
}

/// Following a limb: `current` joins the chain; the walk goes on to the first
/// leg neighbour of `current` that is not `prev`, and stops at a node with no
/// adjacency list, at a node with no such neighbour, when that neighbour is
/// already in the chain, or when `fuel` runs out.
pub open spec fn limb_trace(
    graph: ConstraintGraph,
    kinds: Seq<(EntityId, NodeType)>,
    chain: Seq<EntityId>,
    prev: EntityId,
    current: EntityId,
    fuel: nat,
) -> Seq<EntityId>
    decreases fuel,
{
    if fuel == 0 {
        chain
    } else {
        let c2 = chain.push(current);
        match graph.list_of(current) {
            None => c2,
            Some(nb) => match first_leg(nb, prev, kinds) {
                None => c2,
                Some(nx) => if c2.contains(nx) {
                    c2
                } else {
                    limb_trace(graph, kinds, c2, current, nx, (fuel - 1) as nat)
                },
            },
        }
    }
}

/// The limb chain that starts at the leg `start` next to `body`.
pub open spec fn limb_chain(
    graph: ConstraintGraph,
    kinds: Seq<(EntityId, NodeType)>,
    start: EntityId,
    body: EntityId,
) -> Seq<EntityId> {
    limb_trace(graph, kinds, Seq::empty(), body, start, (MAX_LIMB_DEPTH + 1) as nat)
}

/// The first leg neighbour of a node that is not `prev`.
pub fn find_first_leg(
    nb: &Vec<(EntityId, usize)>,
    prev: EntityId,
    kinds: &Vec<(EntityId, NodeType)>,
) -> (r: Option<EntityId>)
    ensures
        r == first_leg(nb@, prev, kinds@),
{
    let mut i: usize = 0;
    assert(nb@.skip(0) =~= nb@);
    while i < nb.len()
        invariant
            i <= nb.len(),
            first_leg(nb@, prev, kinds@) == first_leg(nb@.skip(i as int), prev, kinds@),
        decreases nb.len() - i,
    {
        let e = nb[i].0;
        proof {
            let t = nb@.skip(i as int);
            assert(t[0] == nb@[i as int]);
            assert(t.drop_first() =~= nb@.skip(i + 1));
        }
        if e != prev && check_leg(kinds, e) {
            return Some(e);
        }
        i = i + 1;
    }
    proof {
        assert(nb@.skip(i as int).len() == 0);
    }
    None
}

fn contains_entity(v: &Vec<EntityId>, e: EntityId) -> (r: bool)
    ensures
        r == v@.contains(e),
{
    let mut i: usize = 0;
    while i < v.len()
        invariant
            i <= v.len(),
            forall|k: int| 0 <= k < i ==> v@[k] != e,
        decreases v.len() - i,
    {
        if v[i] == e {
            return true;
        }
        i = i + 1;
    }
    false
}

/// Traces the limb that starts at the leg `start`, next to `body`: from each
/// joint it moves to the first leg neighbour that is not where it came from.
///
/// The chain starts at `start`, holds no node twice and at most
/// `MAX_LIMB_DEPTH + 1` nodes, and all its nodes after the first are legs.
pub fn trace_limb_chain(
    start: EntityId,
    body: EntityId,
    graph: &ConstraintGraph,
    kinds: &Vec<(EntityId, NodeType)>,
) -> (chain: Vec<EntityId>)
    requires
        graph.wf(),
    ensures
        chain@ == limb_chain(*graph, kinds@, start, body),
        chain.len() >= 1,
        chain@[0] == start,
        chain.len() <= MAX_LIMB_DEPTH + 1,
        chain@.no_duplicates(),
        forall|i: int| 1 <= i < chain.len() ==> is_leg(kinds@, #[trigger] chain@[i]),
{
    let mut chain: Vec<EntityId> = Vec::new();
    let mut current = start;
    let mut prev = body;
    let mut depth: usize = 0;
    loop
        invariant_except_break
            limb_chain(*graph, kinds@, start, body) == limb_trace(
                *graph,
                kinds@,
                chain@,
                prev,
                current,
                (MAX_LIMB_DEPTH + 1 - depth) as nat,
            ),
            !chain@.contains(current),
            depth == 0 ==> current == start,
            depth > 0 ==> is_leg(kinds@, current),
        invariant
            graph.wf(),
            depth <= MAX_LIMB_DEPTH + 1,
            chain.len() == depth,
            chain@.no_duplicates(),
            depth > 0 ==> chain@[0] == start,
            forall|i: int| 1 <= i < chain.len() ==> is_leg(kinds@, #[trigger] chain@[i]),
        ensures
            chain@ == limb_chain(*graph, kinds@, start, body),
            chain.len() >= 1,
            chain@[0] == start,
            chain.len() <= MAX_LIMB_DEPTH + 1,
            chain@.no_duplicates(),
            forall|i: int| 1 <= i < chain.len() ==> is_leg(kinds@, #[trigger] chain@[i]),
        decreases MAX_LIMB_DEPTH + 1 - depth,
    {
        if depth > MAX_LIMB_DEPTH {
            break ;
        }
        depth = depth + 1;
        let ghost c0 = chain@;
        chain.push(current);
        proof {
            assert(chain@ == c0.push(current));
            assert(chain@[0] == if c0.len() == 0 { current } else { c0[0] });
        }
        match graph.neighbors(current) {
            None => {
                break ;
            },
            Some(nb) => {
                let next = find_first_leg(nb, prev, kinds);
                match next {
                    None => {
                        break ;
                    },
                    Some(nx) => {
                        if contains_entity(&chain, nx) {
                            break ;
                        }
                        proof {
                            lemma_first_leg_is_leg(nb@, prev, kinds@);
                        }
                        prev = current;
                        current = nx;
                    },
                }
            },
        }
    }
    chain
}

pub proof fn lemma_first_leg_is_leg(
    nb: Seq<(EntityId, usize)>,
    prev: EntityId,
    kinds: Seq<(EntityId, NodeType)>,
)
    ensures
        first_leg(nb, prev, kinds) matches Some(e) ==> is_leg(kinds, e) && e != prev && exists|k: int|
            0 <= k < nb.len() && nb[k].0 == e,
    decreases nb.len(),
{
    if nb.len() > 0 {
        lemma_first_leg_is_leg(nb.drop_first(), prev, kinds);
        if !(nb[0].0 != prev && is_leg(kinds, nb[0].0)) {
            if let Some(e) = first_leg(nb, prev, kinds) {
                let k = choose|k: int| 0 <= k < nb.drop_first().len() && nb.drop_first()[k].0 == e;
                assert(nb[k + 1].0 == e);
            }
        }
    }
}

// ---------------------------------------------------------------------------
// Planning the limbs of every body
// ---------------------------------------------------------------------------

/// The limbs of `body`: for each entry of its adjacency list `nb`, in order,
/// whose neighbour is a leg, the limb chain that starts there.
pub open spec fn limbs_from(
    graph: ConstraintGraph,
    kinds: Seq<(EntityId, NodeType)>,
    body: EntityId,
    nb: Seq<(EntityId, usize)>,
) -> Seq<Seq<EntityId>>
    decreases nb.len(),
{
    if nb.len() == 0 {
        Seq::empty()
    } else {
        limbs_from(graph, kinds, body, nb.drop_last()) + if is_leg(kinds, nb.last().0) {
            seq![limb_chain(graph, kinds, nb.last().0, body)]
        } else {
            Seq::empty()
        }
    }
}

/// For the node rows `rows`, in order: each node that is not a leg, has an
/// adjacency list and has at least one limb, with its limbs.
pub open spec fn body_plan(
    graph: ConstraintGraph,
    kinds: Seq<(EntityId, NodeType)>,
    rows: Seq<(EntityId, NodeType)>,
) -> Seq<(EntityId, Seq<Seq<EntityId>>)>
    decreases rows.len(),
{
    if rows.len() == 0 {
        Seq::empty()
    } else {
        let pre = body_plan(graph, kinds, rows.drop_last());
        let b = rows.last().0;
        let k = rows.last().1;
        match graph.list_of(b) {
            Some(nb) => if k != NodeType::Leg && limbs_from(graph, kinds, b, nb).len() > 0 {
                pre.push((b, limbs_from(graph, kinds, b, nb)))
            } else {
                pre
            },
            None => pre,
        }
    }
}

/// The limbs found for one body: each limb by its joints, from the body out.
pub struct LimbPlan {
    pub body: EntityId,
    pub chains: Vec<Vec<EntityId>>,
}

pub open spec fn chains_match(v: Seq<Vec<EntityId>>, s: Seq<Seq<EntityId>>) -> bool {
    &&& v.len() == s.len()
    &&& forall|j: int| 0 <= j < v.len() ==> (#[trigger] v[j])@ == s[j]
}

pub open spec fn plans_match(v: Seq<LimbPlan>, s: Seq<(EntityId, Seq<Seq<EntityId>>)>) -> bool {
    &&& v.len() == s.len()
    &&& forall|i: int|
        0 <= i < v.len() ==> (#[trigger] v[i]).body == s[i].0 && chains_match(v[i].chains@, s[i].1)
}

fn limbs_for_body(
    body: EntityId,
    nb: &Vec<(EntityId, usize)>,
    graph: &ConstraintGraph,
    kinds: &Vec<(EntityId, NodeType)>,
) -> (r: Vec<Vec<EntityId>>)
    requires
        graph.wf(),
    ensures
        chains_match(r@, limbs_from(*graph, kinds@, body, nb@)),
{
    let mut out: Vec<Vec<EntityId>> = Vec::new();
    let mut i: usize = 0;
    assert(nb@.take(0) =~= Seq::<(EntityId, usize)>::empty());
    while i < nb.len()
        invariant
            graph.wf(),
            i <= nb.len(),
            chains_match(out@, limbs_from(*graph, kinds@, body, nb@.take(i as int))),
        decreases nb.len() - i,
    {
        let n = nb[i].0;
        proof {
            let t = nb@.take(i + 1);
            assert(t.drop_last() =~= nb@.take(i as int));
            assert(t.last().0 == n);
        }
        if check_leg(kinds, n) {
            let chain = trace_limb_chain(n, body, graph, kinds);
            if chain.len() > 0 {
                let ghost o = out@;
                out.push(chain);
                proof {
                    let sp = limbs_from(*graph, kinds@, body, nb@.take(i + 1));
                    assert forall|j: int| 0 <= j < out.len() implies (#[trigger] out@[j])@ == sp[j] by {
                        if j < o.len() {
                            assert(out@[j] == o[j]);
                        }
                    }
                }
            }
        } else {
            proof {
                let sp = limbs_from(*graph, kinds@, body, nb@.take(i + 1));
                assert(sp =~= limbs_from(*graph, kinds@, body, nb@.take(i as int)));
            }
        }
        i = i + 1;
    }
    assert(nb@.take(nb.len() as int) =~= nb@);
    out
}

/// Finds the limbs of every body: for each node row in order, a node that is
/// not a leg and has an adjacency list gets, for each of its leg neighbours in
/// adjacency order, the limb chain that starts there; the nodes with at least
/// one limb are listed with their limbs.
pub fn plan_limb_sets(nodes: &Vec<(EntityId, NodeType)>, graph: &ConstraintGraph) -> (r: Vec<
    LimbPlan,
>)
    requires
        graph.wf(),
    ensures
        plans_match(r@, body_plan(*graph, nodes@, nodes@)),
{
    let mut out: Vec<LimbPlan> = Vec::new();
    let mut i: usize = 0;
    assert(nodes@.take(0) =~= Seq::<(EntityId, NodeType)>::empty());
    while i < nodes.len()
        invariant
            graph.wf(),
            i <= nodes.len(),
            plans_match(out@, body_plan(*graph, nodes@, nodes@.take(i as int))),
        decreases nodes.len() - i,
    {
        let (body, kind) = nodes[i];
        let ghost t = nodes@.take(i + 1);
        proof {
            assert(t.drop_last() =~= nodes@.take(i as int));
            assert(t.last() == (body, kind));
        }
        if kind != NodeType::Leg {
            match graph.neighbors(body) {
                Some(nb) => {
                    let chains = limbs_for_body(body, nb, graph, nodes);
                    if chains.len() > 0 {
                        let ghost o = out@;
                        out.push(LimbPlan { body, chains });
                        proof {
                            let sp = body_plan(*graph, nodes@, t);
                            assert forall|k: int| 0 <= k < out.len() implies (#[trigger] out@[k]).body
                                == sp[k].0 && chains_match(out@[k].chains@, sp[k].1) by {
                                if k < o.len() {
                                    assert(out@[k] == o[k]);
                                }
                            }
                        }
                    }
                },
                None => {},
            }
        }
        i = i + 1;
    }
    assert(nodes@.take(nodes.len() as int) =~= nodes@);
    out
}

// ---------------------------------------------------------------------------
// Keeping a body's limb set in step
// ---------------------------------------------------------------------------

/// Two lists of limbs have the same joints, limb by limb.
pub open spec fn same_joints(a: Seq<Vec<EntityId>>, b: Seq<Vec<EntityId>>) -> bool {
    &&& a.len() == b.len()
    &&& forall|i: int| 0 <= i < a.len() ==> (#[trigger] a[i])@ == b[i]@
}

/// `r` is the first old limb whose joints are `joints`, or none when no old
/// limb has them.
pub open spec fn is_first_match(old: Seq<Vec<EntityId>>, joints: Seq<EntityId>, r: Option<usize>) -> bool {
    match r {
        Some(i) => i < old.len() && old[i as int]@ == joints && forall|k: int|
            0 <= k < i ==> (#[trigger] old[k])@ != joints,
        None => forall|k: int| 0 <= k < old.len() ==> (#[trigger] old[k])@ != joints,
    }
}

/// What becomes of a body's existing limb set when new limbs are found.
pub enum LimbSetAction {
    /// The joints are unchanged: the limb set stays as it is.
    Keep,
    /// The limb set is replaced, new limb by new limb; each entry is the old
    /// limb whose settings carry over (its joints equal the new limb's), or
    /// none for a fresh limb.
    Replace(Vec<Option<usize>>),
}

pub fn same_entities(a: &Vec<EntityId>, b: &Vec<EntityId>) -> (r: bool)
    ensures
        r == (a@ == b@),
{
    if a.len() != b.len() {
        return false;
    }
    let mut i: usize = 0;
    while i < a.len()
        invariant
            i <= a.len(),
            a.len() == b.len(),
            forall|k: int| 0 <= k < i ==> a@[k] == b@[k],
        decreases a.len() - i,
    {
        if a[i] != b[i] {
            return false;
        }
        i = i + 1;
    }
    assert(a@ =~= b@);
    true
}

fn find_match(old: &Vec<Vec<EntityId>>, joints: &Vec<EntityId>) -> (r: Option<usize>)
    ensures
        is_first_match(old@, joints@, r),
{
    let mut i: usize = 0;
    while i < old.len()
        invariant
            i <= old.len(),
            forall|k: int| 0 <= k < i ==> (#[trigger] old@[k])@ != joints@,
        decreases old.len() - i,
    {
        if same_entities(&old[i], joints) {
            return Some(i);
        }
        i = i + 1;
    }
    None
}

/// Decides what to do with a body's existing limb set, given the limbs just
/// found: keep it when the joints are the same limb for limb, else replace it,
/// carrying over the settings of each old limb whose joints recur.
pub fn limb_set_action(existing: &Vec<Vec<EntityId>>, found: &Vec<Vec<EntityId>>) -> (r:
    LimbSetAction)
    ensures
        match r {
            LimbSetAction::Keep => same_joints(existing@, found@),
            LimbSetAction::Replace(v) => !same_joints(existing@, found@) && v.len() == found.len()
                && forall|i: int|
                0 <= i < v.len() ==> is_first_match(existing@, found@[i]@, #[trigger] v@[i]),
        },
{
    let mut same = existing.len() == found.len();
    let mut i: usize = 0;
    while same && i < existing.len()
        invariant
            i <= existing.len(),
            same ==> existing.len() == found.len(),
            same ==> forall|k: int| 0 <= k < i ==> existing@[k]@ == found@[k]@,
            !same ==> !same_joints(existing@, found@),
        decreases existing.len() - i,
    {
        if !same_entities(&existing[i], &found[i]) {
            same = false;
        }
        i = i + 1;
    }
    if same {
        return LimbSetAction::Keep;
    }
    let mut v: Vec<Option<usize>> = Vec::new();
    let mut j: usize = 0;
    while j < found.len()
        invariant
            j <= found.len(),
            v.len() == j,
            forall|i: int| 0 <= i < j ==> is_first_match(existing@, found@[i]@, #[trigger] v@[i]),
        decreases found.len() - j,
    {
        let m = find_match(existing, &found[j]);
        v.push(m);
        j = j + 1;
    }
    LimbSetAction::Replace(v)
}

/// The bodies among `existing` that have no limbs any more, in order.
pub open spec fn bodies_without_limbs(existing: Seq<EntityId>, active: Seq<EntityId>) -> Seq<
    EntityId,
>
    decreases existing.len(),
{
    if existing.len() == 0 {
        Seq::empty()
    } else {
        let pre = bodies_without_limbs(existing.drop_last(), active);
        if active.contains(existing.last()) {
            pre
        } else {
            pre.push(existing.last())
        }
    }
}

pub open spec fn plan_bodies(plans: Seq<LimbPlan>) -> Seq<EntityId> {
    plans.map_values(|p: LimbPlan| p.body)
}

/// The bodies that hold a limb set but no longer have limbs: their limb sets
/// are to be removed.
pub fn bodies_to_clear(existing: &Vec<EntityId>, plans: &Vec<LimbPlan>) -> (r: Vec<EntityId>)
    ensures
        r@ == bodies_without_limbs(existing@, plan_bodies(plans@)),
{
    let mut active: Vec<EntityId> = Vec::new();
    let mut k: usize = 0;
    while k < plans.len()
        invariant
            k <= plans.len(),
            active@ == plan_bodies(plans@.take(k as int)),
        decreases plans.len() - k,
    {
        active.push(plans[k].body);
        proof {
            assert(plan_bodies(plans@.take(k + 1)) =~= plan_bodies(plans@.take(k as int)).push(
                plans@[k as int].body,
            ));
        }
        k = k + 1;
    }
    assert(plans@.take(plans.len() as int) =~= plans@);
    let mut out: Vec<EntityId> = Vec::new();
    let mut i: usize = 0;
    assert(existing@.take(0) =~= Seq::<EntityId>::empty());
    while i < existing.len()
        invariant
            i <= existing.len(),
            active@ == plan_bodies(plans@),
            out@ == bodies_without_limbs(existing@.take(i as int), active@),
        decreases existing.len() - i,
    {
        let e = existing[i];
        proof {
            let t = existing@.take(i + 1);
            assert(t.drop_last() =~= existing@.take(i as int));
            assert(t.last() == e);
        }
        if !contains_entity(&active, e) {
            out.push(e);
        }
        i = i + 1;
    }
    assert(existing@.take(existing.len() as int) =~= existing@);
    out
}

// ---------------------------------------------------------------------------
// The constraints along a limb
// ---------------------------------------------------------------------------

/// The constraint named by the first entry of `list` that leads to `target`.
pub open spec fn first_to(list: Seq<(EntityId, usize)>, target: EntityId) -> Option<usize>
    decreases list.len(),
{
    if list.len() == 0 {
        None
    } else if list[0].0 == target {
        Some(list[0].1)
    } else {
        first_to(list.drop_first(), target)
    }
}

/// The constraint that links `a` and `b`, looked up first in the list of `a`
/// and then in the list of `b`; none when neither lists the other.
pub open spec fn link_between(graph: ConstraintGraph, a: EntityId, b: EntityId) -> Option<usize> {
    let from_a = match graph.list_of(a) {
        Some(l) => first_to(l, b),
        None => None,
    };
    match from_a {
        Some(r) => Some(r),
        None => match graph.list_of(b) {
            Some(l) => first_to(l, a),
            None => None,
        },
    }
}

fn find_to(list: &Vec<(EntityId, usize)>, target: EntityId) -> (r: Option<usize>)
    ensures
        r == first_to(list@, target),
{
    let mut i: usize = 0;
    assert(list@.skip(0) =~= list@);
    while i < list.len()
        invariant
            i <= list.len(),
            first_to(list@, target) == first_to(list@.skip(i as int), target),
        decreases list.len() - i,
    {
        proof {
            let t = list@.skip(i as int);
            assert(t[0] == list@[i as int]);
            assert(t.drop_first() =~= list@.skip(i + 1));
        }
        if list[i].0 == target {
            return Some(list[i].1);
        }
        i = i + 1;
    }
    proof {
        assert(list@.skip(i as int).len() == 0);
    }
    None
}

/// The constraint between two nodes, as `link_between` finds it.
pub fn find_link(graph: &ConstraintGraph, a: EntityId, b: EntityId) -> (r: Option<usize>)
    requires
        graph.wf(),
    ensures
        r == link_between(*graph, a, b),
{
    let from_a = match graph.neighbors(a) {
        Some(l) => find_to(l, b),
        None => None,
    };
    match from_a {
        Some(r) => Some(r),
        None => match graph.neighbors(b) {
            Some(l) => find_to(l, a),
            None => None,
        },
    }
}

/// The constraints along a limb, one per segment: from the body to the
/// first joint, then from each joint to the next. A segment with no
/// constraint has none (the solver then takes a unit length for it).
pub fn limb_segment_links(body: EntityId, joints: &Vec<EntityId>, graph: &ConstraintGraph) -> (r:
    Vec<Option<usize>>)
    requires
        graph.wf(),
    ensures
        r.len() == joints.len(),
        forall|i: int|
            0 <= i < r.len() ==> #[trigger] r@[i] == link_between(
                *graph,
                if i == 0 {
                    body
                } else {
                    joints@[i - 1]
                },
                joints@[i],
            ),
{
    let mut out: Vec<Option<usize>> = Vec::new();
    let mut i: usize = 0;
    while i < joints.len()
        invariant
            graph.wf(),
            i <= joints.len(),
            out.len() == i,
            forall|k: int|
                0 <= k < i ==> #[trigger] out@[k] == link_between(
                    *graph,
                    if k == 0 {
                        body
                    } else {
                        joints@[k - 1]
                    },
                    joints@[k],
                ),
        decreases joints.len() - i,
    {
        let from = if i == 0 {
            body
        } else {
            joints[i - 1]
        };
        out.push(find_link(graph, from, joints[i]));
        i = i + 1;
    }
    out
}


// ---------------------------------------------------------------------------
// Planned limbs follow the graph
// ---------------------------------------------------------------------------

/// `b` is on the graph's list of `a`.
pub open spec fn listed_next(graph: ConstraintGraph, a: EntityId, b: EntityId) -> bool {
    match graph.list_of(a) {
        Some(l) => exists|k: int| 0 <= k < l.len() && (#[trigger] l[k]).0 == b,
        None => false,
    }
}

/// The `i`-th joint of `c` has the next one on its list.
pub open spec fn joint_step(graph: ConstraintGraph, c: Seq<EntityId>, i: int) -> bool {
    listed_next(graph, c[i], c[i + 1])
}

/// The limb `c` of `body` follows the graph: its first joint is on the body's
/// list, each further joint is on the list of the joint before it, every
/// joint is a leg, and no joint repeats.
pub open spec fn limb_follows(
    graph: ConstraintGraph,
    kinds: Seq<(EntityId, NodeType)>,
    body: EntityId,
    c: Seq<EntityId>,
) -> bool {
    &&& c.len() >= 1
    &&& listed_next(graph, body, c[0])
    &&& forall|i: int| 0 <= i < c.len() - 1 ==> #[trigger] joint_step(graph, c, i)
    &&& forall|i: int| 0 <= i < c.len() ==> is_leg(kinds, #[trigger] c[i])
    &&& c.no_duplicates()
}

/// Every limb of `chains` follows the graph out of `body`.
pub open spec fn limbs_follow(
    graph: ConstraintGraph,
    kinds: Seq<(EntityId, NodeType)>,
    body: EntityId,
    chains: Seq<Seq<EntityId>>,
) -> bool {
    forall|j: int| 0 <= j < chains.len() ==> limb_follows(graph, kinds, body, #[trigger] chains[j])
}

proof fn lemma_limb_trace_follows(
    graph: ConstraintGraph,
    kinds: Seq<(EntityId, NodeType)>,
    body: EntityId,
    chain: Seq<EntityId>,
    prev: EntityId,
    current: EntityId,
    fuel: nat,
)
    requires
        chain.len() == 0 ==> prev == body,
        chain.len() > 0 ==> limb_follows(graph, kinds, body, chain) && chain.last() == prev,
        listed_next(graph, prev, current),
        is_leg(kinds, current),
        !chain.contains(current),
    ensures
        fuel > 0 ==> limb_follows(graph, kinds, body, limb_trace(graph, kinds, chain, prev, current, fuel)),
        fuel == 0 ==> limb_trace(graph, kinds, chain, prev, current, fuel) == chain,
    decreases fuel,
{
    if fuel > 0 {
        let c2 = chain.push(current);
        assert(c2[0] == if chain.len() == 0 { current } else { chain[0] });
        assert forall|i: int| 0 <= i < c2.len() - 1 implies #[trigger] joint_step(graph, c2, i) by {
            if i < chain.len() - 1 {
                assert(joint_step(graph, chain, i));
                assert(c2[i] == chain[i] && c2[i + 1] == chain[i + 1]);
            } else {
                assert(c2[i] == chain[chain.len() - 1]);
                assert(c2[i + 1] == current);
            }
        }
        assert forall|i: int| 0 <= i < c2.len() implies is_leg(kinds, #[trigger] c2[i]) by {
            if i < chain.len() {
                assert(c2[i] == chain[i]);
            }
        }
        assert forall|i: int, j: int| 0 <= i < c2.len() && 0 <= j < c2.len() && i != j implies c2[i] != c2[j] by {
            if i < chain.len() && j < chain.len() {
                assert(c2[i] == chain[i] && c2[j] == chain[j]);
            } else if i < chain.len() {
                assert(c2[i] == chain[i]);
            } else if j < chain.len() {
                assert(c2[j] == chain[j]);
            }
        }
        assert(limb_follows(graph, kinds, body, c2));
        match graph.list_of(current) {
            None => {},
            Some(nb) => {
                lemma_first_leg_is_leg(nb, prev, kinds);
                match first_leg(nb, prev, kinds) {
                    None => {},
                    Some(nx) => {
                        if !c2.contains(nx) {
                            let k = choose|k: int| 0 <= k < nb.len() && nb[k].0 == nx;
                            assert((nb[k]).0 == nx);
                            assert(listed_next(graph, current, nx));
                            lemma_limb_trace_follows(graph, kinds, body, c2, current, nx, (fuel - 1) as nat);
                        }
                    },
                }
            },
        }
    }
}

proof fn lemma_limbs_from_follow(
    graph: ConstraintGraph,
    kinds: Seq<(EntityId, NodeType)>,
    body: EntityId,
    nb: Seq<(EntityId, usize)>,
)
    requires
        forall|k: int| 0 <= k < nb.len() ==> listed_next(graph, body, (#[trigger] nb[k]).0),
    ensures
        limbs_follow(graph, kinds, body, limbs_from(graph, kinds, body, nb)),
    decreases nb.len(),
{
    if nb.len() > 0 {
        let d = nb.drop_last();
        assert forall|k: int| 0 <= k < d.len() implies listed_next(graph, body, (#[trigger] d[k]).0) by {
            assert(d[k] == nb[k]);
        }
        lemma_limbs_from_follow(graph, kinds, body, d);
        let a = limbs_from(graph, kinds, body, d);
        let x = nb.last().0;
        if is_leg(kinds, x) {
            assert(listed_next(graph, body, nb[nb.len() - 1].0));
            lemma_limb_trace_follows(graph, kinds, body, Seq::empty(), body, x, (MAX_LIMB_DEPTH + 1) as nat);
            let t = seq![limb_chain(graph, kinds, x, body)];
            assert(limbs_from(graph, kinds, body, nb) == a + t);
            assert forall|j: int| 0 <= j < (a + t).len() implies limb_follows(
                graph,
                kinds,
                body,
                #[trigger] (a + t)[j],
            ) by {
                if j < a.len() {
                    assert((a + t)[j] == a[j]);
                } else {
                    assert((a + t)[j] == t[0]);
                }
            }
        } else {
            assert(limbs_from(graph, kinds, body, nb) =~= a);
        }
    }
}

/// Every limb the planner finds follows the graph out of its body: its first
/// joint is a leg on the body's adjacency list, each further joint is a leg on
/// the list of the joint before it, and no joint repeats.
pub proof fn planned_limbs_follow_the_graph(
    graph: ConstraintGraph,
    kinds: Seq<(EntityId, NodeType)>,
    rows: Seq<(EntityId, NodeType)>,
)
    ensures
        forall|i: int|
            0 <= i < body_plan(graph, kinds, rows).len() ==> limbs_follow(
                graph,
                kinds,
                (#[trigger] body_plan(graph, kinds, rows)[i]).0,
                body_plan(graph, kinds, rows)[i].1,
            ),
    decreases rows.len(),
{
    if rows.len() > 0 {
        let d = rows.drop_last();
        planned_limbs_follow_the_graph(graph, kinds, d);
        let pre = body_plan(graph, kinds, d);
        let b = rows.last().0;
        match graph.list_of(b) {
            Some(nb) => {
                assert forall|k: int| 0 <= k < nb.len() implies listed_next(graph, b, (#[trigger] nb[k]).0) by {
                }
                lemma_limbs_from_follow(graph, kinds, b, nb);
                let plan = body_plan(graph, kinds, rows);
                assert forall|i: int| 0 <= i < plan.len() implies limbs_follow(
                    graph,
                    kinds,
                    (#[trigger] plan[i]).0,
                    plan[i].1,
                ) by {
                    if i < pre.len() {
                        assert(plan[i] == pre[i]);
                    }
                }
            },
            None => {},
        }
    }
}


// ---------------------------------------------------------------------------
// Which bodies lose their limb set
// ---------------------------------------------------------------------------

proof fn lemma_without_limbs_members(existing: Seq<EntityId>, active: Seq<EntityId>, e: EntityId)
    ensures
        bodies_without_limbs(existing, active).contains(e) <==> existing.contains(e) && !active.contains(e),
    decreases existing.len(),
{
    if existing.len() > 0 {
        let d = existing.drop_last();
        let x = existing.last();
        lemma_without_limbs_members(d, active, e);
        let pre = bodies_without_limbs(d, active);
        assert(existing =~= d.push(x));
        assert(existing.contains(e) <==> d.contains(e) || x == e) by {
            if existing.contains(e) {
                let k = choose|k: int| 0 <= k < existing.len() && existing[k] == e;
                if k < d.len() {
                    assert(d[k] == e);
                }
            }
            if d.contains(e) {
                let k = choose|k: int| 0 <= k < d.len() && d[k] == e;
                assert(existing[k] == e);
            }
            if x == e {
                assert(existing[existing.len() - 1] == e);
            }
        }
        if !active.contains(x) {
            assert(pre.push(x).contains(e) <==> pre.contains(e) || x == e) by {
                if pre.push(x).contains(e) {
                    let k = choose|k: int| 0 <= k < pre.push(x).len() && pre.push(x)[k] == e;
                    if k < pre.len() {
                        assert(pre[k] == e);
                    }
                }
                if pre.contains(e) {
                    let k = choose|k: int| 0 <= k < pre.len() && pre[k] == e;
                    assert(pre.push(x)[k] == e);
                }
                if x == e {
                    assert(pre.push(x)[pre.len() as int] == e);
                }
            }
        }
    }
}

/// A body loses its limb set exactly when it holds one and no plan names it:
/// `e` is among the bodies to clear if and only if it is among the existing
/// holders and every plan is for another body.
pub proof fn cleared_bodies_are_those_without_plans(existing: Seq<EntityId>, plans: Seq<LimbPlan>, e: EntityId)
    ensures
        bodies_without_limbs(existing, plan_bodies(plans)).contains(e) <==> existing.contains(e) && forall|i: int|
            0 <= i < plans.len() ==> (#[trigger] plans[i]).body != e,
{
    lemma_without_limbs_members(existing, plan_bodies(plans), e);
    let pb = plan_bodies(plans);
    if pb.contains(e) {
        let k = choose|k: int| 0 <= k < pb.len() && pb[k] == e;
        assert(plans[k].body == e);
    }
    if exists|i: int| 0 <= i < plans.len() && (#[trigger] plans[i]).body == e {
        let i = choose|i: int| 0 <= i < plans.len() && (#[trigger] plans[i]).body == e;
        assert(pb[i] == e);
    }
}


// ---------------------------------------------------------------------------
// Every body gets its limbs
// ---------------------------------------------------------------------------

/// The entries of `nb` that lead to legs, in order.
pub open spec fn leg_entries(kinds: Seq<(EntityId, NodeType)>, nb: Seq<(EntityId, usize)>) -> Seq<(EntityId, usize)>
    decreases nb.len(),
{
    if nb.len() == 0 {
        Seq::empty()
    } else if is_leg(kinds, nb.last().0) {
        leg_entries(kinds, nb.drop_last()).push(nb.last())
    } else {
        leg_entries(kinds, nb.drop_last())
    }
}

proof fn lemma_limb_trace_starts(
    graph: ConstraintGraph,
    kinds: Seq<(EntityId, NodeType)>,
    chain: Seq<EntityId>,
    prev: EntityId,
    current: EntityId,
    fuel: nat,
)
    requires
        fuel > 0,
    ensures
        limb_trace(graph, kinds, chain, prev, current, fuel).len() > chain.len(),
        limb_trace(graph, kinds, chain, prev, current, fuel)[chain.len() as int] == current,
{
    let c2 = chain.push(current);
    assert(c2[chain.len() as int] == current);
    match graph.list_of(current) {
        None => {},
        Some(nb) => match first_leg(nb, prev, kinds) {
            None => {},
            Some(nx) => {
                if !c2.contains(nx) {
                    lemma_limb_trace_keeps(graph, kinds, c2, current, nx, (fuel - 1) as nat);
                    assert(c2[chain.len() as int] == current);
                }
            },
        },
    }
}

proof fn lemma_limb_trace_keeps(
    graph: ConstraintGraph,
    kinds: Seq<(EntityId, NodeType)>,
    chain: Seq<EntityId>,
    prev: EntityId,
    current: EntityId,
    fuel: nat,
)
    ensures
        limb_trace(graph, kinds, chain, prev, current, fuel).len() >= chain.len(),
        forall|i: int| 0 <= i < chain.len() ==> limb_trace(graph, kinds, chain, prev, current, fuel)[i] == chain[i],
    decreases fuel,
{
    if fuel > 0 {
        let c2 = chain.push(current);
        match graph.list_of(current) {
            None => {},
            Some(nb) => match first_leg(nb, prev, kinds) {
                None => {},
                Some(nx) => {
                    if !c2.contains(nx) {
                        lemma_limb_trace_keeps(graph, kinds, c2, current, nx, (fuel - 1) as nat);
                        assert forall|i: int| 0 <= i < chain.len() implies limb_trace(
                            graph,
                            kinds,
                            chain,
                            prev,
                            current,
                            fuel,
                        )[i] == chain[i] by {
                            assert(c2[i] == chain[i]);
                        }
                    }
                },
            },
        }
    }
}

proof fn lemma_limbs_from_legs(
    graph: ConstraintGraph,
    kinds: Seq<(EntityId, NodeType)>,
    body: EntityId,
    nb: Seq<(EntityId, usize)>,
)
    ensures
        limbs_from(graph, kinds, body, nb).len() == leg_entries(kinds, nb).len(),
        forall|t: int|
            0 <= t < leg_entries(kinds, nb).len() ==> (#[trigger] limbs_from(graph, kinds, body, nb)[t]).len() >= 1
                && limbs_from(graph, kinds, body, nb)[t][0] == leg_entries(kinds, nb)[t].0,
    decreases nb.len(),
{
    if nb.len() > 0 {
        let d = nb.drop_last();
        lemma_limbs_from_legs(graph, kinds, body, d);
        let x = nb.last().0;
        if is_leg(kinds, x) {
            lemma_limb_trace_starts(graph, kinds, Seq::empty(), body, x, (MAX_LIMB_DEPTH + 1) as nat);
            let a = limbs_from(graph, kinds, body, d);
            let t1 = seq![limb_chain(graph, kinds, x, body)];
            assert(limbs_from(graph, kinds, body, nb) == a + t1);
            let la = leg_entries(kinds, d);
            assert(leg_entries(kinds, nb) == la.push(nb.last()));
            assert forall|t: int| 0 <= t < leg_entries(kinds, nb).len() implies (#[trigger] limbs_from(
                graph,
                kinds,
                body,
                nb,
            )[t]).len() >= 1 && limbs_from(graph, kinds, body, nb)[t][0] == leg_entries(kinds, nb)[t].0 by {
                if t < la.len() {
                    assert((a + t1)[t] == a[t]);
                    assert(la.push(nb.last())[t] == la[t]);
                } else {
                    assert((a + t1)[t] == t1[0]);
                    assert(la.push(nb.last())[t] == nb.last());
                }
            }
        } else {
            assert(limbs_from(graph, kinds, body, nb) =~= limbs_from(graph, kinds, body, d));
        }
    }
}

/// Every body gets its limbs: each row that is not a leg (an anchor or a
/// normal node), has an adjacency list and has a leg among its neighbours is
/// planned, with one limb per leg neighbour, the `t`-th limb starting at the
/// `t`-th leg of its list; and every planned body is such a row.
pub proof fn every_body_gets_its_limbs(
    graph: ConstraintGraph,
    kinds: Seq<(EntityId, NodeType)>,
    rows: Seq<(EntityId, NodeType)>,
)
    ensures
        forall|r: int|
            0 <= r < rows.len() && (#[trigger] rows[r]).1 != NodeType::Leg && graph.list_of(rows[r].0) is Some
                && leg_entries(kinds, graph.list_of(rows[r].0)->0).len() > 0 ==> exists|j: int|
                0 <= j < body_plan(graph, kinds, rows).len() && body_plan(graph, kinds, rows)[j].0 == rows[r].0
                    && planned_as(graph, kinds, rows[r].0, body_plan(graph, kinds, rows)[j].1),
        forall|j: int|
            0 <= j < body_plan(graph, kinds, rows).len() ==> exists|r: int|
                0 <= r < rows.len() && rows[r].1 != NodeType::Leg && rows[r].0 == (#[trigger] body_plan(
                    graph,
                    kinds,
                    rows,
                )[j]).0,
    decreases rows.len(),
{
    if rows.len() > 0 {
        let d = rows.drop_last();
        every_body_gets_its_limbs(graph, kinds, d);
        let pre = body_plan(graph, kinds, d);
        let plan = body_plan(graph, kinds, rows);
        let b = rows.last().0;
        let k = rows.last().1;
        match graph.list_of(b) {
            Some(nb) => {
                lemma_limbs_from_legs(graph, kinds, b, nb);
            },
            None => {},
        }
        assert forall|r: int|
            0 <= r < rows.len() && (#[trigger] rows[r]).1 != NodeType::Leg && graph.list_of(rows[r].0) is Some
                && leg_entries(kinds, graph.list_of(rows[r].0)->0).len() > 0 implies exists|j: int|
                0 <= j < plan.len() && plan[j].0 == rows[r].0 && planned_as(graph, kinds, rows[r].0, plan[j].1) by {
            if r < d.len() {
                assert(rows[r] == d[r]);
                let j = choose|j: int|
                    0 <= j < pre.len() && pre[j].0 == d[r].0 && planned_as(graph, kinds, d[r].0, pre[j].1);
                assert(plan[j] == pre[j]);
            } else {
                assert(rows[r] == rows.last());
                let nb = graph.list_of(b)->0;
                assert(plan == pre.push((b, limbs_from(graph, kinds, b, nb))));
                assert(plan[pre.len() as int] == (b, limbs_from(graph, kinds, b, nb)));
            }
        }
        assert forall|j: int| 0 <= j < plan.len() implies exists|r: int|
            0 <= r < rows.len() && rows[r].1 != NodeType::Leg && rows[r].0 == (#[trigger] plan[j]).0 by {
            if j < pre.len() {
                assert(plan[j] == pre[j]);
                let r = choose|r: int| 0 <= r < d.len() && d[r].1 != NodeType::Leg && d[r].0 == pre[j].0;
                assert(rows[r] == d[r]);
            } else {
                assert(rows[rows.len() - 1] == rows.last());
            }
        }
    }
}

/// The limbs planned for `body` are one per leg on its list, in order: the
/// `t`-th starts at the `t`-th leg neighbour.
pub open spec fn planned_as(
    graph: ConstraintGraph,
    kinds: Seq<(EntityId, NodeType)>,
    body: EntityId,
    chains: Seq<Seq<EntityId>>,
) -> bool {
    match graph.list_of(body) {
        Some(nb) => {
            &&& chains.len() == leg_entries(kinds, nb).len()
            &&& forall|t: int|
                0 <= t < chains.len() ==> (#[trigger] chains[t]).len() >= 1 && chains[t][0] == leg_entries(
                    kinds,
                    nb,
                )[t].0
        },
        None => false,
    }
}

} // verus!
