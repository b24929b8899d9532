//! Scene files: the topology of a scene written with node positions in the
//! node list in place of entities, and read back.

use vstd::prelude::*;

use crate::entity::EntityId;
use crate::graph::DistanceConstraint;

verus! {

/// `k` is the first place of `list` that holds `e`.
pub open spec fn first_place(e: EntityId, list: Seq<EntityId>, k: int) -> bool {
    0 <= k < list.len() && list[k] == e && forall|m: int| 0 <= m < k ==> list[m] != e
}

/// The place of `e` in `list`: the first place that holds it, or 0 when the
/// list does not hold it.
pub open spec fn index_in(e: EntityId, list: Seq<EntityId>) -> usize {
    if list.contains(e) {
        (choose|k: int| first_place(e, list, k)) as usize
    } else {
        0
    }
}

pub proof fn lemma_first_place_exists(e: EntityId, list: Seq<EntityId>, k: int)
    requires
        0 <= k < list.len(),
        list[k] == e,
    ensures
        exists|f: int| first_place(e, list, f),
    decreases k,
{
    if exists|m: int| 0 <= m < k && list[m] == e {
        let m = choose|m: int| 0 <= m < k && list[m] == e;
        lemma_first_place_exists(e, list, m);
    } else {
        assert(first_place(e, list, k));
    }
}

pub proof fn lemma_index_in(e: EntityId, list: Seq<EntityId>)
    requires
        list.contains(e),
        list.len() <= usize::MAX,
    ensures
        first_place(e, list, index_in(e, list) as int),
{
    let k = choose|k: int| 0 <= k < list.len() && list[k] == e;
    lemma_first_place_exists(e, list, k);
}

/// The place of an entity in the node list, 0 when it is not there.
pub fn find_entity_index(entity: EntityId, entity_list: &Vec<EntityId>) -> (r: usize)
    ensures
        r == index_in(entity, entity_list@),
{
    let mut i: usize = 0;
    while i < entity_list.len()
        invariant
            i <= entity_list.len(),
            forall|k: int| 0 <= k < i ==> entity_list@[k] != entity,
        decreases entity_list.len() - i,
    {
        if entity_list[i] == entity {
            proof {
                assert(first_place(entity, entity_list@, i as int));
                lemma_index_in(entity, entity_list@);
                let f = index_in(entity, entity_list@) as int;
                if f < i {
                    assert(entity_list@[f] != entity);
                }
                if f > i {
                    assert(entity_list@[i as int] != entity);
                }
            }
            return i;
        }
        i = i + 1;
    }
    0
}

/// The node list entry at `index`, if there is one.
pub open spec fn entity_at(index: usize, list: Seq<EntityId>) -> Option<EntityId> {
    if index < list.len() {
        Some(list[index as int])
    } else {
        None
    }
}

/// The entity at a place of the node list, if the place exists.
pub fn resolve_index(index: usize, node_entities: &Vec<EntityId>) -> (r: Option<EntityId>)
    ensures
        r == entity_at(index, node_entities@),
{
    if index < node_entities.len() {
        Some(node_entities[index])
    } else {
        None
    }
}

/// Each constraint written as the places of its endpoints.
pub fn constraint_indices(constraints: &Vec<DistanceConstraint>, entity_list: &Vec<EntityId>) -> (r:
    Vec<(usize, usize)>)
    ensures
        r.len() == constraints.len(),
        forall|i: int|
            0 <= i < r.len() ==> #[trigger] r@[i] == (
                index_in(constraints@[i].node_a, entity_list@),
                index_in(constraints@[i].node_b, entity_list@),
            ),
{
    let mut out: Vec<(usize, usize)> = Vec::new();
    let mut i: usize = 0;
    while i < constraints.len()
        invariant
            i <= constraints.len(),
            out.len() == i,
            forall|k: int|
                0 <= k < i ==> #[trigger] out@[k] == (
                    index_in(constraints@[k].node_a, entity_list@),
                    index_in(constraints@[k].node_b, entity_list@),
                ),
        decreases constraints.len() - i,
    {
        let c = constraints[i];
        out.push(
            (find_entity_index(c.node_a, entity_list), find_entity_index(c.node_b, entity_list)),
        );
        i = i + 1;
    }
    out
}

/// Each entity written as its place in the node list.
pub fn entity_indices(entities: &Vec<EntityId>, entity_list: &Vec<EntityId>) -> (r: Vec<usize>)
    ensures
        r.len() == entities.len(),
        forall|i: int| 0 <= i < r.len() ==> #[trigger] r@[i] == index_in(entities@[i], entity_list@),
{
    let mut out: Vec<usize> = Vec::new();
    let mut i: usize = 0;
    while i < entities.len()
        invariant
            i <= entities.len(),
            out.len() == i,
            forall|k: int| 0 <= k < i ==> #[trigger] out@[k] == index_in(entities@[k], entity_list@),
        decreases entities.len() - i,
    {
        out.push(find_entity_index(entities[i], entity_list));
        i = i + 1;
    }
    out
}

/// The constraints read back: for each written pair of places, in order, the
/// constraint between the entities there, with the pair's position in the
/// file; a pair with a place beyond the node list is skipped.
pub open spec fn read_constraints(pairs: Seq<(usize, usize)>, nodes: Seq<EntityId>) -> Seq<
    (usize, DistanceConstraint),
>
    decreases pairs.len(),
{
    if pairs.len() == 0 {
        Seq::empty()
    } else {
        let p = pairs.last();
        read_constraints(pairs.drop_last(), nodes) + if p.0 < nodes.len() && p.1 < nodes.len() {
            seq![
                (
                    (pairs.len() - 1) as usize,
                    DistanceConstraint { node_a: nodes[p.0 as int], node_b: nodes[p.1 as int] },
                ),
            ]
        } else {
            Seq::empty()
        }
    }
}

/// Reads the constraints of a scene back against the spawned nodes.
pub fn resolve_constraints(pairs: &Vec<(usize, usize)>, node_entities: &Vec<EntityId>) -> (r: Vec<
    (usize, DistanceConstraint),
>)
    ensures
        r@ == read_constraints(pairs@, node_entities@),
{
    let mut out: Vec<(usize, DistanceConstraint)> = Vec::new();
    let mut i: usize = 0;
    assert(pairs@.take(0) =~= Seq::<(usize, usize)>::empty());
    while i < pairs.len()
        invariant
            i <= pairs.len(),
            out@ == read_constraints(pairs@.take(i as int), node_entities@),
        decreases pairs.len() - i,
    {
        let p = pairs[i];
        proof {
            let t = pairs@.take(i + 1);
            assert(t.drop_last() =~= pairs@.take(i as int));
            assert(t.last() == p);
        }
        if p.0 < node_entities.len() && p.1 < node_entities.len() {
            out.push((i, DistanceConstraint { node_a: node_entities[p.0], node_b: node_entities[p.1] }));
        }
        i = i + 1;
    }
    assert(pairs@.take(pairs.len() as int) =~= pairs@);
    out
}

/// The joints of a limb read back: the entities at the written places that
/// exist, in order.
pub open spec fn read_joints(idxs: Seq<usize>, nodes: Seq<EntityId>) -> Seq<EntityId>
    decreases idxs.len(),
{
    if idxs.len() == 0 {
        Seq::empty()
    } else {
        read_joints(idxs.drop_last(), nodes) + match entity_at(idxs.last(), nodes) {
            Some(e) => seq![e],
            None => Seq::empty(),
        }
    }
}

/// Reads the joints of a limb back against the spawned nodes.
pub fn resolve_joints(idxs: &Vec<usize>, node_entities: &Vec<EntityId>) -> (r: Vec<EntityId>)
    ensures
        r@ == read_joints(idxs@, node_entities@),
{
    let mut out: Vec<EntityId> = Vec::new();
    let mut i: usize = 0;
    assert(idxs@.take(0) =~= Seq::<usize>::empty());
    while i < idxs.len()
        invariant
            i <= idxs.len(),
            out@ == read_joints(idxs@.take(i as int), node_entities@),
        decreases idxs.len() - i,
    {
        let k = idxs[i];
        proof {
            let t = idxs@.take(i + 1);
            assert(t.drop_last() =~= idxs@.take(i as int));
            assert(t.last() == k);
        }
        match resolve_index(k, node_entities) {
            Some(e) => {
                out.push(e);
            },
            None => {
                assert(read_joints(idxs@.take(i + 1), node_entities@) =~= out@);
            },
        }
        i = i + 1;
    }
    assert(idxs@.take(idxs.len() as int) =~= idxs@);
    out
}

/// Both endpoints of `c` are in `nodes`.
pub open spec fn ends_in(c: DistanceConstraint, nodes: Seq<EntityId>) -> bool {
    nodes.contains(c.node_a) && nodes.contains(c.node_b)
}

/// Writing a scene and reading it back against the same node list gives the
/// same constraints: every constraint whose endpoints are in the node list
/// comes back unchanged, at its own position.
pub proof fn scene_constraints_round_trip(cs: Seq<DistanceConstraint>, nodes: Seq<EntityId>)
    requires
        nodes.len() <= usize::MAX,
        cs.len() <= usize::MAX,
        forall|i: int| 0 <= i < cs.len() ==> #[trigger] ends_in(cs[i], nodes),
    ensures
        read_constraints(
            Seq::new(
                cs.len(),
                |i: int| (index_in(cs[i].node_a, nodes), index_in(cs[i].node_b, nodes)),
            ),
            nodes,
        ) == Seq::new(cs.len(), |i: int| (i as usize, cs[i])),
    decreases cs.len(),
{
    let pairs = Seq::new(
        cs.len(),
        |i: int| (index_in(cs[i].node_a, nodes), index_in(cs[i].node_b, nodes)),
    );
    if cs.len() > 0 {
        let pre = cs.drop_last();
        assert forall|i: int| 0 <= i < pre.len() implies #[trigger] ends_in(pre[i], nodes) by {
            assert(pre[i] == cs[i]);
            assert(ends_in(cs[i], nodes));
        }
        scene_constraints_round_trip(pre, nodes);
        let pp = Seq::new(
            pre.len(),
            |i: int| (index_in(pre[i].node_a, nodes), index_in(pre[i].node_b, nodes)),
        );
        assert(pairs.drop_last() =~= pp);
        let c = cs.last();
        assert(ends_in(cs[cs.len() - 1], nodes));
        lemma_index_in(c.node_a, nodes);
        lemma_index_in(c.node_b, nodes);
        assert(Seq::new(cs.len(), |i: int| (i as usize, cs[i])) =~= Seq::new(
            pre.len(),
            |i: int| (i as usize, pre[i]),
        ).push(((cs.len() - 1) as usize, c)));
    } else {
        assert(pairs =~= Seq::<(usize, usize)>::empty());
        assert(Seq::new(cs.len(), |i: int| (i as usize, cs[i])) =~= Seq::<
            (usize, DistanceConstraint),
        >::empty());
    }
}

/// Writing a limb's joints and reading them back against the same node list
/// gives the same joints, when all of them are in the list.
pub proof fn scene_joints_round_trip(joints: Seq<EntityId>, nodes: Seq<EntityId>)
    requires
        nodes.len() <= usize::MAX,
        forall|i: int| 0 <= i < joints.len() ==> nodes.contains(#[trigger] joints[i]),
    ensures
        read_joints(Seq::new(joints.len(), |i: int| index_in(joints[i], nodes)), nodes) == joints,
    decreases joints.len(),
{
    let idxs = Seq::new(joints.len(), |i: int| index_in(joints[i], nodes));
    if joints.len() > 0 {
        let pre = joints.drop_last();
        assert forall|i: int| 0 <= i < pre.len() implies nodes.contains(#[trigger] pre[i]) by {
            assert(pre[i] == joints[i]);
            assert(nodes.contains(joints[i]));
        }
        scene_joints_round_trip(pre, nodes);
        assert(idxs.drop_last() =~= Seq::new(pre.len(), |i: int| index_in(pre[i], nodes)));
        assert(nodes.contains(joints[joints.len() - 1]));
        lemma_index_in(joints.last(), nodes);
        assert(joints =~= pre.push(joints.last()));
    } else {
        assert(idxs =~= Seq::<usize>::empty());
        assert(joints =~= Seq::<EntityId>::empty());
    }
}

} // verus!
