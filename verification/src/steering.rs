//! The discrete decisions of an anchor's wandering: which nodes its
//! lookahead ignores, and when a target that left the safe area sits in a
//! corner rather than past a single edge.

use vstd::prelude::*;

use crate::entity::EntityId;

verus! {

/// The entities that the pairs join to `entity`, in the order of the pairs:
/// for a pair `(a, b)`, `b` when `a` is `entity`, otherwise `a` when `b` is.
pub open spec fn partners(entity: EntityId, pairs: Seq<(EntityId, EntityId)>) -> Seq<EntityId>
    decreases pairs.len(),
{
    if pairs.len() == 0 {
        Seq::empty()
    } else {
        let rest = partners(entity, pairs.drop_last());
        let p = pairs.last();
        if p.0 == entity {
            rest.push(p.1)
        } else if p.1 == entity {
            rest.push(p.0)
        } else {
            rest
        }
    }
}

/// The entities that a constraint joins to `entity`, given the constraints
/// as pairs of their two nodes.
pub fn connected_entities(entity: EntityId, pairs: &Vec<(EntityId, EntityId)>) -> (r: Vec<EntityId>)
    ensures
        r@ == partners(entity, pairs@),
{
    let mut r: Vec<EntityId> = Vec::new();
    let mut i: usize = 0;
    while i < pairs.len()
        invariant
            i <= pairs.len(),
            r@ == partners(entity, pairs@.subrange(0, i as int)),
        decreases pairs.len() - i,
    {
        let p = pairs[i];
        assert(pairs@.subrange(0, i + 1).drop_last() =~= pairs@.subrange(0, i as int));
        if p.0 == entity {
            r.push(p.1);
        } else if p.1 == entity {
            r.push(p.0);
        }
        i = i + 1;
    }
    assert(pairs@.subrange(0, pairs.len() as int) =~= pairs@);
    r
}

/// The lookahead of `self_entity` ignores itself and the nodes it is
/// connected to.
pub fn should_skip_node(other: EntityId, self_entity: EntityId, connected: &Vec<EntityId>) -> (r: bool)
    ensures
        r == (other == self_entity || connected@.contains(other)),
{
    if other == self_entity {
        return true;
    }
    let mut i: usize = 0;
    while i < connected.len()
        invariant
            i <= connected.len(),
            forall|k: int| 0 <= k < i ==> connected@[k] != other,
        decreases connected.len() - i,
    {
        if connected[i] == other {
            return true;
        }
        i = i + 1;
    }
    false
}

/// A target is in a corner when it is out on the horizontal axis and on the
/// vertical one at once.
pub fn is_in_corner(out_left: bool, out_right: bool, out_bottom: bool, out_top: bool) -> (r: bool)
    ensures
        r == ((out_left || out_right) && (out_bottom || out_top)),
{
    (out_left || out_right) && (out_bottom || out_top)
}

} // verus!
