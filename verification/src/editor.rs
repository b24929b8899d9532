//! The editor's decisions: what is selected, what a click of the edge tool
//! does, what a deletion removes, when the graph is rebuilt, and which
//! visual slots are shown, hidden or dropped.

use vstd::prelude::*;

use crate::entity::EntityId;
use crate::graph::{ConstraintGraph, DistanceConstraint, joins, touches};
use crate::node::NodeType;

verus! {

// ---------------------------------------------------------------------------
// Selection
// ---------------------------------------------------------------------------

/// The node the editor has selected, if any.
#[derive(Clone, Copy, Debug, PartialEq, Eq, Structural)]
pub struct Selection {
    pub entity: Option<EntityId>,
}

impl Selection {
    /// Nothing selected.
    pub fn new() -> (r: Selection)
        ensures
            r.entity is None,
    {
        Selection { entity: None }
    }

    pub fn select(&mut self, entity: EntityId)
        ensures
            final(self).entity == Some(entity),
    {
        self.entity = Some(entity);
    }

    pub fn deselect(&mut self)
        ensures
            final(self).entity is None,
    {
        self.entity = None;
    }

    pub fn is_selected(&self, entity: EntityId) -> (r: bool)
        ensures
            r == (self.entity == Some(entity)),
    {
        match self.entity {
            Some(e) => e == entity,
            None => false,
        }
    }
}

// ---------------------------------------------------------------------------
// The edge tool
// ---------------------------------------------------------------------------

/// Some constraint links `a` and `b`, in either direction.
pub open spec fn constraint_exists_spec(a: EntityId, b: EntityId, existing: Seq<DistanceConstraint>) -> bool {
    exists|i: int| 0 <= i < existing.len() && #[trigger] joins(existing[i], a, b)
}

/// Whether some constraint already links `a` and `b`.
pub fn constraint_exists(a: EntityId, b: EntityId, existing: &Vec<DistanceConstraint>) -> (r: bool)
    ensures
        r == constraint_exists_spec(a, b, existing@),
{
    let mut i: usize = 0;
    while i < existing.len()
        invariant
            i <= existing.len(),
            forall|k: int| 0 <= k < i ==> !#[trigger] joins(existing@[k], a, b),
        decreases existing.len() - i,
    {
        let c = existing[i];
        if (c.node_a == a && c.node_b == b) || (c.node_a == b && c.node_b == a) {
            assert(joins(existing@[i as int], a, b));
            return true;
        }
        i = i + 1;
    }
    false
}

/// The edge tool's progress: the node picked by the first click, if any.
#[derive(Clone, Copy, Debug, PartialEq, Eq, Structural)]
pub struct EdgeCreationState {
    pub first_node: Option<EntityId>,
}

impl EdgeCreationState {
    pub fn new() -> (r: EdgeCreationState)
        ensures
            r.first_node is None,
    {
        EdgeCreationState { first_node: None }
    }

    /// A click on the node `clicked`. The first click picks it; the second
    /// click ends the gesture and names the new constraint, from the first
    /// node to `clicked`, unless both clicks picked the same node or the two
    /// nodes are already linked.
    pub fn click(&mut self, clicked: EntityId, existing: &Vec<DistanceConstraint>) -> (r: Option<
        (EntityId, EntityId),
    >)
        ensures
            match old(self).first_node {
                None => final(self).first_node == Some(clicked) && r is None,
                Some(first) => final(self).first_node is None && r == (if first == clicked
                    || constraint_exists_spec(first, clicked, existing@) {
                    None
                } else {
                    Some((first, clicked))
                }),
            },
    {
        match self.first_node {
            None => {
                self.first_node = Some(clicked);
                None
            },
            Some(first) => {
                self.first_node = None;
                if first == clicked {
                    return None;
                }
                if constraint_exists(first, clicked, existing) {
                    return None;
                }
                Some((first, clicked))
            },
        }
    }

    /// Leaving the tool, a right click or Escape drops a gesture in progress.
    pub fn cancel(&mut self)
        ensures
            final(self).first_node is None,
    {
        self.first_node = None;
    }
}

// ---------------------------------------------------------------------------
// Deleting the selected node
// ---------------------------------------------------------------------------

/// The constraints that touch `entity`, by index, in order.
pub open spec fn touching(entity: EntityId, cs: Seq<DistanceConstraint>) -> Seq<usize>
    decreases cs.len(),
{
    if cs.len() == 0 {
        Seq::empty()
    } else {
        touching(entity, cs.drop_last()) + if touches(cs.last(), entity) {
            seq![(cs.len() - 1) as usize]
        } else {
            Seq::empty()
        }
    }
}

/// The constraints to remove with a deleted node: those that touch it.
pub fn constraints_involving(entity: EntityId, constraints: &Vec<DistanceConstraint>) -> (r: Vec<usize>)
    ensures
        r@ == touching(entity, constraints@),
{
    let mut out: Vec<usize> = Vec::new();
    let mut i: usize = 0;
    assert(constraints@.take(0) =~= Seq::<DistanceConstraint>::empty());
    while i < constraints.len()
        invariant
            i <= constraints.len(),
            out@ == touching(entity, constraints@.take(i as int)),
        decreases constraints.len() - i,
    {
        let c = constraints[i];
        proof {
            let t = constraints@.take(i + 1);
            assert(t.drop_last() =~= constraints@.take(i as int));
            assert(t.last() == c);
        }
        if c.involves(entity) {
            out.push(i);
        }
        i = i + 1;
    }
    assert(constraints@.take(constraints.len() as int) =~= constraints@);
    out
}

/// Deleting a node takes exactly the constraints that touch it: an index is
/// among those `constraints_involving` gives back if and only if the
/// constraint there has the node as an endpoint.
pub proof fn deletion_takes_exactly_the_touching_constraints(entity: EntityId, cs: Seq<DistanceConstraint>)
    requires
        cs.len() <= usize::MAX,
    ensures
        forall|i: int| 0 <= i < cs.len() ==> (touching(entity, cs).contains(i as usize) <==> touches(#[trigger] cs[i], entity)),
        forall|k: int| 0 <= k < touching(entity, cs).len() ==> (#[trigger] touching(entity, cs)[k]) < cs.len(),
    decreases cs.len(),
{
    if cs.len() > 0 {
        let pre = cs.drop_last();
        deletion_takes_exactly_the_touching_constraints(entity, pre);
        let t0 = touching(entity, pre);
        let last = (cs.len() - 1) as usize;
        let tail: Seq<usize> = if touches(cs.last(), entity) {
            seq![last]
        } else {
            Seq::empty()
        };
        assert(touching(entity, cs) == t0 + tail);
        assert forall|k: int| 0 <= k < (t0 + tail).len() implies (#[trigger] (t0 + tail)[k]) < cs.len() by {
            if k < t0.len() {
                assert((t0 + tail)[k] == t0[k]);
            } else {
                assert((t0 + tail)[k] == tail[k - t0.len()]);
            }
        }
        assert forall|i: int| 0 <= i < cs.len() implies ((t0 + tail).contains(i as usize) <==> touches(
            #[trigger] cs[i],
            entity,
        )) by {
            if i < cs.len() - 1 {
                assert(cs[i] == pre[i]);
                if (t0 + tail).contains(i as usize) {
                    let k = choose|k: int| 0 <= k < (t0 + tail).len() && (t0 + tail)[k] == i as usize;
                    if k < t0.len() {
                        assert((t0 + tail)[k] == t0[k]);
                    } else {
                        assert((t0 + tail)[k] == tail[k - t0.len()]);
                    }
                }
                if t0.contains(i as usize) {
                    let k = choose|k: int| 0 <= k < t0.len() && t0[k] == i as usize;
                    assert((t0 + tail)[k] == t0[k]);
                }
            } else {
                if touches(cs[i], entity) {
                    assert((t0 + tail)[t0.len() as int] == last);
                } else if (t0 + tail).contains(i as usize) {
                    let k = choose|k: int| 0 <= k < (t0 + tail).len() && (t0 + tail)[k] == i as usize;
                    assert((t0 + tail)[k] == t0[k]);
                }
            }
        }
    }
}

// ---------------------------------------------------------------------------
// Rebuilding the graph
// ---------------------------------------------------------------------------

/// What the graph update does in one frame: whether to rebuild, and whether
/// the graph counts as built afterwards. Nothing is rebuilt while the
/// simulation is paused, and pausing forgets the build; while playing, the
/// graph is built once and then again whenever a constraint changes.
pub fn graph_update(playing: bool, has_built: bool, constraints_changed: bool) -> (r: (bool, bool))
    ensures
        r == (if !playing {
            (false, false)
        } else if has_built && !constraints_changed {
            (false, true)
        } else {
            (true, true)
        }),
{
    if !playing {
        return (false, false);
    }
    let should_rebuild = !has_built || constraints_changed;
    if !should_rebuild {
        return (false, has_built);
    }
    (true, true)
}

// ---------------------------------------------------------------------------
// The solver's weights
// ---------------------------------------------------------------------------

/// How a distance correction is shared between the two endpoints, in halves
/// of the correction: anchors do not move; a free node facing an anchor takes
/// all of it; two free nodes take half each.
pub fn constraint_weights(type_a: NodeType, type_b: NodeType) -> (r: (u8, u8))
    ensures
        r == (match (type_a == NodeType::Anchor, type_b == NodeType::Anchor) {
            (true, true) => (0u8, 0u8),
            (true, false) => (0u8, 2u8),
            (false, true) => (2u8, 0u8),
            (false, false) => (1u8, 1u8),
        }),
        r.0 + r.1 == 0 <==> (type_a == NodeType::Anchor && type_b == NodeType::Anchor),
{
    match (type_a == NodeType::Anchor, type_b == NodeType::Anchor) {
        (true, true) => (0, 0),
        (true, false) => (0, 2),
        (false, true) => (2, 0),
        (false, false) => (1, 1),
    }
}

/// The limb solver measures its segments again when the graph changed or
/// the lengths no longer match the joints.
pub fn needs_new_lengths(graph_changed: bool, lengths_len: usize, joint_count: usize) -> (r: bool)
    ensures
        r == (graph_changed || lengths_len != joint_count),
{
    graph_changed || lengths_len != joint_count
}

/// Whether joint `i` of a limb bends the other way: the flag set for it, or
/// no when the limb has none for it.
pub fn flips_at(flip_bend: &Vec<bool>, i: usize) -> (r: bool)
    ensures
        r == (i < flip_bend.len() && flip_bend@[i as int]),
{
    if i < flip_bend.len() {
        flip_bend[i]
    } else {
        false
    }
}

// ---------------------------------------------------------------------------
// Visual slots
// ---------------------------------------------------------------------------

/// What becomes of a mesh slot in a frame.
#[derive(Clone, Copy, Debug, PartialEq, Eq, Structural)]
pub enum SlotAction {
    /// The slot draws its mesh.
    Show,
    /// The slot is kept, hidden, with an empty mesh.
    Hide,
    /// The slot is no longer needed and is despawned.
    Despawn,
}

/// The skin slot `idx`, when `polygons` of the `chains` skin chains gave a
/// polygon: shown when the skin is on and it has a polygon; otherwise
/// despawned when the skin is off (no chain is drawn then) or no chain needs
/// it any more, else hidden.
pub fn skin_slot_action(show: bool, idx: usize, polygons: usize, chains: usize) -> (r: SlotAction)
    ensures
        r == (if show && idx < polygons {
            SlotAction::Show
        } else if !show || idx >= chains {
            SlotAction::Despawn
        } else {
            SlotAction::Hide
        }),
{
    let chain_count = if show {
        chains
    } else {
        0
    };
    if !show || idx >= polygons {
        if idx >= chain_count {
            SlotAction::Despawn
        } else {
            SlotAction::Hide
        }
    } else {
        SlotAction::Show
    }
}

/// The limb slot of body group `idx`: shown when the skin is on and the
/// group has limbs; otherwise despawned when it lies beyond the groups in
/// use (`slots`), else hidden.
pub fn limb_slot_action(show: bool, idx: usize, has_limbs: bool, slots: usize) -> (r: SlotAction)
    ensures
        r == (if show && has_limbs {
            SlotAction::Show
        } else if idx >= slots {
            SlotAction::Despawn
        } else {
            SlotAction::Hide
        }),
{
    if !show || !has_limbs {
        if idx >= slots {
            SlotAction::Despawn
        } else {
            SlotAction::Hide
        }
    } else {
        SlotAction::Show
    }
}

/// The number of limb slots the groups in use need: one past the largest
/// group, none when no group has limbs.
pub fn limb_slot_count(groups: &Vec<u32>) -> (r: usize)
    requires
        forall|i: int| 0 <= i < groups.len() ==> (#[trigger] groups@[i]) < u32::MAX,
    ensures
        groups.len() == 0 ==> r == 0,
        groups.len() > 0 ==> (exists|i: int| 0 <= i < groups.len() && r == groups@[i] + 1) && forall|
            i: int,
        | 0 <= i < groups.len() ==> (#[trigger] groups@[i]) < r,
{
    let mut best: usize = 0;
    let mut i: usize = 0;
    while i < groups.len()
        invariant
            i <= groups.len(),
            forall|k: int| 0 <= k < groups.len() ==> (#[trigger] groups@[k]) < u32::MAX,
            i == 0 ==> best == 0,
            i > 0 ==> exists|k: int| 0 <= k < i && best == groups@[k] + 1,
            forall|k: int| 0 <= k < i ==> (#[trigger] groups@[k]) < best,
        decreases groups.len() - i,
    {
        let g = groups[i] as usize + 1;
        if i == 0 || g > best {
            best = g;
        }
        i = i + 1;
    }
    best
}

/// The colour index of body group `group`: the slot index of the group's
/// node of least slot index, or the group number itself when there is no
/// such group.
pub fn group_color_index(graph: &ConstraintGraph, group: u32) -> (r: usize)
    ensures
        r == (if (group as int) < graph.group_min_nodes.len() {
            graph.group_min_nodes@[group as int].index as usize
        } else {
            group as usize
        }),
{
    match graph.get_group_min(group) {
        Some(e) => e.index as usize,
        None => group as usize,
    }
}

/// The colour of slot `i` in a palette of `len` colours: the palette wraps.
pub fn palette_slot(i: usize, len: usize) -> (r: usize)
    requires
        len > 0,
    ensures
        r == i % len,
        r < len,
{
    i % len
}

} // verus!
