//! Node kinds and the table that tells the kind of each node.

use vstd::prelude::*;

use crate::entity::EntityId;

verus! {

/// The kind of a simulation node.
///
/// Anchors are driven directly and pin the chains that start at them; legs
/// are the joints of limbs; every other node is normal.
#[derive(Clone, Copy, Debug, PartialEq, Eq, Structural)]
pub enum NodeType {
    Anchor,
    Leg,
    Normal,
}

impl NodeType {
    /// The display name of the kind.
    pub fn name(&self) -> (r: &'static str)
        ensures
            r@ == (match *self {
                NodeType::Anchor => "Anchor"@,
                NodeType::Leg => "Leg"@,
                NodeType::Normal => "Normal"@,
            }),
    {
        match self {
            NodeType::Anchor => "Anchor",
            NodeType::Leg => "Leg",
            NodeType::Normal => "Normal",
        }
    }

    /// Normal is the default kind.
    pub fn default_kind() -> (r: NodeType)
        ensures
            r == NodeType::Normal,
    {
        NodeType::Normal
    }
}

impl Default for NodeType {
    fn default() -> (r: NodeType)
        ensures
            r == NodeType::Normal,
    {
        NodeType::Normal
    }
}

/// The kind of `e` in a table of `(node, kind)` rows: that of the first row
/// for `e`, or none when no row names it (the node does not exist).
pub open spec fn kind_of(kinds: Seq<(EntityId, NodeType)>, e: EntityId) -> Option<NodeType>
    decreases kinds.len(),
{
    if kinds.len() == 0 {
        None
    } else if kinds[0].0 == e {
        Some(kinds[0].1)
    } else {
        kind_of(kinds.drop_first(), e)
    }
}

/// `e` exists and is a leg.
pub open spec fn is_leg(kinds: Seq<(EntityId, NodeType)>, e: EntityId) -> bool {
    kind_of(kinds, e) == Some(NodeType::Leg)
}

/// `e` exists and is an anchor.
pub open spec fn is_anchor(kinds: Seq<(EntityId, NodeType)>, e: EntityId) -> bool {
    kind_of(kinds, e) == Some(NodeType::Anchor)
}

/// Looks up the kind of `e`.
pub fn find_kind(kinds: &Vec<(EntityId, NodeType)>, e: EntityId) -> (r: Option<NodeType>)
    ensures
        r == kind_of(kinds@, e),
{
    let mut i: usize = 0;
    assert(kinds@.skip(0) =~= kinds@);
    while i < kinds.len()
        invariant
            i <= kinds.len(),
            kind_of(kinds@, e) == kind_of(kinds@.skip(i as int), e),
        decreases kinds.len() - i,
    {
        let row = kinds[i];
        proof {
            let t = kinds@.skip(i as int);
            assert(t[0] == row);
            assert(t.drop_first() =~= kinds@.skip(i + 1));
        }
        if row.0 == e {
            return Some(row.1);
        }
        i = i + 1;
    }
    proof {
        assert(kinds@.skip(i as int).len() == 0);
    }
    None
}

/// Whether `e` exists and is a leg.
pub fn check_leg(kinds: &Vec<(EntityId, NodeType)>, e: EntityId) -> (r: bool)
    ensures
        r == is_leg(kinds@, e),
{
    match find_kind(kinds, e) {
        Some(k) => k == NodeType::Leg,
        None => false,
    }
}

/// Whether `e` exists and is an anchor.
pub fn check_anchor(kinds: &Vec<(EntityId, NodeType)>, e: EntityId) -> (r: bool)
    ensures
        r == is_anchor(kinds@, e),
{
    match find_kind(kinds, e) {
        Some(k) => k == NodeType::Anchor,
        None => false,
    }
}

} // verus!
