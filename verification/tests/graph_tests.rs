use sway::entity::EntityId;
use sway::graph::{build_adjacency, count_walk_fuel, find_key, ConstraintGraph, DistanceConstraint};
use sway::node::{check_anchor, check_leg, find_kind, NodeType};

fn ent(generation: u32, index: u32) -> EntityId {
    EntityId::from_bits(((generation as u64) << 32) | ((!index) as u64)).unwrap()
}

fn e(i: u32) -> EntityId {
    ent(i, i)
}

fn dc(a: u32, b: u32) -> DistanceConstraint {
    DistanceConstraint::new(e(a), e(b))
}

#[test]
fn constraint_involves_and_other() {
    let c = dc(1, 2);
    assert!(c.involves(e(1)));
    assert!(c.involves(e(2)));
    assert!(!c.involves(e(3)));
    assert_eq!(c.other(e(1)), Some(e(2)));
    assert_eq!(c.other(e(2)), Some(e(1)));
    assert_eq!(c.other(e(3)), None);
}

#[test]
fn adjacency_lists_follow_constraint_order() {
    let cs = vec![dc(1, 2), dc(2, 3), dc(4, 2)];
    let (keys, lists) = build_adjacency(&cs);
    assert_eq!(keys, vec![e(1), e(2), e(3), e(4)]);
    assert_eq!(lists[0], vec![(e(2), 0)]);
    assert_eq!(lists[1], vec![(e(1), 0), (e(3), 1), (e(4), 2)]);
    assert_eq!(lists[2], vec![(e(2), 1)]);
    assert_eq!(lists[3], vec![(e(2), 2)]);
    assert_eq!(find_key(&keys, e(3)), Some(2));
    assert_eq!(find_key(&keys, e(9)), None);
    // two entries per constraint, plus one
    assert_eq!(count_walk_fuel(&lists), 7);
}

#[test]
fn empty_graph_has_no_groups() {
    let g = ConstraintGraph::new();
    assert_eq!(g.get_group(e(1)), None);
    assert_eq!(g.get_group_min(0), None);
    assert!(g.neighbors(e(1)).is_none());
}

#[test]
fn rebuild_groups_connected_nodes() {
    let mut g = ConstraintGraph::new();
    g.rebuild(&vec![dc(1, 2), dc(3, 4), dc(2, 5)]);
    // groups are numbered in the order of their least node
    assert_eq!(g.get_group(e(1)), Some(0));
    assert_eq!(g.get_group(e(2)), Some(0));
    assert_eq!(g.get_group(e(5)), Some(0));
    assert_eq!(g.get_group(e(3)), Some(1));
    assert_eq!(g.get_group(e(4)), Some(1));
    assert_eq!(g.get_group(e(9)), None);
    assert_eq!(g.get_group_min(0), Some(e(1)));
    assert_eq!(g.get_group_min(1), Some(e(3)));
    assert_eq!(g.get_group_min(2), None);
    assert_eq!(g.neighbors(e(2)), Some(&vec![(e(1), 0), (e(5), 2)]));
}

#[test]
fn rebuild_orders_groups_by_identifier_and_picks_least_slot() {
    // identifiers order the groups; the slot index picks the group's minimum
    let a = ent(10, 1);
    let b = ent(5, 7);
    let c = ent(20, 3);
    let d = ent(30, 2);
    let mut g = ConstraintGraph::new();
    g.rebuild(&vec![DistanceConstraint::new(c, d), DistanceConstraint::new(a, b)]);
    assert_eq!(g.get_group(b), Some(0));
    assert_eq!(g.get_group(a), Some(0));
    assert_eq!(g.get_group(c), Some(1));
    assert_eq!(g.get_group(d), Some(1));
    assert_eq!(g.get_group_min(0), Some(a));
    assert_eq!(g.get_group_min(1), Some(d));
}

#[test]
fn rebuild_forgets_the_old_graph() {
    let mut g = ConstraintGraph::new();
    g.rebuild(&vec![dc(1, 2)]);
    g.rebuild(&vec![dc(3, 4)]);
    assert_eq!(g.get_group(e(1)), None);
    assert_eq!(g.get_group(e(3)), Some(0));
    assert!(g.neighbors(e(1)).is_none());
}

#[test]
fn node_kinds_are_looked_up_by_first_row() {
    let kinds = vec![(e(1), NodeType::Anchor), (e(2), NodeType::Leg), (e(1), NodeType::Normal)];
    assert_eq!(find_kind(&kinds, e(1)), Some(NodeType::Anchor));
    assert_eq!(find_kind(&kinds, e(3)), None);
    assert!(check_leg(&kinds, e(2)));
    assert!(!check_leg(&kinds, e(3)));
    assert!(check_anchor(&kinds, e(1)));
    assert!(!check_anchor(&kinds, e(2)));
}

#[test]
fn node_type_names_and_default() {
    assert_eq!(NodeType::Anchor.name(), "Anchor");
    assert_eq!(NodeType::Leg.name(), "Leg");
    assert_eq!(NodeType::Normal.name(), "Normal");
    assert_eq!(NodeType::default(), NodeType::Normal);
    assert_eq!(NodeType::default_kind(), NodeType::Normal);
}

#[test]
fn entity_slot_index_read_from_bits() {
    // generation 3, slot 1: Bevy stores the slot inverted in the low bits
    let id = EntityId::from_bits(0x0000_0003_FFFF_FFFE).unwrap();
    assert_eq!(id.bits, 0x0000_0003_FFFF_FFFE);
    assert_eq!(id.index, 1);
    assert_eq!(EntityId::from_bits(0x0000_0007_FFFF_FFFF).unwrap().index, 0);
    // low bits of zero name no entity
    assert!(EntityId::from_bits(0x0000_0003_0000_0000).is_none());
}

#[test]
fn group_min_keeps_the_first_of_equal_slots_the_walk_meets() {
    // the seed 1 (slot 9) spreads to 2 and 3 (both slot 3); the walk takes
    // the last pushed first, so 3 is met first and kept
    let s = ent(1, 9);
    let a = ent(2, 3);
    let b = ent(3, 3);
    let mut g = ConstraintGraph::new();
    g.rebuild(&vec![DistanceConstraint::new(s, a), DistanceConstraint::new(s, b)]);
    assert_eq!(g.get_group_min(0), Some(b));
    // a seed whose slot ties with a neighbour's stays
    let mut h = ConstraintGraph::new();
    h.rebuild(&vec![DistanceConstraint::new(ent(6, 7), ent(5, 7))]);
    assert_eq!(h.get_group_min(0), Some(ent(5, 7)));
}
