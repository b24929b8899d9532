use sway::editor::{
    constraint_exists, constraint_weights, constraints_involving, flips_at, graph_update,
    group_color_index, limb_slot_action, limb_slot_count, needs_new_lengths, palette_slot,
    skin_slot_action, EdgeCreationState, Selection, SlotAction,
};
use sway::entity::EntityId;
use sway::graph::{ConstraintGraph, DistanceConstraint};
use sway::node::NodeType;

fn ent(generation: u32, index: u32) -> EntityId {
    EntityId::from_bits(((generation as u64) << 32) | ((!index) as u64)).unwrap()
}

fn e(i: u32) -> EntityId {
    ent(i, i)
}

fn dc(a: u32, b: u32) -> DistanceConstraint {
    DistanceConstraint::new(e(a), e(b))
}

#[test]
fn selection_holds_one_node() {
    let mut s = Selection::new();
    assert!(!s.is_selected(e(1)));
    s.select(e(1));
    assert!(s.is_selected(e(1)));
    s.select(e(2));
    assert!(!s.is_selected(e(1)));
    assert!(s.is_selected(e(2)));
    s.deselect();
    assert!(!s.is_selected(e(2)));
}

#[test]
fn constraint_exists_in_either_direction() {
    let cs = vec![dc(1, 2)];
    assert!(constraint_exists(e(1), e(2), &cs));
    assert!(constraint_exists(e(2), e(1), &cs));
    assert!(!constraint_exists(e(1), e(3), &cs));
}

#[test]
fn edge_tool_links_two_clicked_nodes() {
    let cs = vec![dc(1, 2)];
    let mut t = EdgeCreationState::new();
    assert_eq!(t.click(e(1), &cs), None);
    assert_eq!(t.first_node, Some(e(1)));
    assert_eq!(t.click(e(3), &cs), Some((e(1), e(3))));
    assert_eq!(t.first_node, None);
}

#[test]
fn edge_tool_refuses_duplicates_and_self_links() {
    let cs = vec![dc(1, 2)];
    let mut t = EdgeCreationState::new();
    t.click(e(2), &cs);
    assert_eq!(t.click(e(1), &cs), None);
    assert_eq!(t.first_node, None);
    t.click(e(3), &cs);
    assert_eq!(t.click(e(3), &cs), None);
    assert_eq!(t.first_node, None);
}

#[test]
fn edge_tool_cancel_drops_the_first_click() {
    let mut t = EdgeCreationState::new();
    t.click(e(1), &vec![]);
    t.cancel();
    assert_eq!(t.first_node, None);
    assert_eq!(t.click(e(2), &vec![]), None);
}

#[test]
fn deleting_a_node_takes_its_constraints() {
    let cs = vec![dc(1, 2), dc(3, 4), dc(2, 3), dc(5, 2)];
    assert_eq!(constraints_involving(e(2), &cs), vec![0, 2, 3]);
    assert!(constraints_involving(e(9), &cs).is_empty());
}

#[test]
fn graph_rebuilt_when_playing_and_changed() {
    assert_eq!(graph_update(false, true, true), (false, false));
    assert_eq!(graph_update(true, false, false), (true, true));
    assert_eq!(graph_update(true, true, false), (false, true));
    assert_eq!(graph_update(true, true, true), (true, true));
}

#[test]
fn weights_share_the_correction() {
    assert_eq!(constraint_weights(NodeType::Anchor, NodeType::Anchor), (0, 0));
    assert_eq!(constraint_weights(NodeType::Anchor, NodeType::Normal), (0, 2));
    assert_eq!(constraint_weights(NodeType::Leg, NodeType::Anchor), (2, 0));
    assert_eq!(constraint_weights(NodeType::Normal, NodeType::Leg), (1, 1));
}

#[test]
fn limb_lengths_measured_again_on_change() {
    assert!(needs_new_lengths(true, 3, 3));
    assert!(needs_new_lengths(false, 2, 3));
    assert!(!needs_new_lengths(false, 3, 3));
}

#[test]
fn bend_flags_default_to_false() {
    let flags = vec![false, true];
    assert!(flips_at(&flags, 1));
    assert!(!flips_at(&flags, 0));
    assert!(!flips_at(&flags, 5));
}

#[test]
fn skin_slots_show_hide_or_go() {
    assert_eq!(skin_slot_action(true, 0, 2, 3), SlotAction::Show);
    assert_eq!(skin_slot_action(true, 2, 2, 3), SlotAction::Hide);
    assert_eq!(skin_slot_action(false, 0, 0, 3), SlotAction::Despawn);
    assert_eq!(skin_slot_action(true, 3, 2, 3), SlotAction::Despawn);
}

#[test]
fn limb_slots_show_hide_or_go() {
    assert_eq!(limb_slot_action(true, 0, true, 1), SlotAction::Show);
    assert_eq!(limb_slot_action(false, 0, true, 1), SlotAction::Hide);
    assert_eq!(limb_slot_action(true, 4, false, 2), SlotAction::Despawn);
    assert_eq!(limb_slot_count(&vec![]), 0);
    assert_eq!(limb_slot_count(&vec![2, 0, 5, 1]), 6);
}

#[test]
fn group_colour_from_least_slot() {
    let mut g = ConstraintGraph::new();
    g.rebuild(&vec![DistanceConstraint::new(ent(3, 8), ent(4, 6))]);
    assert_eq!(group_color_index(&g, 0), 6);
    assert_eq!(group_color_index(&g, 5), 5);
}

#[test]
fn palette_wraps() {
    assert_eq!(palette_slot(7, 5), 2);
    assert_eq!(palette_slot(3, 5), 3);
}
