use sway::entity::EntityId;
use sway::graph::DistanceConstraint;
use sway::scene::{
    constraint_indices, entity_indices, find_entity_index, resolve_constraints, resolve_index,
    resolve_joints,
};

fn ent(generation: u32, index: u32) -> EntityId {
    EntityId::from_bits(((generation as u64) << 32) | ((!index) as u64)).unwrap()
}

fn e(i: u32) -> EntityId {
    ent(i, i)
}

#[test]
fn entity_index_is_first_place_or_zero() {
    let list = vec![e(4), e(7), e(4)];
    assert_eq!(find_entity_index(e(7), &list), 1);
    assert_eq!(find_entity_index(e(4), &list), 0);
    assert_eq!(find_entity_index(e(9), &list), 0);
}

#[test]
fn index_resolves_inside_the_list_only() {
    let list = vec![e(4), e(7)];
    assert_eq!(resolve_index(1, &list), Some(e(7)));
    assert_eq!(resolve_index(2, &list), None);
}

#[test]
fn scene_round_trip_of_constraints() {
    let saved = vec![e(10), e(11), e(12)];
    let cs = vec![
        DistanceConstraint::new(e(10), e(11)),
        DistanceConstraint::new(e(12), e(10)),
    ];
    let pairs = constraint_indices(&cs, &saved);
    assert_eq!(pairs, vec![(0, 1), (2, 0)]);
    let spawned = vec![e(20), e(21), e(22)];
    let back = resolve_constraints(&pairs, &spawned);
    assert_eq!(
        back,
        vec![
            (0, DistanceConstraint::new(e(20), e(21))),
            (1, DistanceConstraint::new(e(22), e(20))),
        ]
    );
}

#[test]
fn constraints_with_missing_nodes_are_skipped() {
    let spawned = vec![e(20), e(21)];
    let back = resolve_constraints(&vec![(0, 5), (1, 0)], &spawned);
    assert_eq!(back, vec![(1, DistanceConstraint::new(e(21), e(20)))]);
}

#[test]
fn scene_round_trip_of_joints() {
    let saved = vec![e(10), e(11), e(12)];
    let idxs = entity_indices(&vec![e(12), e(11)], &saved);
    assert_eq!(idxs, vec![2, 1]);
    let spawned = vec![e(30), e(31), e(32)];
    assert_eq!(resolve_joints(&idxs, &spawned), vec![e(32), e(31)]);
    assert_eq!(resolve_joints(&vec![0, 7, 2], &spawned), vec![e(30), e(32)]);
}
