use sway::chains::{build_chains, build_ordered_chains, ChainLink};
use sway::entity::EntityId;
use sway::graph::{ConstraintGraph, DistanceConstraint};
use sway::node::NodeType;

fn ent(generation: u32, index: u32) -> EntityId {
    EntityId::from_bits(((generation as u64) << 32) | ((!index) as u64)).unwrap()
}

fn e(i: u32) -> EntityId {
    ent(i, i)
}

fn dc(a: u32, b: u32) -> DistanceConstraint {
    DistanceConstraint::new(e(a), e(b))
}

fn link(i: u32, rest: Option<usize>) -> ChainLink {
    ChainLink { entity: e(i), rest }
}

fn graph_of(cs: &Vec<DistanceConstraint>) -> ConstraintGraph {
    let mut g = ConstraintGraph::new();
    g.rebuild(cs);
    g
}

#[test]
fn solver_chain_runs_from_the_anchor() {
    let cs = vec![dc(1, 2), dc(2, 3)];
    let kinds = vec![(e(1), NodeType::Anchor), (e(2), NodeType::Normal), (e(3), NodeType::Normal)];
    let (chains, standalone) = build_chains(&cs, &kinds).unwrap();
    assert_eq!(chains, vec![vec![link(1, Some(0)), link(2, Some(1)), link(3, None)]]);
    assert!(standalone.is_empty());
}

#[test]
fn solver_chain_runs_from_a_loose_end_without_anchor() {
    let cs = vec![dc(2, 3), dc(1, 2)];
    let kinds = vec![];
    let (chains, standalone) = build_chains(&cs, &kinds).unwrap();
    // node order is the order of first appearance: 2, 3, 1; 3 is the first loose end
    assert_eq!(chains, vec![vec![link(3, Some(0)), link(2, Some(1)), link(1, None)]]);
    assert!(standalone.is_empty());
}

#[test]
fn solver_ring_closes_on_its_start() {
    let cs = vec![dc(1, 2), dc(2, 3), dc(3, 1)];
    let kinds = vec![];
    let (chains, standalone) = build_chains(&cs, &kinds).unwrap();
    assert_eq!(
        chains,
        vec![vec![link(1, Some(0)), link(2, Some(1)), link(3, Some(2)), link(1, None)]]
    );
    assert!(standalone.is_empty());
}

#[test]
fn solver_splits_at_an_anchor_branch() {
    // anchor 2 with three loose ends around it: one chain per entry of 2
    let cs = vec![dc(2, 1), dc(2, 3), dc(2, 4)];
    let kinds = vec![(e(2), NodeType::Anchor)];
    let (chains, standalone) = build_chains(&cs, &kinds).unwrap();
    assert_eq!(
        chains,
        vec![
            vec![link(2, Some(0)), link(1, None)],
            vec![link(2, Some(1)), link(3, None)],
            vec![link(2, Some(2)), link(4, None)],
        ]
    );
    assert!(standalone.is_empty());
}

#[test]
fn solver_gives_up_when_a_leftover_walk_meets_a_dead_end() {
    // 1 - 2 - 3 with 4 hanging off 2 and no anchor: after the first chain the
    // other loose ends are left over, and the walk around them dead-ends
    let cs = vec![dc(1, 2), dc(2, 3), dc(2, 4)];
    let kinds = vec![];
    assert!(build_chains(&cs, &kinds).is_none());
}

#[test]
fn solver_gives_up_on_an_anchor_inside_a_ring() {
    let cs = vec![dc(1, 2), dc(2, 3), dc(3, 1)];
    let kinds = vec![(e(1), NodeType::Anchor)];
    assert!(build_chains(&cs, &kinds).is_none());
}

#[test]
fn solver_without_constraints_has_nothing() {
    let (chains, standalone) = build_chains(&vec![], &vec![]).unwrap();
    assert!(chains.is_empty());
    assert!(standalone.is_empty());
}

#[test]
fn skin_chain_stops_before_legs() {
    // 1 (anchor) - 2 - 3, and a leg 4 hanging off 2
    let cs = vec![dc(1, 2), dc(2, 3), dc(2, 4)];
    let kinds = vec![
        (e(1), NodeType::Anchor),
        (e(2), NodeType::Normal),
        (e(3), NodeType::Normal),
        (e(4), NodeType::Leg),
    ];
    let g = graph_of(&cs);
    let chains = build_ordered_chains(&g, &kinds).unwrap();
    assert_eq!(chains, vec![vec![link(1, Some(0)), link(2, Some(1)), link(3, None)]]);
}

#[test]
fn skin_chain_starts_sorted() {
    // two separate lines, loose ends only; starts are taken in identifier order
    let cs = vec![dc(5, 6), dc(1, 2)];
    let kinds = vec![];
    let g = graph_of(&cs);
    let chains = build_ordered_chains(&g, &kinds).unwrap();
    assert_eq!(
        chains,
        vec![vec![link(1, Some(1)), link(2, None)], vec![link(5, Some(0)), link(6, None)]]
    );
}

#[test]
fn skin_has_no_chain_for_a_lone_leg_pair() {
    let cs = vec![dc(1, 2)];
    let kinds = vec![(e(1), NodeType::Leg), (e(2), NodeType::Leg)];
    let g = graph_of(&cs);
    let chains = build_ordered_chains(&g, &kinds).unwrap();
    assert!(chains.is_empty());
}

#[test]
fn solver_covers_a_forest_of_paths() {
    // path 1 - 2 - 3 with the anchor 2 in the middle, and a separate path 4 - 5
    let cs = vec![dc(1, 2), dc(2, 3), dc(4, 5)];
    let kinds = vec![(e(2), NodeType::Anchor)];
    let (chains, standalone) = build_chains(&cs, &kinds).unwrap();
    assert_eq!(
        chains,
        vec![
            vec![link(2, Some(0)), link(1, None)],
            vec![link(2, Some(1)), link(3, None)],
            vec![link(4, Some(2)), link(5, None)],
        ]
    );
    assert!(standalone.is_empty());
}

#[test]
fn skin_covers_a_star_without_anchor() {
    // the skin pass succeeds on a forest where the solver gives up
    let cs = vec![dc(1, 2), dc(2, 3), dc(2, 4)];
    let g = graph_of(&cs);
    let chains = build_ordered_chains(&g, &vec![]).unwrap();
    assert_eq!(chains, vec![vec![link(1, Some(0)), link(2, None)]]);
}
