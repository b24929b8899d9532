use sway::entity::EntityId;
use sway::graph::{ConstraintGraph, DistanceConstraint};
use sway::limbs::{
    bodies_to_clear, find_first_leg, find_link, limb_segment_links, limb_set_action, plan_limb_sets,
    same_entities, trace_limb_chain, LimbPlan, LimbSetAction, MAX_LIMB_DEPTH,
};
use sway::node::NodeType;

fn ent(generation: u32, index: u32) -> EntityId {
    EntityId::from_bits(((generation as u64) << 32) | ((!index) as u64)).unwrap()
}

fn e(i: u32) -> EntityId {
    ent(i, i)
}

fn dc(a: u32, b: u32) -> DistanceConstraint {
    DistanceConstraint::new(e(a), e(b))
}

fn graph_of(cs: &Vec<DistanceConstraint>) -> ConstraintGraph {
    let mut g = ConstraintGraph::new();
    g.rebuild(cs);
    g
}

#[test]
fn first_leg_skips_where_it_came_from() {
    let kinds = vec![(e(2), NodeType::Leg), (e(3), NodeType::Leg), (e(4), NodeType::Normal)];
    let nb = vec![(e(2), 0), (e(4), 1), (e(3), 2)];
    assert_eq!(find_first_leg(&nb, e(1), &kinds), Some(e(2)));
    assert_eq!(find_first_leg(&nb, e(2), &kinds), Some(e(3)));
    assert_eq!(find_first_leg(&vec![(e(4), 0)], e(1), &kinds), None);
}

#[test]
fn limb_chain_follows_the_legs_out_of_the_body() {
    // body 1, legs 2 - 3 - 5, a normal node 4 beside 3
    let cs = vec![dc(1, 2), dc(2, 3), dc(3, 4), dc(3, 5)];
    let kinds = vec![
        (e(1), NodeType::Normal),
        (e(2), NodeType::Leg),
        (e(3), NodeType::Leg),
        (e(4), NodeType::Normal),
        (e(5), NodeType::Leg),
    ];
    let g = graph_of(&cs);
    assert_eq!(trace_limb_chain(e(2), e(1), &g, &kinds), vec![e(2), e(3), e(5)]);
}

#[test]
fn limb_chain_cuts_a_cycle_of_legs() {
    // legs 2, 3, 4 in a ring hanging off body 1
    let cs = vec![dc(1, 2), dc(2, 3), dc(3, 4), dc(4, 2)];
    let kinds = vec![(e(2), NodeType::Leg), (e(3), NodeType::Leg), (e(4), NodeType::Leg)];
    let g = graph_of(&cs);
    assert_eq!(trace_limb_chain(e(2), e(1), &g, &kinds), vec![e(2), e(3), e(4)]);
}

#[test]
fn limb_chain_is_cut_at_the_depth_limit() {
    // a line of 150 legs off body 0
    let mut cs = Vec::new();
    let mut kinds = Vec::new();
    for i in 0..150u32 {
        cs.push(dc(i, i + 1));
        kinds.push((e(i + 1), NodeType::Leg));
    }
    let g = graph_of(&cs);
    let chain = trace_limb_chain(e(1), e(0), &g, &kinds);
    assert_eq!(chain.len(), MAX_LIMB_DEPTH + 1);
    assert_eq!(chain[0], e(1));
    assert_eq!(chain[100], e(101));
}

#[test]
fn limb_plans_per_body() {
    let cs = vec![dc(1, 2), dc(2, 3), dc(1, 4), dc(1, 5)];
    let nodes = vec![
        (e(1), NodeType::Normal),
        (e(2), NodeType::Leg),
        (e(3), NodeType::Leg),
        (e(4), NodeType::Normal),
        (e(5), NodeType::Leg),
    ];
    let g = graph_of(&cs);
    let plans = plan_limb_sets(&nodes, &g);
    assert_eq!(plans.len(), 1);
    assert_eq!(plans[0].body, e(1));
    assert_eq!(plans[0].chains, vec![vec![e(2), e(3)], vec![e(5)]]);
}

#[test]
fn limb_set_kept_when_joints_unchanged() {
    let existing = vec![vec![e(2), e(3)], vec![e(5)]];
    let found = vec![vec![e(2), e(3)], vec![e(5)]];
    assert!(matches!(limb_set_action(&existing, &found), LimbSetAction::Keep));
}

#[test]
fn limb_set_replaced_keeping_matching_limbs() {
    let existing = vec![vec![e(5)], vec![e(2)]];
    let found = vec![vec![e(2), e(3)], vec![e(5)]];
    match limb_set_action(&existing, &found) {
        LimbSetAction::Replace(v) => assert_eq!(v, vec![None, Some(0)]),
        LimbSetAction::Keep => panic!("limb set should be replaced"),
    }
}

#[test]
fn limb_set_replaced_when_a_limb_is_gone() {
    let existing = vec![vec![e(2)], vec![e(5)]];
    let found = vec![vec![e(2)]];
    match limb_set_action(&existing, &found) {
        LimbSetAction::Replace(v) => assert_eq!(v, vec![Some(0)]),
        LimbSetAction::Keep => panic!("limb set should be replaced"),
    }
}

#[test]
fn bodies_without_limbs_are_cleared() {
    let plans = vec![LimbPlan { body: e(1), chains: vec![vec![e(2)]] }];
    assert_eq!(bodies_to_clear(&vec![e(7), e(1), e(9)], &plans), vec![e(7), e(9)]);
    assert_eq!(bodies_to_clear(&vec![e(1)], &plans), vec![]);
}

#[test]
fn same_entities_compares_in_order() {
    assert!(same_entities(&vec![e(1), e(2)], &vec![e(1), e(2)]));
    assert!(!same_entities(&vec![e(1), e(2)], &vec![e(2), e(1)]));
    assert!(!same_entities(&vec![e(1)], &vec![e(1), e(2)]));
}

#[test]
fn limb_segments_name_their_constraints() {
    let cs = vec![dc(1, 2), dc(3, 2), dc(9, 8)];
    let g = graph_of(&cs);
    assert_eq!(find_link(&g, e(2), e(3)), Some(1));
    assert_eq!(find_link(&g, e(1), e(3)), None);
    assert_eq!(limb_segment_links(e(1), &vec![e(2), e(3), e(8)], &g), vec![Some(0), Some(1), None]);
}
