use sway::entity::EntityId;
use sway::order::{ent_less, sort_entities};
use sway::steering::{connected_entities, is_in_corner, should_skip_node};

fn ent(generation: u32, index: u32) -> EntityId {
    EntityId::from_bits(((generation as u64) << 32) | ((!index) as u64)).unwrap()
}

fn e(i: u32) -> EntityId {
    ent(i, i)
}

#[test]
fn connected_entities_in_pair_order() {
    let pairs = vec![(e(1), e(2)), (e(3), e(1)), (e(4), e(5)), (e(1), e(6))];
    assert_eq!(connected_entities(e(1), &pairs), vec![e(2), e(3), e(6)]);
    assert!(connected_entities(e(9), &pairs).is_empty());
}

#[test]
fn lookahead_skips_itself_and_its_partners() {
    let connected = vec![e(2), e(3)];
    assert!(should_skip_node(e(1), e(1), &connected));
    assert!(should_skip_node(e(3), e(1), &connected));
    assert!(!should_skip_node(e(4), e(1), &connected));
}

#[test]
fn corner_needs_both_axes() {
    assert!(is_in_corner(true, false, false, true));
    assert!(is_in_corner(false, true, true, false));
    assert!(!is_in_corner(true, false, false, false));
    assert!(!is_in_corner(false, false, true, true));
}

#[test]
fn entities_sorted_by_identifier() {
    let v = vec![ent(9, 0), ent(2, 5), ent(4, 1)];
    assert_eq!(
        sort_entities(&v),
        vec![ent(2, 5), ent(4, 1), ent(9, 0)]
    );
    assert!(ent_less(ent(2, 5), ent(4, 1)));
    assert!(!ent_less(ent(4, 1), ent(2, 5)));
}
