//! The z-order.

use vectis_crdt::rga::{ItemState, RgaArray, RgaItem};
use vectis_crdt::types::{ActorId, LamportTs, OpId};

fn make_item(lamport: u64, actor: u64, ol: OpId, or_: OpId) -> RgaItem {
    let id = OpId { lamport: LamportTs(lamport), actor: ActorId(actor) };
    RgaItem { id, origin_left: ol, origin_right: or_, content: id, state: ItemState::Active }
}

fn visible(arr: &RgaArray) -> Vec<OpId> {
    arr.visible_items().iter().map(|i| i.id).collect()
}

#[test]
fn basic_insert_order() {
    let mut arr = RgaArray::new();
    let a = make_item(1, 1, OpId::zero(), OpId::zero());
    let b = make_item(2, 1, a.id, OpId::zero());
    arr.integrate(a.clone());
    arr.integrate(b.clone());
    assert_eq!(visible(&arr), vec![a.id, b.id]);
}

#[test]
fn rga_concurrent_insert_convergence() {
    let mut arr_alpha = RgaArray::new();
    let mut arr_beta = RgaArray::new();

    let a = make_item(1, 1, OpId::zero(), OpId::zero());
    arr_alpha.integrate(a.clone());
    arr_beta.integrate(a.clone());

    let stroke_alpha = make_item(2, 1, a.id, OpId::zero());
    let stroke_beta = make_item(2, 2, a.id, OpId::zero());

    arr_alpha.integrate(stroke_alpha.clone());
    arr_alpha.integrate(stroke_beta.clone());

    arr_beta.integrate(stroke_beta.clone());
    arr_beta.integrate(stroke_alpha.clone());

    let ids_alpha = visible(&arr_alpha);
    let ids_beta = visible(&arr_beta);
    assert_eq!(ids_alpha, ids_beta);
    assert_eq!(ids_alpha[0], a.id);
    assert_eq!(ids_alpha[1], stroke_beta.id); // actor=2 > actor=1 → left
    assert_eq!(ids_alpha[2], stroke_alpha.id);
}

#[test]
fn tombstone_mark() {
    let mut arr = RgaArray::new();
    let a = make_item(1, 1, OpId::zero(), OpId::zero());
    arr.integrate(a.clone());
    assert_eq!(arr.tombstone_count, 0);
    let del_id = OpId { lamport: LamportTs(2), actor: ActorId(1) };
    assert!(arr.mark_deleted(a.id, del_id));
    assert_eq!(arr.tombstone_count, 1);
    assert_eq!(arr.visible_items().len(), 0);
}

#[test]
fn idempotent_integrate() {
    let mut arr = RgaArray::new();
    let a = make_item(1, 1, OpId::zero(), OpId::zero());
    arr.integrate(a.clone());
    arr.integrate(a.clone()); // duplicate — should be ignored
    assert_eq!(arr.total_count, 1);
}

#[test]
fn deleting_twice_or_the_unknown_changes_nothing() {
    let mut arr = RgaArray::new();
    let a = make_item(1, 1, OpId::zero(), OpId::zero());
    arr.integrate(a);
    let first = OpId { lamport: LamportTs(2), actor: ActorId(1) };
    let second = OpId { lamport: LamportTs(3), actor: ActorId(1) };
    assert!(!arr.mark_deleted(second, first));
    assert!(arr.mark_deleted(a.id, first));
    assert!(!arr.mark_deleted(a.id, second));
    assert_eq!(arr.tombstone_count, 1);
    assert_eq!(arr.items[0].state, ItemState::Tombstone { deleted_at: first });
    assert!(arr.items[0].is_tombstone());
    assert!(!arr.items[0].is_visible());
}

#[test]
fn every_causal_order_gives_the_same_array() {
    let a = make_item(1, 1, OpId::zero(), OpId::zero());
    let b = make_item(2, 1, a.id, OpId::zero());
    let c = make_item(2, 2, a.id, OpId::zero());
    let d = make_item(3, 2, c.id, OpId::zero());
    let e = make_item(1, 3, OpId::zero(), OpId::zero());
    let orders: [[RgaItem; 5]; 4] = [[a, b, c, d, e], [e, a, c, d, b], [a, c, b, e, d], [a, e, c, b, d]];
    let mut reference = RgaArray::new();
    for item in orders[0] {
        reference.integrate(item);
    }
    // Of two siblings the one with the greater identifier stands first, with
    // all that was put after it.
    assert_eq!(visible(&reference), vec![e.id, a.id, c.id, d.id, b.id]);
    for order in orders {
        let mut arr = RgaArray::new();
        for item in order {
            arr.integrate(item);
            arr.integrate(item);
        }
        assert_eq!(visible(&arr), visible(&reference));
    }
}

#[test]
fn right_origin_bounds_the_place() {
    let mut arr = RgaArray::new();
    let a = make_item(1, 1, OpId::zero(), OpId::zero());
    let b = make_item(2, 1, a.id, OpId::zero());
    arr.integrate(a);
    arr.integrate(b);
    let between = make_item(1, 2, a.id, b.id);
    arr.integrate(between);
    assert_eq!(visible(&arr), vec![a.id, between.id, b.id]);
}

#[test]
fn unknown_left_origin_goes_to_the_end() {
    let mut arr = RgaArray::new();
    let a = make_item(1, 1, OpId::zero(), OpId::zero());
    arr.integrate(a);
    let lost = make_item(2, 1, OpId { lamport: LamportTs(9), actor: ActorId(9) }, OpId::zero());
    arr.integrate(lost);
    assert_eq!(visible(&arr), vec![a.id, lost.id]);
}

#[test]
fn tombstone_share() {
    let divide = |a: usize, b: usize| vectis_crdt::float::F64 { bits: (a as f64 / b as f64).to_bits() };
    let mut arr = RgaArray::new();
    assert_eq!(f64::from_bits(arr.tombstone_ratio(&divide).bits), 0.0);
    for n in 1..=4u64 {
        arr.integrate(make_item(n, 1, OpId::zero(), OpId::zero()));
    }
    arr.mark_deleted(OpId { lamport: LamportTs(2), actor: ActorId(1) }, OpId {
        lamport: LamportTs(5),
        actor: ActorId(1),
    });
    assert_eq!(f64::from_bits(arr.tombstone_ratio(&divide).bits), 0.25);
}
