//! Collection of tombstones.

use vectis_crdt::document::{Document, Operation};
use vectis_crdt::encoding::{decode_snapshot, encode_snapshot};
use vectis_crdt::float::{F32, F64};
use vectis_crdt::gc::GcConfig;
use vectis_crdt::stroke::{StrokeData, StrokePoint, StrokeProperties, ToolKind};
use vectis_crdt::types::{ActorId, LamportTs, OpId, VectorClock};

fn f(x: f32) -> F32 {
    F32 { bits: x.to_bits() }
}

fn g(x: F32) -> f32 {
    f32::from_bits(x.bits)
}

fn perp_dist(p: StrokePoint, a: StrokePoint, b: StrokePoint) -> F32 {
    let dx = g(b.x) - g(a.x);
    let dy = g(b.y) - g(a.y);
    let len_sq = dx * dx + dy * dy;
    if len_sq < 1e-10 {
        let ex = g(p.x) - g(a.x);
        let ey = g(p.y) - g(a.y);
        return f((ex * ex + ey * ey).sqrt());
    }
    let cross = (dx * (g(a.y) - g(p.y)) - dy * (g(a.x) - g(p.x))).abs();
    f(cross / len_sq.sqrt())
}

fn divide(a: usize, b: usize) -> F64 {
    F64 { bits: (a as f64 / b as f64).to_bits() }
}

fn simple_doc() -> Document {
    let mut doc = Document::new(ActorId(1));
    doc.simplify_epsilon = f(0.0);
    doc
}

fn simple_stroke() -> (StrokeData, StrokeProperties) {
    let data = StrokeData::new(vec![StrokePoint::basic(f(0.0), f(0.0))], ToolKind::Pen);
    let props = StrokeProperties::new(0xFF0000FF, f(2.0), f(1.0), OpId::zero());
    (data, props)
}

fn draw(doc: &mut Document) -> OpId {
    let (data, props) = simple_stroke();
    doc.insert_stroke(data, props, &perp_dist)
}

fn all_stable_mvv() -> VectorClock {
    let mut mvv = VectorClock::new();
    mvv.advance(ActorId(1), 1_000_000); // ahead of everything
    mvv
}

fn aggressive_gc() -> GcConfig {
    GcConfig {
        tombstone_ratio_threshold: F64 { bits: 0.0f64.to_bits() },
        tombstone_count_threshold: 0,
        max_gc_per_cycle: 100_000,
    }
}

#[test]
fn gc_removes_stable_tombstones() {
    let mut doc = simple_doc();
    let id = draw(&mut doc);

    doc.delete_stroke(id);
    assert_eq!(doc.stroke_order.tombstone_count, 1);

    doc.min_version = all_stable_mvv();
    let result = doc.run_gc(&aggressive_gc());

    assert_eq!(result.tombstones_removed, 1);
    assert_eq!(doc.stroke_order.tombstone_count, 0);
    assert_eq!(doc.stroke_order.total_count, 0);
}

#[test]
fn gc_does_not_remove_unstable_tombstones() {
    let mut doc = simple_doc();
    let id = draw(&mut doc);
    doc.delete_stroke(id);

    doc.min_version = VectorClock::new(); // all zeros — nothing stable

    let result = doc.run_gc(&aggressive_gc());

    assert_eq!(result.tombstones_removed, 0);
    assert_eq!(doc.stroke_order.tombstone_count, 1);
}

#[test]
fn gc_reparents_surviving_origin_references() {
    let mut doc = simple_doc();
    let id_a = draw(&mut doc);
    let id_b = draw(&mut doc);
    let id_c = draw(&mut doc);

    doc.delete_stroke(id_b);
    assert_eq!(doc.visible_stroke_ids(), vec![id_a, id_c]);

    doc.min_version = all_stable_mvv();
    let result = doc.run_gc(&aggressive_gc());
    assert_eq!(result.tombstones_removed, 1);

    assert_eq!(doc.visible_stroke_ids(), vec![id_a, id_c]);

    let snapshot = encode_snapshot(&doc);
    let doc2 = decode_snapshot(&snapshot, ActorId(99)).expect("snapshot decode failed");

    let visible2 = doc2.visible_stroke_ids();
    assert_eq!(visible2.len(), 2);
    assert_eq!(visible2[0], id_a, "A must remain before C");
    assert_eq!(visible2[1], id_c, "C must follow A after reconstruction");
}

#[test]
fn gc_reparent_chain_multiple_hops() {
    let mut doc = simple_doc();
    let id_a = draw(&mut doc);
    let id_b = draw(&mut doc);
    let id_c = draw(&mut doc);
    let id_d = draw(&mut doc);

    doc.delete_stroke(id_b);
    doc.delete_stroke(id_c);

    assert_eq!(doc.visible_stroke_ids(), vec![id_a, id_d]);

    doc.min_version = all_stable_mvv();
    let result = doc.run_gc(&aggressive_gc());
    assert_eq!(result.tombstones_removed, 2);
    assert_eq!(doc.visible_stroke_ids(), vec![id_a, id_d]);

    let snapshot = encode_snapshot(&doc);
    let doc2 = decode_snapshot(&snapshot, ActorId(99)).unwrap();
    let visible2 = doc2.visible_stroke_ids();
    assert_eq!(visible2, vec![id_a, id_d]);
}

#[test]
fn collected_strokes_are_gone_and_others_stay() {
    let mut doc = simple_doc();
    let keep = draw(&mut doc);
    let gone = draw(&mut doc);
    let last = draw(&mut doc);
    doc.delete_stroke(gone);
    let before = doc.visible_stroke_ids();
    doc.min_version = all_stable_mvv();
    let result = doc.run_gc(&aggressive_gc());
    assert_eq!(doc.visible_stroke_ids(), before);
    assert!(doc.get_stroke(&gone).is_none());
    assert!(doc.get_stroke(&keep).is_some());
    assert!(doc.stroke_order.contains(last));
    assert!(doc.stroke_order.items.iter().all(|item| item.origin_left != gone));
    assert_eq!(result.generation, 1);
    assert!(!result.partial);
    assert_eq!(result.bytes_freed_estimate, 88 + 80 + 12 + 128);
}

#[test]
fn a_cycle_is_bounded() {
    let mut doc = simple_doc();
    let ids: Vec<OpId> = (0..5).map(|_| draw(&mut doc)).collect();
    for id in &ids {
        doc.delete_stroke(*id);
    }
    doc.min_version = all_stable_mvv();
    let config = GcConfig { max_gc_per_cycle: 2, ..aggressive_gc() };
    let first = doc.run_gc(&config);
    assert_eq!((first.tombstones_removed, first.partial), (2, true));
    let second = doc.run_gc(&config);
    assert_eq!((second.tombstones_removed, second.partial), (2, true));
    let third = doc.run_gc(&config);
    assert_eq!((third.tombstones_removed, third.partial), (1, false));
    assert_eq!(third.generation, 3);
    assert_eq!(doc.stroke_order.total_count, 0);
}

#[test]
fn collection_is_due_above_the_share_or_from_the_number() {
    let mut doc = simple_doc();
    let ids: Vec<OpId> = (0..10).map(|_| draw(&mut doc)).collect();
    let config = GcConfig::default();
    assert_eq!(f64::from_bits(config.tombstone_ratio_threshold.bits), 0.30);
    assert_eq!(config.tombstone_count_threshold, 10_000);
    assert_eq!(config.max_gc_per_cycle, 5_000);
    for id in &ids[..3] {
        doc.delete_stroke(*id);
    }
    assert!(!doc.should_gc(&config, &divide));
    assert!(doc.should_gc(&GcConfig { tombstone_count_threshold: 3, ..config }, &divide));
    doc.delete_stroke(ids[3]);
    assert!(doc.should_gc(&config, &divide));
}

#[test]
fn confirming_collects_only_when_due() {
    let mut doc = simple_doc();
    let a = draw(&mut doc);
    draw(&mut doc);
    let config = GcConfig::default();
    assert_eq!(doc.update_min_version(all_stable_mvv(), &config, &divide), None);
    doc.delete_stroke(a);
    let result = doc.update_min_version(all_stable_mvv(), &config, &divide).unwrap();
    assert_eq!(result.tombstones_removed, 1);
    assert_eq!(doc.min_version.get(ActorId(1)), 1_000_000);
    assert_eq!(doc.gc_generation, 1);
}

#[test]
fn one_peer_that_lags_keeps_a_tombstone() {
    let mut doc = simple_doc();
    let id = draw(&mut doc);
    doc.delete_stroke(id);
    let deleted_at = doc.clock.0;
    let mut mvv = VectorClock::new();
    mvv.advance(ActorId(1), deleted_at - 1);
    doc.min_version = mvv;
    assert_eq!(doc.run_gc(&aggressive_gc()).tombstones_removed, 0);
    doc.min_version.advance(ActorId(1), deleted_at);
    assert_eq!(doc.run_gc(&aggressive_gc()).tombstones_removed, 1);
}

#[test]
fn replicas_collect_alike() {
    let mut a = simple_doc();
    let ids: Vec<OpId> = (0..6).map(|_| draw(&mut a)).collect();
    for i in [1, 2, 4] {
        a.delete_stroke(ids[i]);
    }
    let ops = a.take_pending_ops();
    let mut b = Document::new(ActorId(2));
    for op in ops {
        b.apply_remote(op);
    }
    a.min_version = all_stable_mvv();
    b.min_version = all_stable_mvv();
    a.run_gc(&aggressive_gc());
    b.run_gc(&aggressive_gc());
    assert_eq!(a.stroke_order.items, b.stroke_order.items);
    assert_eq!(a.visible_stroke_ids(), vec![ids[0], ids[3], ids[5]]);
}

#[test]
fn a_branching_order_is_kept_by_a_snapshot_after_collection() {
    let id = |lamport: u64| OpId { lamport: LamportTs(lamport), actor: ActorId(1) };
    let insert = |lamport: u64, origin_left: OpId| {
        let (data, properties) = simple_stroke();
        Operation::InsertStroke { id: id(lamport), origin_left, origin_right: OpId::zero(), data, properties }
    };
    let mut doc = Document::new(ActorId(9));
    for op in [insert(1, OpId::zero()), insert(11, id(1)), insert(10, id(1)), insert(12, id(10))] {
        doc.apply_remote(op);
    }
    doc.apply_remote(Operation::DeleteStroke { id: id(13), target: id(10) });
    let before = doc.visible_stroke_ids();
    assert_eq!(before, vec![id(1), id(11), id(12)]);
    let copy = decode_snapshot(&encode_snapshot(&doc), ActorId(8)).unwrap();
    assert_eq!(copy.stroke_order.items, doc.stroke_order.items);
    doc.min_version = all_stable_mvv();
    assert_eq!(doc.run_gc(&aggressive_gc()).tombstones_removed, 1);
    assert_eq!(doc.visible_stroke_ids(), before);
    let copy = decode_snapshot(&encode_snapshot(&doc), ActorId(8)).unwrap();
    assert_eq!(copy.visible_stroke_ids(), before);
    assert_eq!(copy.stroke_order.items, doc.stroke_order.items);
}

#[test]
fn a_drawn_order_is_kept_by_a_snapshot_after_collection() {
    let mut d1 = simple_doc();
    let mut d2 = Document::new(ActorId(2));
    let a = draw(&mut d1);
    for op in d1.take_pending_ops() {
        d2.apply_remote(op);
    }
    let e = draw(&mut d2);
    let b = draw(&mut d1);
    let c = draw(&mut d1);
    for op in d2.take_pending_ops() {
        d1.apply_remote(op);
    }
    assert!(d1.delete_stroke(b));
    let mut confirmed = VectorClock::new();
    confirmed.advance(ActorId(1), 4);
    confirmed.advance(ActorId(2), 2);
    let result = d1.update_min_version(confirmed, &aggressive_gc(), &divide);
    assert_eq!(result.unwrap().tombstones_removed, 1);
    assert!(!d1.stroke_order.contains(b));
    assert_eq!(d1.visible_stroke_ids(), vec![a, e, c]);
    let mut copy = decode_snapshot(&encode_snapshot(&d1), ActorId(3)).unwrap();
    assert_eq!(copy.visible_stroke_ids(), vec![a, e, c]);
    let later = draw(&mut d2);
    for op in d2.take_pending_ops() {
        d1.apply_remote(op.clone());
        copy.apply_remote(op);
    }
    assert!(copy.visible_stroke_ids().contains(&later));
    assert_eq!(copy.stroke_order.items, d1.stroke_order.items);
    assert_eq!(copy.clock, d1.clock);
}

#[test]
fn a_cycle_is_partial_only_where_something_stable_is_left() {
    let bounded = GcConfig { max_gc_per_cycle: 1, ..aggressive_gc() };
    let mut confirmed = VectorClock::new();
    confirmed.advance(ActorId(1), 3);

    let mut doc = simple_doc();
    let first = draw(&mut doc);
    draw(&mut doc);
    doc.delete_stroke(first);
    doc.min_version = confirmed.clone();
    let result = doc.run_gc(&bounded);
    assert_eq!(result.tombstones_removed, 1);
    assert!(!result.partial);

    let mut doc = simple_doc();
    let ids: Vec<OpId> = (0..3).map(|_| draw(&mut doc)).collect();
    doc.delete_stroke(ids[0]);
    doc.delete_stroke(ids[2]);
    doc.min_version = all_stable_mvv();
    assert!(doc.run_gc(&bounded).partial);
    assert!(!doc.run_gc(&bounded).partial);
    assert_eq!(doc.visible_stroke_ids(), vec![ids[1]]);
}

#[test]
fn concurrent_deletions_are_collected_alike() {
    let id = |lamport: u64, actor: u64| OpId { lamport: LamportTs(lamport), actor: ActorId(actor) };
    let insert = |at: OpId, origin_left: OpId| {
        let (data, properties) = simple_stroke();
        Operation::InsertStroke { id: at, origin_left, origin_right: OpId::zero(), data, properties }
    };
    let x = id(1, 1);
    let y = id(2, 1);
    let early = Operation::DeleteStroke { id: id(3, 1), target: x };
    let late = Operation::DeleteStroke { id: id(5, 2), target: x };
    let mut p = Document::new(ActorId(7));
    let mut q = Document::new(ActorId(8));
    for op in [insert(x, OpId::zero()), insert(y, x), early.clone(), late.clone()] {
        p.apply_remote(op);
    }
    for op in [insert(x, OpId::zero()), insert(y, x), late, early] {
        q.apply_remote(op);
    }
    assert_eq!(p.stroke_order.items, q.stroke_order.items);
    let mut confirmed = VectorClock::new();
    confirmed.advance(ActorId(1), 3);
    confirmed.advance(ActorId(2), 4);
    p.min_version = confirmed.clone();
    q.min_version = confirmed;
    assert_eq!(p.run_gc(&aggressive_gc()).tombstones_removed, q.run_gc(&aggressive_gc()).tombstones_removed);
    assert_eq!(p.stroke_order.items, q.stroke_order.items);
    assert_eq!(p.visible_stroke_ids(), vec![y]);
    assert_eq!(p.stroke_order.items[0].origin_left, OpId::zero());
}
