//! One replica and its exchange with others.

use vectis_crdt::document::{
    Document, MetadataKey, MetadataValue, Operation, PropertyUpdate, MAX_STROKES, MAX_UNDO_DEPTH,
};
use vectis_crdt::float::{F32, F64};
use vectis_crdt::stroke::{StrokeData, StrokePoint, StrokeProperties, ToolKind, Transform2D};
use vectis_crdt::types::{ActorId, LamportTs, OpId};

fn f(x: f32) -> F32 {
    F32 { bits: x.to_bits() }
}

fn g(x: F32) -> f32 {
    f32::from_bits(x.bits)
}

fn perp_dist(p: StrokePoint, a: StrokePoint, b: StrokePoint) -> F32 {
    let dx = g(b.x) - g(a.x);
    let dy = g(b.y) - g(a.y);
    let len_sq = dx * dx + dy * dy;
    if len_sq < 1e-10 {
        let ex = g(p.x) - g(a.x);
        let ey = g(p.y) - g(a.y);
        return f((ex * ex + ey * ey).sqrt());
    }
    let cross = (dx * (g(a.y) - g(p.y)) - dy * (g(a.x) - g(p.x))).abs();
    f(cross / len_sq.sqrt())
}

fn divide(a: usize, b: usize) -> F64 {
    F64 { bits: (a as f64 / b as f64).to_bits() }
}

fn make_doc(actor: u64) -> Document {
    Document::new(ActorId(actor))
}

fn simple_stroke(points: &[(f32, f32)]) -> (StrokeData, StrokeProperties) {
    let pts: Vec<StrokePoint> = points.iter().map(|&(x, y)| StrokePoint::basic(f(x), f(y))).collect();
    let data = StrokeData::new(pts, ToolKind::Pen);
    let props = StrokeProperties::new(0xFF0000FF, f(2.0), f(1.0), OpId::zero());
    (data, props)
}

fn draw(doc: &mut Document, x: f32) -> OpId {
    let (data, props) = simple_stroke(&[(x, 0.0)]);
    doc.insert_stroke(data, props, &perp_dist)
}

fn line() -> StrokeData {
    let pts: Vec<StrokePoint> = (0..100).map(|i| StrokePoint::basic(f(i as f32), f(i as f32))).collect();
    StrokeData::new(pts, ToolKind::Pen)
}

#[test]
fn insert_and_visible() {
    let mut doc = make_doc(1);
    let (data, props) = simple_stroke(&[(0.0, 0.0), (10.0, 10.0)]);
    let id = doc.insert_stroke(data, props, &perp_dist);
    let visible = doc.visible_stroke_ids();
    assert_eq!(visible, vec![id]);
}

#[test]
fn delete_stroke() {
    let mut doc = make_doc(1);
    let (data, props) = simple_stroke(&[(0.0, 0.0)]);
    let id = doc.insert_stroke(data, props, &perp_dist);
    assert!(doc.delete_stroke(id));
    assert!(doc.visible_stroke_ids().is_empty());
}

#[test]
fn remote_insert_merge() {
    let mut doc_a = make_doc(1);
    let mut doc_b = make_doc(2);

    let (data, props) = simple_stroke(&[(0.0, 0.0)]);
    let id_a = doc_a.insert_stroke(data.clone(), props.clone(), &perp_dist);

    let ops = std::mem::take(&mut doc_a.pending_ops);
    for op in ops {
        doc_b.apply_remote(op);
    }

    let visible_b = doc_b.visible_stroke_ids();
    assert_eq!(visible_b, vec![id_a]);
}

#[test]
fn document_concurrent_insert_convergence() {
    let mut doc_a = make_doc(1);
    let mut doc_b = make_doc(2);

    let (data, props) = simple_stroke(&[(1.0, 1.0)]);
    let _id_a = doc_a.insert_stroke(data.clone(), props.clone(), &perp_dist);
    let _id_b = doc_b.insert_stroke(data.clone(), props.clone(), &perp_dist);

    let ops_a = std::mem::take(&mut doc_a.pending_ops);
    let ops_b = std::mem::take(&mut doc_b.pending_ops);

    for op in ops_b.clone() {
        doc_a.apply_remote(op);
    }
    for op in ops_a.clone() {
        doc_b.apply_remote(op);
    }

    let visible_a = doc_a.visible_stroke_ids();
    let visible_b = doc_b.visible_stroke_ids();
    assert_eq!(visible_a, visible_b, "docs must converge");
    assert_eq!(visible_a.len(), 2);
}

#[test]
fn undo_last_stroke_basic() {
    let mut doc = make_doc(1);
    doc.simplify_epsilon = f(0.0);

    let (d1, p1) = simple_stroke(&[(0.0, 0.0)]);
    let (d2, p2) = simple_stroke(&[(1.0, 1.0)]);
    let id1 = doc.insert_stroke(d1, p1, &perp_dist);
    let _id2 = doc.insert_stroke(d2, p2, &perp_dist);
    assert_eq!(doc.visible_stroke_ids().len(), 2);
    assert_eq!(doc.undo_depth(), 2);

    let undone = doc.undo_last_stroke();
    assert!(undone.is_some());
    assert_eq!(doc.visible_stroke_ids(), vec![id1]);
    assert_eq!(doc.undo_depth(), 1);

    let undone2 = doc.undo_last_stroke();
    assert!(undone2.is_some());
    assert!(doc.visible_stroke_ids().is_empty());
    assert_eq!(doc.undo_depth(), 0);

    assert!(doc.undo_last_stroke().is_none());
}

#[test]
fn undo_skips_remotely_deleted_strokes() {
    let mut doc = make_doc(1);
    doc.simplify_epsilon = f(0.0);

    let (d, p) = simple_stroke(&[(0.0, 0.0)]);
    let id = doc.insert_stroke(d, p, &perp_dist);
    assert_eq!(doc.undo_depth(), 1);

    let del_op = Operation::DeleteStroke {
        id: OpId { lamport: LamportTs(99), actor: ActorId(2) },
        target: id,
    };
    doc.apply_remote(del_op);
    assert!(doc.visible_stroke_ids().is_empty());

    let result = doc.undo_last_stroke();
    assert!(result.is_none(), "nothing left to undo");
}

#[test]
fn undo_generates_pending_delete_op() {
    let mut doc = make_doc(1);
    doc.simplify_epsilon = f(0.0);

    let (d, p) = simple_stroke(&[(0.0, 0.0)]);
    doc.insert_stroke(d, p, &perp_dist);
    let _ = std::mem::take(&mut doc.pending_ops); // flush insert

    doc.undo_last_stroke();
    let ops = std::mem::take(&mut doc.pending_ops);
    assert_eq!(ops.len(), 1, "undo should produce a DeleteStroke op");
    assert!(matches!(ops[0], Operation::DeleteStroke { .. }));
}

#[test]
fn auto_simplify_enabled_by_default() {
    let mut doc = make_doc(1);
    let props = StrokeProperties::new(0xFF0000FF, f(2.0), f(1.0), OpId::zero());
    let id = doc.insert_stroke(line(), props, &perp_dist);

    let (stored, _) = doc.get_stroke(&id).unwrap();
    assert!(stored.points.len() < 100, "auto-simplify should reduce points");
    assert_eq!(stored.points.len(), 2, "straight line → 2 points");
}

#[test]
fn auto_simplify_disabled() {
    let mut doc = make_doc(1);
    doc.simplify_epsilon = f(0.0); // disabled

    let n = line().points.len();
    let props = StrokeProperties::new(0xFF0000FF, f(2.0), f(1.0), OpId::zero());
    let id = doc.insert_stroke(line(), props, &perp_dist);

    let (stored, _) = doc.get_stroke(&id).unwrap();
    assert_eq!(stored.points.len(), n, "no simplification when epsilon=0");
    assert_eq!(n, 100);
}

#[test]
fn strokes_stack_upwards() {
    let mut doc = make_doc(1);
    let ids: Vec<OpId> = (0..4).map(|i| draw(&mut doc, i as f32)).collect();
    assert_eq!(doc.visible_stroke_ids(), ids);
    doc.delete_stroke(ids[3]);
    let top = draw(&mut doc, 9.0);
    assert_eq!(doc.visible_stroke_ids(), vec![ids[0], ids[1], ids[2], top]);
}

#[test]
fn properties_change_by_latest_write() {
    let mut doc = make_doc(1);
    let id = draw(&mut doc, 0.0);
    assert!(doc.update_color(id, 1));
    assert!(doc.update_stroke_width(id, f(4.0)));
    assert!(doc.update_opacity(id, f(0.5)));
    let moved = Transform2D { a: f(1.0), b: f(0.0), c: f(0.0), d: f(1.0), tx: f(3.0), ty: f(0.0) };
    assert!(doc.update_transform(id, moved));
    assert!(!doc.update_color(OpId::zero(), 1));
    let late = OpId { lamport: LamportTs(50), actor: ActorId(2) };
    let early = OpId { lamport: LamportTs(1), actor: ActorId(2) };
    doc.apply_remote(Operation::UpdateProperty { id: late, target: id, update: PropertyUpdate::Color(7) });
    doc.apply_remote(Operation::UpdateProperty { id: early, target: id, update: PropertyUpdate::Opacity(f(0.1)) });
    let (_, props) = doc.get_stroke(&id).unwrap();
    assert_eq!(props.color.value, 7);
    assert_eq!(g(props.opacity.value), 0.5);
    assert_eq!(g(props.stroke_width.value), 4.0);
    assert_eq!(props.transform.value, moved);
}

#[test]
fn metadata_travels() {
    let mut a = make_doc(1);
    a.set_metadata(MetadataKey::BackgroundColor, MetadataValue::U32(5));
    a.set_metadata(MetadataKey::Custom("name".to_string()), MetadataValue::String("x".to_string()));
    let mut b = make_doc(2);
    for op in a.take_pending_ops() {
        b.apply_remote(op);
    }
    assert!(matches!(b.metadata.get(&MetadataKey::BackgroundColor), Some(MetadataValue::U32(5))));
    assert!(b.metadata.get(&MetadataKey::Custom("name".to_string())).is_some());
    assert!(b.metadata.get(&MetadataKey::GridEnabled).is_none());
}

#[test]
fn applying_twice_changes_nothing() {
    let mut a = make_doc(1);
    let first = draw(&mut a, 0.0);
    let second = draw(&mut a, 1.0);
    a.delete_stroke(first);
    a.update_color(second, 3);
    let ops = a.take_pending_ops();
    let mut b = make_doc(2);
    for op in ops.iter().chain(ops.iter()).cloned() {
        b.apply_remote(op);
    }
    assert_eq!(b.visible_stroke_ids(), vec![second]);
    assert_eq!(b.stroke_order.total_count, 2);
    assert_eq!(b.stroke_order.tombstone_count, 1);
    assert_eq!(b.get_stroke(&second).unwrap().1.color.value, 3);
}

#[test]
fn affected_strokes_are_named() {
    let mut a = make_doc(1);
    let id = draw(&mut a, 0.0);
    a.set_metadata(MetadataKey::GridEnabled, MetadataValue::Bool(true));
    a.delete_stroke(id);
    let ops = a.take_pending_ops();
    let mut b = make_doc(2);
    let affected: Vec<Option<OpId>> = ops.into_iter().map(|op| b.apply_remote(op)).collect();
    assert_eq!(affected, vec![Some(id), None, Some(id)]);
}

#[test]
fn local_operations_come_after_what_was_seen() {
    let mut doc = make_doc(1);
    let (data, props) = simple_stroke(&[(0.0, 0.0)]);
    let far = OpId { lamport: LamportTs(500), actor: ActorId(9) };
    doc.apply_remote(Operation::InsertStroke {
        id: far,
        origin_left: OpId::zero(),
        origin_right: OpId::zero(),
        data,
        properties: props,
    });
    let id = draw(&mut doc, 0.0);
    assert_eq!(id, OpId { lamport: LamportTs(501), actor: ActorId(1) });
    assert!(id > far);
    assert_eq!(doc.version.get(ActorId(9)), 500);
    assert_eq!(doc.version.get(ActorId(1)), 501);
}

#[test]
fn undo_after_drawing_shows_what_was_there() {
    let mut doc = make_doc(1);
    draw(&mut doc, 0.0);
    draw(&mut doc, 1.0);
    let before = doc.visible_stroke_ids();
    let id = draw(&mut doc, 2.0);
    assert_eq!(doc.undo_last_stroke(), Some(id));
    assert_eq!(doc.visible_stroke_ids(), before);
}

#[test]
fn undo_stack_is_bounded() {
    let mut doc = make_doc(1);
    for i in 0..(MAX_UNDO_DEPTH + 5) {
        draw(&mut doc, i as f32);
    }
    assert_eq!(doc.undo_depth(), MAX_UNDO_DEPTH);
    let mut undone = 0;
    while doc.undo_last_stroke().is_some() {
        undone += 1;
    }
    assert_eq!(undone, MAX_UNDO_DEPTH);
    assert_eq!(doc.visible_stroke_ids().len(), 5);
}

#[test]
fn simplifying_a_stroke_later() {
    let mut doc = make_doc(1);
    doc.simplify_epsilon = f(0.0);
    let props = StrokeProperties::new(1, f(2.0), f(1.0), OpId::zero());
    let id = doc.insert_stroke(line(), props, &perp_dist);
    assert_eq!(doc.simplify_stroke(OpId::zero(), f(0.5), &perp_dist), 0);
    assert_eq!(doc.simplify_stroke(id, f(0.5), &perp_dist), 98);
    assert_eq!(doc.simplify_stroke(id, f(0.5), &perp_dist), 0);
    assert_eq!(doc.get_stroke(&id).unwrap().0.points.len(), 2);
}

#[test]
fn counts() {
    let mut doc = make_doc(1);
    let id = draw(&mut doc, 0.0);
    for i in 0..3 {
        draw(&mut doc, i as f32);
    }
    doc.delete_stroke(id);
    let stats = doc.stats(&divide);
    assert_eq!(stats.total_items, 4);
    assert_eq!(stats.visible_items, 3);
    assert_eq!(stats.tombstones, 1);
    assert_eq!(f64::from_bits(stats.tombstone_ratio.bits), 0.25);
    assert_eq!(stats.gc_generation, 0);
    assert_eq!(stats.pending_ops, 5);
}

#[test]
fn limit_of_strokes() {
    assert_eq!(MAX_STROKES, 100_000);
}

#[test]
fn repeating_an_operation_later_changes_nothing() {
    let mut a = make_doc(1);
    let first = draw(&mut a, 0.0);
    let second = draw(&mut a, 1.0);
    a.update_color(second, 3);
    a.delete_stroke(first);
    a.update_color(second, 4);
    a.set_metadata(MetadataKey::GridEnabled, MetadataValue::Bool(true));
    a.set_metadata(MetadataKey::GridEnabled, MetadataValue::Bool(false));
    let ops = a.take_pending_ops();
    let mut b = make_doc(2);
    for op in &ops {
        b.apply_remote(op.clone());
    }
    let items = b.stroke_order.items.clone();
    for op in &ops {
        b.apply_remote(op.clone());
        assert_eq!(b.stroke_order.items, items);
        assert_eq!(b.get_stroke(&second).unwrap().1.color.value, 4);
        assert!(matches!(b.metadata.get(&MetadataKey::GridEnabled), Some(MetadataValue::Bool(false))));
        assert_eq!(b.clock, a.clock);
    }
}
