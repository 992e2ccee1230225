//! Operations that arrive before what they build on.

use vectis_crdt::causal_buffer::CausalBuffer;
use vectis_crdt::document::{Document, MetadataKey, MetadataValue, Operation, PropertyUpdate};
use vectis_crdt::error::VectisError;
use vectis_crdt::float::F32;
use vectis_crdt::stroke::{StrokeData, StrokePoint, StrokeProperties, ToolKind};
use vectis_crdt::types::{ActorId, LamportTs, OpId};

fn f(x: f32) -> F32 {
    F32 { bits: x.to_bits() }
}

fn g(x: F32) -> f32 {
    f32::from_bits(x.bits)
}

fn perp_dist(p: StrokePoint, a: StrokePoint, b: StrokePoint) -> F32 {
    let dx = g(b.x) - g(a.x);
    let dy = g(b.y) - g(a.y);
    let len_sq = dx * dx + dy * dy;
    if len_sq < 1e-10 {
        let ex = g(p.x) - g(a.x);
        let ey = g(p.y) - g(a.y);
        return f((ex * ex + ey * ey).sqrt());
    }
    let cross = (dx * (g(a.y) - g(p.y)) - dy * (g(a.x) - g(p.x))).abs();
    f(cross / len_sq.sqrt())
}

fn make_doc(actor: u64) -> Document {
    Document::new(ActorId(actor))
}

fn simple_stroke() -> (StrokeData, StrokeProperties) {
    let data = StrokeData::new(vec![StrokePoint::basic(f(1.0), f(1.0))], ToolKind::Pen);
    let props = StrokeProperties::new(0xFF000000, f(2.0), f(1.0), OpId::zero());
    (data, props)
}

#[test]
fn buffered_delete_waits_for_insert() {
    let mut doc_src = make_doc(1);
    let (data, props) = simple_stroke();
    let stroke_id = doc_src.insert_stroke(data, props, &perp_dist);
    let mut ops: Vec<Operation> = std::mem::take(&mut doc_src.pending_ops);

    doc_src.delete_stroke(stroke_id);
    let del_op = doc_src.pending_ops.remove(0); // DeleteStroke

    let mut doc = make_doc(99);
    let mut buf = CausalBuffer::new();

    let changed = doc.apply_remote_buffered(del_op, &mut buf).unwrap();
    assert!(changed.is_empty(), "delete can't apply without its insert");
    assert_eq!(buf.len(), 1, "delete must be buffered");

    let insert_op = ops.remove(0);
    let _changed = doc.apply_remote_buffered(insert_op, &mut buf).unwrap();
    assert_eq!(buf.len(), 0, "buffer must be empty after insert");
    assert!(doc.visible_stroke_ids().is_empty(), "stroke deleted");
}

#[test]
fn buffered_insert_waits_for_origin() {
    let mut src = make_doc(1);
    let (data_a, props_a) = simple_stroke();
    let id_a = src.insert_stroke(data_a, props_a, &perp_dist);
    let op_a = src.pending_ops.remove(0);

    let (data_b, props_b) = simple_stroke();
    src.insert_stroke(data_b, props_b, &perp_dist);
    let op_b = src.pending_ops.remove(0); // origin_left = id_a

    let mut doc = make_doc(99);
    let mut buf = CausalBuffer::new();

    let changed = doc.apply_remote_buffered(op_b, &mut buf).unwrap();
    assert!(changed.is_empty());
    assert_eq!(buf.len(), 1);

    let _changed = doc.apply_remote_buffered(op_a, &mut buf).unwrap();
    assert_eq!(buf.len(), 0);
    assert_eq!(doc.visible_stroke_ids().len(), 2);
    let ids = doc.visible_stroke_ids();
    assert_eq!(ids[0], id_a);
}

#[test]
fn buffer_overflow_returns_error() {
    let mut buf = CausalBuffer::with_capacity(2);
    let mut src = make_doc(1);

    for _ in 0..3 {
        let (data, props) = simple_stroke();
        src.insert_stroke(data, props, &perp_dist);
        let op = src.pending_ops.remove(0);
        let _ = buf.push(op);
    }

    let mut src2 = make_doc(2);
    let (data, props) = simple_stroke();
    src2.insert_stroke(data, props, &perp_dist);
    let op = src2.pending_ops.remove(0);
    let result = buf.push(op);
    assert!(result.is_err());
}

fn chain(n: usize) -> (Vec<Operation>, Vec<OpId>) {
    let mut src = make_doc(1);
    for _ in 0..n {
        let (data, props) = simple_stroke();
        src.insert_stroke(data, props, &perp_dist);
    }
    let ids = src.visible_stroke_ids();
    (src.take_pending_ops(), ids)
}

#[test]
fn a_whole_chain_is_released_at_once() {
    let (ops, ids) = chain(5);
    let mut doc = make_doc(9);
    let mut buf = CausalBuffer::new();
    for op in ops[1..].iter().rev().cloned() {
        assert!(doc.apply_remote_buffered(op, &mut buf).unwrap().is_empty());
    }
    assert_eq!(buf.len(), 4);
    assert_eq!(buf.pending_ids(), vec![ids[4], ids[3], ids[2], ids[1]]);
    let changed = doc.apply_remote_buffered(ops[0].clone(), &mut buf).unwrap();
    assert_eq!(changed, ids);
    assert!(buf.is_empty());
    assert_eq!(doc.visible_stroke_ids(), ids);
}

#[test]
fn overflow_names_the_capacity() {
    let (ops, _) = chain(3);
    let mut doc = make_doc(9);
    let mut buf = CausalBuffer::with_capacity(1);
    assert!(doc.apply_remote_buffered(ops[2].clone(), &mut buf).is_ok());
    match doc.apply_remote_buffered(ops[1].clone(), &mut buf) {
        Err(VectisError::CausalBufferOverflow { capacity }) => assert_eq!(capacity, 1),
        other => panic!("unexpected {:?}", other),
    }
    assert_eq!(buf.len(), 1);
    assert!(doc.visible_stroke_ids().is_empty());
}

#[test]
fn metadata_never_waits_and_styles_do() {
    let mut doc = make_doc(9);
    let mut buf = CausalBuffer::new();
    let id = OpId { lamport: LamportTs(4), actor: ActorId(1) };
    let target = OpId { lamport: LamportTs(1), actor: ActorId(1) };
    let described = Operation::UpdateMetadata {
        id,
        key: MetadataKey::GridEnabled,
        value: Some(MetadataValue::Bool(true)),
    };
    doc.apply_remote_buffered(described, &mut buf).unwrap();
    assert!(buf.is_empty());
    let styled = Operation::UpdateProperty { id, target, update: PropertyUpdate::Color(1) };
    doc.apply_remote_buffered(styled, &mut buf).unwrap();
    assert_eq!(buf.len(), 1);
    assert_eq!(buf.drain_ready(&doc).len(), 0);
    assert_eq!(buf.len(), 1);
}

#[test]
fn nothing_is_lost_in_the_buffer() {
    let (ops, ids) = chain(6);
    for skip in 0..6 {
        let mut doc = make_doc(9);
        let mut buf = CausalBuffer::new();
        for (i, op) in ops.iter().enumerate().rev() {
            if i != skip {
                doc.apply_remote_buffered(op.clone(), &mut buf).unwrap();
            }
        }
        assert_eq!(doc.visible_stroke_ids().len(), skip);
        assert_eq!(buf.len(), 5 - skip);
        doc.apply_remote_buffered(ops[skip].clone(), &mut buf).unwrap();
        assert_eq!(doc.visible_stroke_ids(), ids);
    }
}

#[test]
fn absorbing_stops_at_the_first_that_finds_no_room() {
    let (ops, ids) = chain(4);
    let list = vec![ops[0].clone(), ops[2].clone(), ops[3].clone(), ops[1].clone()];
    let mut doc = make_doc(9);
    let mut buf = CausalBuffer::with_capacity(1);
    assert!(doc.absorb(&list, &mut buf).is_err());
    assert_eq!(doc.visible_stroke_ids(), vec![ids[0]]);
    assert_eq!(buf.pending_ids(), vec![ids[2]]);
    let mut other = make_doc(8);
    let mut wide = CausalBuffer::new();
    assert!(other.absorb(&list, &mut wide).is_ok());
    assert_eq!(other.visible_stroke_ids(), ids);
}

#[test]
fn taking_in_drops_what_finds_no_room() {
    let (ops, ids) = chain(4);
    let list = vec![ops[2].clone(), ops[0].clone(), ops[1].clone()];
    let mut doc = make_doc(9);
    let mut none = CausalBuffer::with_capacity(0);
    assert!(doc.take_in(&list, &mut none).is_empty());
    let mut buf = CausalBuffer::new();
    assert_eq!(doc.take_in(&list, &mut buf), vec![ids[0], ids[1], ids[2]]);
    assert_eq!(doc.visible_stroke_ids(), ids[..3].to_vec());
}

#[test]
fn the_buffer_empties_once_everything_has_come() {
    let mut src = make_doc(1);
    let mut ids = Vec::new();
    for _ in 0..3 {
        let (data, props) = simple_stroke();
        ids.push(src.insert_stroke(data, props, &perp_dist));
    }
    src.update_color(ids[1], 7);
    src.delete_stroke(ids[0]);
    let ops = src.take_pending_ops();
    for shift in 0..ops.len() {
        let mut doc = make_doc(9);
        let mut buf = CausalBuffer::new();
        for i in 0..ops.len() {
            doc.apply_remote_buffered(ops[(2 * i + shift) % ops.len()].clone(), &mut buf).unwrap();
        }
        assert!(buf.is_empty());
        assert_eq!(doc.stroke_order.items, src.stroke_order.items);
        assert_eq!(doc.get_stroke(&ids[1]).unwrap().1.color.value, 7);
    }
}
