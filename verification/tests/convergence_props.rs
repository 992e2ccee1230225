//! Replicas that have seen the same agree.

use vectis_crdt::causal_buffer::CausalBuffer;
use vectis_crdt::document::{Document, Operation};
use vectis_crdt::encoding::{decode_snapshot, encode_snapshot};
use vectis_crdt::float::F32;
use vectis_crdt::stroke::{StrokeData, StrokePoint, StrokeProperties, ToolKind};
use vectis_crdt::types::{ActorId, OpId};

fn f(x: f32) -> F32 {
    F32 { bits: x.to_bits() }
}

fn g(x: F32) -> f32 {
    f32::from_bits(x.bits)
}

fn perp_dist(p: StrokePoint, a: StrokePoint, b: StrokePoint) -> F32 {
    let dx = g(b.x) - g(a.x);
    let dy = g(b.y) - g(a.y);
    let len_sq = dx * dx + dy * dy;
    if len_sq < 1e-10 {
        let ex = g(p.x) - g(a.x);
        let ey = g(p.y) - g(a.y);
        return f((ex * ex + ey * ey).sqrt());
    }
    let cross = (dx * (g(a.y) - g(p.y)) - dy * (g(a.x) - g(p.x))).abs();
    f(cross / len_sq.sqrt())
}

fn make_doc(actor: u64) -> Document {
    Document::new(ActorId(actor))
}

fn make_stroke(seed: u64) -> (StrokeData, StrokeProperties) {
    let pts = vec![
        StrokePoint::new(f(seed as f32), f(0.0), f(1.0)),
        StrokePoint::new(f(seed as f32 + 1.0), f(seed as f32 + 1.0), f(0.8)),
    ];
    let data = StrokeData::new(pts, ToolKind::Pen);
    let props = StrokeProperties::new(0xFF0000FF, f(2.0), f(1.0), OpId::zero());
    (data, props)
}

fn drain_ops(doc: &mut Document) -> Vec<Operation> {
    doc.take_pending_ops()
}

fn insert_n(doc: &mut Document, count: usize, seed_offset: u64) -> Vec<Operation> {
    let mut ops = Vec::new();
    for i in 0..count {
        let (data, props) = make_stroke(seed_offset + i as u64);
        doc.insert_stroke(data, props, &perp_dist);
        ops.extend(drain_ops(doc));
    }
    ops
}

#[test]
fn prop_two_actors_converge() {
    for n_a in 1usize..10 {
        for n_b in 1usize..10 {
            let mut doc_a = make_doc(1);
            let mut doc_b = make_doc(2);

            let ops_a = insert_n(&mut doc_a, n_a, 0);
            let ops_b = insert_n(&mut doc_b, n_b, 1000);

            for op in ops_b.clone() {
                doc_a.apply_remote(op);
            }
            for op in ops_a.clone() {
                doc_b.apply_remote(op);
            }

            let ids_a = doc_a.visible_stroke_ids();
            let ids_b = doc_b.visible_stroke_ids();
            assert_eq!(ids_a, ids_b);
        }
    }
}

#[test]
fn prop_idempotent() {
    for n in 1usize..8 {
        let mut src = make_doc(1);
        let ops = insert_n(&mut src, n, 0);

        let mut doc = make_doc(99);
        for op in ops.clone() {
            doc.apply_remote(op.clone());
        }
        let state_once = doc.visible_stroke_ids();

        for op in ops {
            doc.apply_remote(op);
        }
        let state_twice = doc.visible_stroke_ids();

        assert_eq!(state_once, state_twice);
    }
}

#[test]
fn prop_commutative() {
    for n_a in 1usize..8 {
        for n_b in 1usize..8 {
            let mut src_a = make_doc(1);
            let mut src_b = make_doc(2);

            let ops_a = insert_n(&mut src_a, n_a, 0);
            let ops_b = insert_n(&mut src_b, n_b, 1000);

            let order1: Vec<_> = ops_a.iter().chain(ops_b.iter()).cloned().collect();
            let order2: Vec<_> = ops_b.iter().chain(ops_a.iter()).cloned().collect();

            let mut doc1 = make_doc(99);
            let mut doc2 = make_doc(99);
            for op in order1 {
                doc1.apply_remote(op);
            }
            for op in order2 {
                doc2.apply_remote(op);
            }

            assert_eq!(doc1.visible_stroke_ids(), doc2.visible_stroke_ids());
        }
    }
}

#[test]
fn prop_three_actors_converge() {
    for n_a in 1usize..6 {
        for n_b in 1usize..6 {
            for n_c in 1usize..6 {
                let mut src_a = make_doc(1);
                let mut src_b = make_doc(2);
                let mut src_c = make_doc(3);

                let ops_a = insert_n(&mut src_a, n_a, 0);
                let ops_b = insert_n(&mut src_b, n_b, 1000);
                let ops_c = insert_n(&mut src_c, n_c, 2000);

                let all: Vec<_> = ops_a.iter().chain(ops_b.iter()).chain(ops_c.iter()).cloned().collect();

                let mut docs: Vec<Document> = vec![make_doc(10), make_doc(11), make_doc(12)];
                let orders: [Vec<_>; 3] = [
                    all.clone(),
                    ops_b.iter().chain(ops_a.iter()).chain(ops_c.iter()).cloned().collect(),
                    ops_c.iter().chain(ops_b.iter()).chain(ops_a.iter()).cloned().collect(),
                ];

                for (doc, order) in docs.iter_mut().zip(orders.iter()) {
                    for op in order.clone() {
                        doc.apply_remote(op);
                    }
                }

                let ref_state = docs[0].visible_stroke_ids();
                assert_eq!(&ref_state, &docs[1].visible_stroke_ids());
                assert_eq!(&ref_state, &docs[2].visible_stroke_ids());
            }
        }
    }
}

#[test]
fn prop_delete_converges() {
    for n_before in 0usize..4 {
        for n_after in 0usize..4 {
            let mut src = make_doc(1);

            let ops_before = insert_n(&mut src, n_before, 0);

            let (data, props) = make_stroke(999);
            let target_id = src.insert_stroke(data, props, &perp_dist);
            let insert_op = drain_ops(&mut src).remove(0);

            let ops_after = insert_n(&mut src, n_after, 2000);

            src.delete_stroke(target_id);
            let delete_op = drain_ops(&mut src).remove(0);

            let mut doc_a = make_doc(10);
            for op in ops_before.clone() {
                doc_a.apply_remote(op.clone());
            }
            doc_a.apply_remote(insert_op.clone());
            for op in ops_after.clone() {
                doc_a.apply_remote(op.clone());
            }
            doc_a.apply_remote(delete_op.clone());

            let mut doc_b = make_doc(11);
            let mut buf_b = CausalBuffer::new();
            doc_b.apply_remote_buffered(delete_op.clone(), &mut buf_b).unwrap();
            for op in ops_before.clone() {
                doc_b.apply_remote_buffered(op.clone(), &mut buf_b).unwrap();
            }
            doc_b.apply_remote_buffered(insert_op.clone(), &mut buf_b).unwrap();
            for op in ops_after.clone() {
                doc_b.apply_remote_buffered(op.clone(), &mut buf_b).unwrap();
            }

            assert_eq!(doc_a.visible_stroke_ids(), doc_b.visible_stroke_ids());
            assert!(!doc_a.visible_stroke_ids().contains(&target_id));
        }
    }
}

#[test]
fn prop_causal_buffer_converges() {
    for n_a in 2usize..6 {
        for n_b in 1usize..6 {
            let mut src_a = make_doc(1);
            let mut src_b = make_doc(2);

            let ops_a = insert_n(&mut src_a, n_a, 0);
            let ops_b = insert_n(&mut src_b, n_b, 1000);

            let mut doc_ref = make_doc(99);
            for op in ops_a.iter().chain(ops_b.iter()).cloned() {
                doc_ref.apply_remote(op);
            }

            let mut doc_buf = make_doc(99);
            let mut buf = CausalBuffer::new();

            for op in ops_a.iter().rev().cloned() {
                doc_buf.apply_remote_buffered(op, &mut buf).unwrap();
            }
            for op in ops_b.iter().cloned() {
                doc_buf.apply_remote_buffered(op, &mut buf).unwrap();
            }

            assert_eq!(buf.len(), 0);
            assert_eq!(doc_ref.visible_stroke_ids(), doc_buf.visible_stroke_ids());
        }
    }
}

#[test]
fn prop_snapshot_roundtrip() {
    for n in 1usize..8 {
        let mut doc = make_doc(1);
        insert_n(&mut doc, n, 0);
        if n > 1 {
            let ids = doc.visible_stroke_ids();
            doc.delete_stroke(ids[0]);
        }

        let snapshot = encode_snapshot(&doc);
        let restored = decode_snapshot(&snapshot, ActorId(99)).unwrap();

        assert_eq!(doc.visible_stroke_ids(), restored.visible_stroke_ids());
    }
}

#[test]
fn editing_replicas_converge() {
    // Two peers draw, restyle, delete and undo, and exchange what they did in
    // rounds.
    let mut a = make_doc(1);
    let mut b = make_doc(2);
    for round in 0..6u64 {
        insert_n_pending(&mut a, 2, round * 10);
        insert_n_pending(&mut b, 3, round * 10 + 5);
        let shown = b.visible_stroke_ids();
        if round % 2 == 1 {
            b.delete_stroke(shown[(round as usize * 3) % shown.len()]);
            a.undo_last_stroke();
        }
        let shown = a.visible_stroke_ids();
        a.update_color(shown[0], round as u32);
        b.update_color(shown[0], 100 + round as u32);
        let ops_a = drain_ops(&mut a);
        let ops_b = drain_ops(&mut b);
        for op in ops_b {
            a.apply_remote(op);
        }
        for op in ops_a {
            b.apply_remote(op);
        }
        assert_eq!(a.visible_stroke_ids(), b.visible_stroke_ids());
    }
    for id in a.visible_stroke_ids() {
        let (data_a, props_a) = a.get_stroke(&id).unwrap();
        let (data_b, props_b) = b.get_stroke(&id).unwrap();
        assert_eq!(data_a.points, data_b.points);
        assert_eq!(props_a.color, props_b.color);
    }
    let mut c = make_doc(3);
    let copy = decode_snapshot(&encode_snapshot(&a), ActorId(3)).unwrap();
    assert_eq!(copy.visible_stroke_ids(), b.visible_stroke_ids());
    assert!(c.take_pending_ops().is_empty());
}

fn insert_n_pending(doc: &mut Document, count: usize, seed_offset: u64) {
    for i in 0..count {
        let (data, props) = make_stroke(seed_offset + i as u64);
        doc.insert_stroke(data, props, &perp_dist);
    }
}
