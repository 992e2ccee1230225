//! The wire format.

use vectis_crdt::document::{
    Document, MetadataKey, MetadataValue, Operation, PropertyUpdate, MAX_ACTORS, MAX_POINTS_PER_STROKE, MAX_STROKES,
};
use vectis_crdt::encoding::{
    decode_op_id, decode_snapshot, decode_update, decode_varint, decode_vector_clock, encode_op_id, encode_snapshot,
    encode_state_vector, encode_stroke_ids, encode_update, encode_varint,
};
use vectis_crdt::error::VectisError;
use vectis_crdt::float::{F32, F64};
use vectis_crdt::stroke::{StrokeData, StrokePoint, StrokeProperties, ToolKind, Transform2D};
use vectis_crdt::types::{ActorId, LamportTs, OpId, VectorClock};

fn f(x: f32) -> F32 {
    F32 { bits: x.to_bits() }
}

fn g(x: F32) -> f32 {
    f32::from_bits(x.bits)
}

fn perp_dist(p: StrokePoint, a: StrokePoint, b: StrokePoint) -> F32 {
    let dx = g(b.x) - g(a.x);
    let dy = g(b.y) - g(a.y);
    let len_sq = dx * dx + dy * dy;
    if len_sq < 1e-10 {
        let ex = g(p.x) - g(a.x);
        let ey = g(p.y) - g(a.y);
        return f((ex * ex + ey * ey).sqrt());
    }
    let cross = (dx * (g(a.y) - g(p.y)) - dy * (g(a.x) - g(p.x))).abs();
    f(cross / len_sq.sqrt())
}

fn id(lamport: u64, actor: u64) -> OpId {
    OpId { lamport: LamportTs(lamport), actor: ActorId(actor) }
}

#[test]
fn varint_roundtrip() {
    for &v in &[0u64, 1, 127, 128, 300, 16383, 16384, u64::MAX / 2] {
        let mut buf = Vec::new();
        encode_varint(v, &mut buf);
        let (decoded, _) = decode_varint(&buf).unwrap();
        assert_eq!(decoded, v, "varint roundtrip failed for {}", v);
    }
}

#[test]
fn op_id_roundtrip() {
    let id = OpId { lamport: LamportTs(12345), actor: ActorId(67890) };
    let encoded = encode_op_id(&id);
    let decoded = decode_op_id(&encoded);
    assert_eq!(id, decoded);
}

#[test]
fn encode_decode_update_roundtrip() {
    let mut doc = Document::new(ActorId(1));
    let pts = vec![StrokePoint::new(f(1.0), f(2.0), f(0.8)), StrokePoint::new(f(3.0), f(4.0), f(0.9))];
    let data = StrokeData::new(pts, ToolKind::Pen);
    let props = StrokeProperties::new(0xFF0000FF, f(3.0), f(1.0), OpId::zero());
    let id = doc.insert_stroke(data, props, &perp_dist);

    let ops = std::mem::take(&mut doc.pending_ops);
    let encoded = encode_update(&ops);
    let decoded = decode_update(&encoded).unwrap();

    assert_eq!(decoded.len(), 1);
    if let Operation::InsertStroke { id: did, data: ddata, .. } = &decoded[0] {
        assert_eq!(*did, id);
        assert_eq!(ddata.points.len(), 2);
        assert!((g(ddata.points[0].x) - 1.0).abs() < 1e-6);
    } else {
        panic!("wrong operation type");
    }
}

#[test]
fn vector_clock_roundtrip() {
    let mut vc = VectorClock::new();
    vc.advance(ActorId(1), 100);
    vc.advance(ActorId(2), 200);
    let encoded = encode_state_vector(&vc);
    let decoded = decode_vector_clock(&encoded);
    assert_eq!(decoded.get(ActorId(1)), 100);
    assert_eq!(decoded.get(ActorId(2)), 200);
}

#[test]
fn snapshot_roundtrip() {
    let mut doc = Document::new(ActorId(1));
    let data = StrokeData::new(vec![StrokePoint::basic(f(5.0), f(5.0))], ToolKind::Pen);
    let props = StrokeProperties::new(0x00FF00FF, f(2.0), f(0.8), OpId::zero());
    let id = doc.insert_stroke(data, props, &perp_dist);

    let snapshot = encode_snapshot(&doc);
    let doc2 = decode_snapshot(&snapshot, ActorId(99)).unwrap();

    let visible = doc2.visible_stroke_ids();
    assert_eq!(visible.len(), 1);
    assert_eq!(visible[0], id);
}

#[test]
fn varint_bytes() {
    let cases: [(u64, &[u8]); 5] =
        [(0, &[0]), (127, &[0x7f]), (128, &[0x80, 1]), (300, &[0xac, 2]), (u64::MAX, &[0xff; 10])];
    for (v, bytes) in cases {
        let mut buf = Vec::new();
        encode_varint(v, &mut buf);
        let mut expected = bytes.to_vec();
        if v == u64::MAX {
            expected[9] = 1;
        }
        assert_eq!(buf, expected);
        assert_eq!(decode_varint(&buf), Some((v, expected.len())));
    }
    assert_eq!(decode_varint(&[]), None);
    assert_eq!(decode_varint(&[0x80]), None);
    assert_eq!(decode_varint(&[0xff; 11]), None);
}

#[test]
fn fixed_identifiers() {
    let bytes = encode_op_id(&id(0x0102, 0x03));
    assert_eq!(bytes.len(), 16);
    assert_eq!(bytes[..3], [2, 1, 0]);
    assert_eq!(bytes[8..10], [3, 0]);
    assert_eq!(decode_op_id(&bytes[..15]), OpId::zero());
    let mut both = bytes.clone();
    both.extend(encode_op_id(&id(9, 9)));
    assert_eq!(encode_stroke_ids(&[id(0x0102, 3), id(9, 9)]), both);
    assert_eq!(decode_op_id(&both), id(0x0102, 3));
}

fn every_operation() -> Vec<Operation> {
    let t = Transform2D { a: f(1.0), b: f(2.0), c: f(3.0), d: f(4.0), tx: f(5.0), ty: f(6.0) };
    let target = id(3, 4);
    vec![
        Operation::DeleteStroke { id: id(1, 2), target },
        Operation::UpdateProperty { id: id(1, 2), target, update: PropertyUpdate::Color(7) },
        Operation::UpdateProperty { id: id(1, 2), target, update: PropertyUpdate::StrokeWidth(f(1.5)) },
        Operation::UpdateProperty { id: id(1, 2), target, update: PropertyUpdate::Opacity(f(0.25)) },
        Operation::UpdateProperty { id: id(1, 2), target, update: PropertyUpdate::Transform(t) },
        Operation::UpdateMetadata { id: id(1, 2), key: MetadataKey::ViewportX, value: None },
        Operation::UpdateMetadata {
            id: id(1, 2),
            key: MetadataKey::ViewportZoom,
            value: Some(MetadataValue::F64(F64 { bits: 2.5f64.to_bits() })),
        },
        Operation::UpdateMetadata {
            id: id(1, 2),
            key: MetadataKey::GridEnabled,
            value: Some(MetadataValue::Bool(true)),
        },
        Operation::UpdateMetadata {
            id: id(1, 2),
            key: MetadataKey::Custom("höhe".to_string()),
            value: Some(MetadataValue::String("drei".to_string())),
        },
        Operation::InsertStroke {
            id: id(300, 2),
            origin_left: id(1, 1),
            origin_right: id(2, 2),
            data: StrokeData::new(vec![StrokePoint::new(f(1.0), f(-2.0), f(0.5))], ToolKind::Arrow),
            properties: StrokeProperties::new(0xdeadbeef, f(3.0), f(0.5), id(8, 8)),
        },
    ]
}

#[test]
fn every_operation_roundtrips() {
    let ops = every_operation();
    let decoded = decode_update(&encode_update(&ops)).unwrap();
    assert_eq!(format!("{:?}", decoded), format!("{:?}", ops));
}

#[test]
fn operation_bytes() {
    let ops = vec![Operation::DeleteStroke { id: id(5, 1), target: id(300, 2) }];
    assert_eq!(encode_update(&ops), vec![1, 2, 5, 1, 0xac, 2, 2]);
    assert_eq!(encode_update(&[]), vec![0]);
}

#[test]
fn unreadable_updates_are_errors() {
    assert!(matches!(decode_update(&[]), Err(VectisError::DecodingError(_))));
    assert!(matches!(decode_update(&[1]), Err(VectisError::DecodingError(_))));
    assert!(matches!(decode_update(&[1, 9, 1, 1]), Err(VectisError::DecodingError(_))));
    let mut bytes = Vec::new();
    encode_varint(MAX_STROKES as u64 + 1, &mut bytes);
    match decode_update(&bytes) {
        Err(VectisError::LimitExceeded { limit, actual, .. }) => {
            assert_eq!(limit, MAX_STROKES);
            assert_eq!(actual, MAX_STROKES + 1);
        },
        other => panic!("unexpected {:?}", other.map(|ops| ops.len())),
    }
}

#[test]
fn too_many_points_are_refused() {
    let points = vec![StrokePoint::basic(f(0.0), f(0.0)); MAX_POINTS_PER_STROKE + 1];
    let op = Operation::InsertStroke {
        id: id(1, 1),
        origin_left: OpId::zero(),
        origin_right: OpId::zero(),
        data: StrokeData::new(points, ToolKind::Pen),
        properties: StrokeProperties::new(0, f(1.0), f(1.0), OpId::zero()),
    };
    assert!(decode_update(&encode_update(&[op])).is_err());
}

#[test]
fn state_vectors_are_cut_at_the_limit() {
    let mut bytes = Vec::new();
    encode_varint(MAX_ACTORS as u64 + 50, &mut bytes);
    for actor in 0..(MAX_ACTORS as u64 + 50) {
        encode_varint(actor + 1, &mut bytes);
        encode_varint(7, &mut bytes);
    }
    assert_eq!(decode_vector_clock(&bytes).len(), MAX_ACTORS);
    assert_eq!(decode_vector_clock(&[]).len(), 0);
    assert_eq!(decode_vector_clock(&[2, 1, 5]).get(ActorId(1)), 5);
}

#[test]
fn snapshot_restores_everything_shown() {
    let mut doc = Document::new(ActorId(1));
    for i in 0..4 {
        let data = StrokeData::new(vec![StrokePoint::basic(f(i as f32), f(0.0))], ToolKind::Marker);
        doc.insert_stroke(data, StrokeProperties::new(i, f(2.0), f(0.5), OpId::zero()), &perp_dist);
    }
    let ids = doc.visible_stroke_ids();
    doc.delete_stroke(ids[1]);
    doc.update_color(ids[2], 77);
    doc.set_metadata(MetadataKey::BackgroundColor, MetadataValue::U32(12));
    let copy = decode_snapshot(&encode_snapshot(&doc), ActorId(50)).unwrap();
    assert_eq!(copy.local_actor, ActorId(50));
    assert_eq!(copy.visible_stroke_ids(), doc.visible_stroke_ids());
    assert_eq!(copy.stroke_order.items, doc.stroke_order.items);
    assert_eq!(copy.clock.0, doc.clock.0);
    assert_eq!(copy.version.get(ActorId(1)), doc.version.get(ActorId(1)));
    assert_eq!(copy.get_stroke(&ids[2]).unwrap().1.color.value, 77);
    assert_eq!(copy.undo_depth(), 0);
    assert!(matches!(copy.metadata.get(&MetadataKey::BackgroundColor), Some(MetadataValue::U32(12))));
}

#[test]
fn unreadable_snapshots_are_told_apart() {
    let texts: Vec<String> = [vec![], vec![9], vec![1], vec![1, 1], vec![1, 1, 1], vec![1, 1, 1, 9], vec![1, 1, 1, 0]]
        .iter()
        .map(|bytes| decode_snapshot(bytes, ActorId(1)).err().unwrap().to_string())
        .collect();
    assert_eq!(
        texts,
        vec![
            "decoding error: empty snapshot",
            "snapshot version mismatch: expected 1, got 9",
            "decoding error: failed to read actor",
            "decoding error: failed to read lamport",
            "decoding error: failed to read sv_len",
            "decoding error: state vector truncated",
            "decoding error: decoding error: empty or truncated update",
        ]
    );
}

#[test]
fn error_texts() {
    assert_eq!(VectisError::StrokeNotFound(id(3, 4)).to_string(), "stroke not found: (lamport=3, actor=4)");
    assert_eq!(VectisError::EncodingError("x".to_string()).to_string(), "encoding error: x");
    assert_eq!(VectisError::InvalidActorId.to_string(), "actor ID 0 is reserved");
    assert_eq!(
        VectisError::CausalBufferOverflow { capacity: 1000 }.to_string(),
        "causal buffer overflow at capacity 1000"
    );
    assert_eq!(
        VectisError::LimitExceeded { what: "points", limit: 5, actual: 60 }.to_string(),
        "limit exceeded: points (limit=5, actual=60)"
    );
}

#[test]
fn an_update_that_breaks_off_is_refused() {
    let bytes = encode_update(&every_operation());
    for n in 0..bytes.len() {
        assert!(decode_update(&bytes[..n]).is_err(), "{} of {} bytes were taken", n, bytes.len());
    }
    assert!(decode_update(&bytes).is_ok());
}

#[test]
fn a_snapshot_that_breaks_off_is_refused() {
    let mut doc = Document::new(ActorId(1));
    for op in every_operation() {
        doc.apply_remote(op);
    }
    let bytes = encode_snapshot(&doc);
    for n in 0..bytes.len() {
        assert!(decode_snapshot(&bytes[..n], ActorId(2)).is_err(), "{} of {} bytes were taken", n, bytes.len());
    }
    assert!(decode_snapshot(&bytes, ActorId(2)).is_ok());
}

#[test]
fn bounds_are_computed_anew() {
    let points = vec![StrokePoint::basic(f(1.0), f(2.0)), StrokePoint::basic(f(3.0), f(0.0))];
    let mut data = StrokeData::new(points, ToolKind::Pen);
    let bounds = data.bounds;
    data.bounds.max_x = f(99.0);
    let op = Operation::InsertStroke {
        id: id(1, 1),
        origin_left: OpId::zero(),
        origin_right: OpId::zero(),
        data,
        properties: StrokeProperties::new(0, f(1.0), f(1.0), OpId::zero()),
    };
    match &decode_update(&encode_update(&[op])).unwrap()[0] {
        Operation::InsertStroke { data, .. } => {
            assert_eq!(data.bounds, bounds);
            assert_eq!(data.points.len(), 2);
        },
        other => panic!("unexpected {:?}", other),
    }
}

#[test]
fn a_snapshot_keeps_when_metadata_was_written() {
    let mut doc = Document::new(ActorId(2));
    doc.set_metadata(MetadataKey::GridEnabled, MetadataValue::Bool(true));
    doc.apply_remote(Operation::UpdateMetadata { id: id(5, 1), key: MetadataKey::ViewportX, value: None });
    let mut copy = decode_snapshot(&encode_snapshot(&doc), ActorId(3)).unwrap();
    let older = [
        Operation::UpdateMetadata {
            id: id(1, 1),
            key: MetadataKey::GridEnabled,
            value: Some(MetadataValue::Bool(false)),
        },
        Operation::UpdateMetadata { id: id(4, 9), key: MetadataKey::ViewportX, value: Some(MetadataValue::U32(7)) },
    ];
    for op in older {
        doc.apply_remote(op.clone());
        copy.apply_remote(op);
    }
    for replica in [&doc, &copy] {
        assert!(matches!(replica.metadata.get(&MetadataKey::GridEnabled), Some(MetadataValue::Bool(true))));
        assert!(replica.metadata.get(&MetadataKey::ViewportX).is_none());
        assert_eq!(replica.metadata.entries[0].1.timestamp, id(1, 2));
        assert_eq!(replica.metadata.entries[1].1.timestamp, id(5, 1));
    }
    assert_eq!(copy.undo_depth(), 0);
    assert!(copy.take_pending_ops().is_empty());
}
