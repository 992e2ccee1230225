//! Rooms: sessions, catching up, updates, and what everybody has seen.

use vectis_crdt::causal_buffer::CausalBuffer;
use vectis_crdt::document::{Document, Operation};
use vectis_crdt::encoding::{decode_snapshot, decode_update, decode_vector_clock};
use vectis_crdt::float::{F32, F64};
use vectis_crdt::protocol::{decode_message, ProtocolMessage};
use vectis_crdt::room::RoomState;
use vectis_crdt::stroke::{StrokeData, StrokePoint, StrokeProperties, ToolKind};
use vectis_crdt::types::{ActorId, LamportTs, OpId, VectorClock};

fn f(x: f32) -> F32 {
    F32 { bits: x.to_bits() }
}

fn g(x: F32) -> f32 {
    f32::from_bits(x.bits)
}

fn perp_dist(p: StrokePoint, a: StrokePoint, b: StrokePoint) -> F32 {
    let dx = g(b.x) - g(a.x);
    let dy = g(b.y) - g(a.y);
    let len_sq = dx * dx + dy * dy;
    if len_sq < 1e-10 {
        let ex = g(p.x) - g(a.x);
        let ey = g(p.y) - g(a.y);
        return f((ex * ex + ey * ey).sqrt());
    }
    let cross = (dx * (g(a.y) - g(p.y)) - dy * (g(a.x) - g(p.x))).abs();
    f(cross / len_sq.sqrt())
}

fn divide(a: usize, b: usize) -> F64 {
    F64 { bits: (a as f64 / b as f64).to_bits() }
}

fn drawn(actor: u64, count: usize) -> (Document, Vec<Operation>) {
    let mut source = Document::new(ActorId(actor));
    for _ in 0..count {
        source.insert_stroke(
            StrokeData::new(vec![StrokePoint::basic(f(0.0), f(0.0))], ToolKind::Pen),
            StrokeProperties::new(0xa78bfaff, f(3.0), f(1.0), OpId::zero()),
            &perp_dist,
        );
    }
    let ops = source.take_pending_ops();
    (source, ops)
}

fn reuses_inactive_actor() {
    let mut room = RoomState::new();
    let (actor, token) = room.resolve_session(String::new());
    assert_eq!(actor, ActorId(1));

    let (resumed_actor, resumed_token) = room.resolve_session(token.clone());
    assert_eq!(resumed_actor, actor);
    assert_eq!(resumed_token, token);
}

fn does_not_collide_with_active_actor() {
    let mut room = RoomState::new();
    let (actor, token) = room.resolve_session(String::new());
    room.insert_client(actor, VectorClock::new());

    let (new_actor, new_token) = room.resolve_session(token);
    assert_ne!(new_actor, actor);
    assert_ne!(new_token, String::new());
}

fn uses_op_log_delta_when_available() {
    let (_, ops) = drawn(9, 1);

    let mut room = RoomState::new();
    for op in ops.clone() {
        room.doc.apply_remote(op.clone());
        room.op_log.push(op);
    }

    let message = room.sync_message(&VectorClock::new());
    let ProtocolMessage::Update { bytes } = message else {
        panic!("expected update delta");
    };
    assert_eq!(decode_update(&bytes).unwrap().len(), ops.len());

    let mut caught_up = VectorClock::new();
    caught_up.advance(ActorId(9), ops[0].id().lamport.0);
    let message = room.sync_message(&caught_up);
    let ProtocolMessage::Update { bytes } = message else {
        panic!("expected empty update delta");
    };
    assert!(decode_update(&bytes).unwrap().is_empty());
}

#[test]
fn room_resume_token_reuses_inactive_actor() {
    reuses_inactive_actor();
}

#[test]
fn room_resume_token_does_not_collide_with_active_actor() {
    does_not_collide_with_active_actor();
}

#[test]
fn room_sync_message_uses_op_log_delta_when_available() {
    uses_op_log_delta_when_available();
}

#[test]
fn main_resume_token_reuses_inactive_actor() {
    reuses_inactive_actor();
}

#[test]
fn main_resume_token_does_not_collide_with_active_actor() {
    does_not_collide_with_active_actor();
}

#[test]
fn main_sync_message_uses_op_log_delta_when_available() {
    uses_op_log_delta_when_available();
}

#[test]
fn tokens_tell_actor_and_session() {
    let mut room = RoomState::new();
    assert_eq!(room.resolve_session(String::new()), (ActorId(1), "r1-s1".to_string()));
    assert_eq!(room.resolve_session("forged".to_string()), (ActorId(2), "r2-s2".to_string()));
    room.insert_client(ActorId(1), VectorClock::new());
    assert_eq!(room.resolve_session("r1-s1".to_string()), (ActorId(3), "r3-s3".to_string()));
    room.remove_client(ActorId(1));
    assert_eq!(room.resolve_session("r1-s1".to_string()), (ActorId(1), "r1-s1".to_string()));
}

#[test]
fn clients_come_and_go() {
    let mut room = RoomState::new();
    assert_eq!(room.client_count(), 0);
    for a in 1..4 {
        room.insert_client(ActorId(a), VectorClock::new());
    }
    room.insert_client(ActorId(2), VectorClock::new());
    assert_eq!(room.client_count(), 3);
    assert_eq!(room.recipients_except(ActorId(2)), vec![ActorId(1), ActorId(3)]);
    room.remove_client(ActorId(1));
    room.remove_client(ActorId(7));
    assert_eq!(room.recipients_except(ActorId(9)), vec![ActorId(2), ActorId(3)]);
}

#[test]
fn updates_are_taken_in_logged_and_passed_on() {
    let mut room = RoomState::new();
    room.insert_client(ActorId(1), VectorClock::new());
    room.insert_client(ActorId(2), VectorClock::new());
    let (source, ops) = drawn(1, 3);
    let told = room.apply_update(ActorId(1), ops, &divide).unwrap();
    assert_eq!(told.update, vec![ActorId(2)]);
    assert_eq!(room.doc.visible_stroke_ids(), source.visible_stroke_ids());
    assert_eq!(room.op_log.len(), 3);
    assert_eq!(room.clients[0].version.get(ActorId(1)), 3);
    assert_eq!(room.clients[1].version.get(ActorId(1)), 0);
}

#[test]
fn what_everybody_has_seen_is_announced() {
    let mut room = RoomState::new();
    room.insert_client(ActorId(1), VectorClock::new());
    room.insert_client(ActorId(2), VectorClock::new());
    let mut first = VectorClock::new();
    first.advance(ActorId(1), 8);
    first.advance(ActorId(3), 2);
    let mut second = VectorClock::new();
    second.advance(ActorId(1), 5);
    room.update_client_version(ActorId(1), first, &divide);
    let frames = room.update_client_version(ActorId(2), second, &divide);
    assert_eq!(frames.iter().map(|a| a.to).collect::<Vec<_>>(), vec![ActorId(1), ActorId(2)]);
    let Ok(ProtocolMessage::Mvv { bytes }) = decode_message(&frames[0].frame) else {
        panic!("expected what everybody has seen");
    };
    let floor = decode_vector_clock(&bytes);
    assert_eq!(floor.get(ActorId(1)), 5);
    assert_eq!(floor.get(ActorId(3)), 0);
    assert_eq!(room.doc.min_version.get(ActorId(1)), 5);
    assert_eq!(frames[0].frame, frames[1].frame);
}

#[test]
fn a_deletion_that_all_have_seen_is_collected() {
    let mut room = RoomState::new();
    room.insert_client(ActorId(1), VectorClock::new());
    room.insert_client(ActorId(2), VectorClock::new());
    let (mut source, ops) = drawn(1, 2);
    room.apply_update(ActorId(1), ops, &divide).unwrap();
    let ids = source.visible_stroke_ids();
    source.delete_stroke(ids[0]);
    let ops = source.take_pending_ops();
    room.apply_update(ActorId(1), ops, &divide).unwrap();
    assert_eq!(room.doc.stroke_order.tombstone_count, 1);
    room.update_client_version(ActorId(2), source.version, &divide);
    assert_eq!(room.doc.stroke_order.tombstone_count, 0);
    assert_eq!(room.doc.visible_stroke_ids(), vec![ids[1]]);
    assert_eq!(room.op_log.len(), 0);
    // A client that knows nothing is no longer served from the log.
    let ProtocolMessage::Snapshot { bytes } = room.sync_message(&VectorClock::new()) else {
        panic!("expected a snapshot");
    };
    let copy = decode_snapshot(&bytes, ActorId(5)).unwrap();
    assert_eq!(copy.visible_stroke_ids(), vec![ids[1]]);
}

#[test]
fn an_update_that_finds_no_room_is_refused() {
    let mut room = RoomState::new();
    room.buffer = CausalBuffer::with_capacity(1);
    room.insert_client(ActorId(1), VectorClock::new());
    let id = |lamport: u64| OpId { lamport: LamportTs(lamport), actor: ActorId(1) };
    let ops = (1..4).map(|i| Operation::DeleteStroke { id: id(i), target: id(100 + i) }).collect();
    let refused = room.apply_update(ActorId(1), ops, &divide);
    assert_eq!(refused.err().unwrap(), "server apply failed: causal buffer overflow at capacity 1");
    assert_eq!(room.op_log.len(), 0);
}

#[test]
fn catching_up_gives_what_is_missing() {
    let mut room = RoomState::new();
    room.insert_client(ActorId(1), VectorClock::new());
    let (mut source, ops) = drawn(1, 4);
    room.apply_update(ActorId(1), ops.clone(), &divide).unwrap();
    let mut known = VectorClock::new();
    known.advance(ActorId(1), 2);
    let ProtocolMessage::Update { bytes } = room.sync_message(&known) else {
        panic!("expected update delta");
    };
    let missing = decode_update(&bytes).unwrap();
    assert_eq!(missing.iter().map(|op| op.id()).collect::<Vec<_>>(), vec![ops[2].id(), ops[3].id()]);
    let mut peer = Document::new(ActorId(2));
    for op in ops.into_iter().take(2) {
        peer.apply_remote(op);
    }
    for op in missing {
        peer.apply_remote(op);
    }
    assert_eq!(peer.visible_stroke_ids(), source.visible_stroke_ids());
    assert!(source.take_pending_ops().is_empty());
}
