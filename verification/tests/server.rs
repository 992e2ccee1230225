//! The relay server: greeting, frames, refusals.

use vectis_crdt::awareness::{encode_cursor, CursorState};
use vectis_crdt::document::{Document, Operation};
use vectis_crdt::encoding::{decode_update, encode_state_vector, encode_update};
use vectis_crdt::float::{F32, F64};
use vectis_crdt::names::NameMap;
use vectis_crdt::protocol::{decode_message, encode_message, ProtocolMessage};
use vectis_crdt::server::{actor_color, error_frame, read_hello, welcome_frames, ServerState};
use vectis_crdt::stroke::{StrokeData, StrokePoint, StrokeProperties, ToolKind};
use vectis_crdt::types::{ActorId, LamportTs, OpId, VectorClock};

fn f(x: f32) -> F32 {
    F32 { bits: x.to_bits() }
}

fn g(x: F32) -> f32 {
    f32::from_bits(x.bits)
}

fn perp_dist(p: StrokePoint, a: StrokePoint, b: StrokePoint) -> F32 {
    let dx = g(b.x) - g(a.x);
    let dy = g(b.y) - g(a.y);
    let len_sq = dx * dx + dy * dy;
    if len_sq < 1e-10 {
        let ex = g(p.x) - g(a.x);
        let ey = g(p.y) - g(a.y);
        return f((ex * ex + ey * ey).sqrt());
    }
    let cross = (dx * (g(a.y) - g(p.y)) - dy * (g(a.x) - g(p.x))).abs();
    f(cross / len_sq.sqrt())
}

fn divide(a: usize, b: usize) -> F64 {
    F64 { bits: (a as f64 / b as f64).to_bits() }
}

fn stroke_update(actor: u64) -> Vec<u8> {
    let mut source = Document::new(ActorId(actor));
    source.insert_stroke(
        StrokeData::new(vec![StrokePoint::basic(f(0.0), f(0.0))], ToolKind::Pen),
        StrokeProperties::new(0xa78bfaff, f(3.0), f(1.0), OpId::zero()),
        &perp_dist,
    );
    encode_update(&source.take_pending_ops())
}

fn joined(count: usize) -> (ServerState, String) {
    let mut server = ServerState::new();
    let name = "board".to_string();
    for _ in 0..count {
        server.join_room(&name, String::new(), VectorClock::new());
    }
    (server, name)
}

fn refusal(frame: &ProtocolMessage) -> String {
    let (mut server, name) = joined(2);
    let reaction = server.process_client_frame(&name, ActorId(1), &encode_message(frame), &divide);
    assert!(reaction.frames.is_empty());
    reaction.error.unwrap()
}

#[test]
fn colours_repeat_after_eight() {
    let colors: Vec<u32> = (1..9).map(|a| actor_color(ActorId(a))).collect();
    assert_eq!(
        colors,
        vec![
            0xa78bfaff, 0x60a5fbff, 0x34d399ff, 0xfbbf24ff, 0xf87171ff, 0x22d3eeff, 0xfb7185ff, 0xc084fcff
        ]
    );
    assert_eq!(actor_color(ActorId(9)), colors[0]);
    assert_eq!(actor_color(ActorId(u64::MAX)), colors[((u64::MAX - 1) % 8) as usize]);
}

#[test]
fn a_hello_names_room_token_and_version() {
    let mut version = VectorClock::new();
    version.advance(ActorId(4), 9);
    let frame = encode_message(&ProtocolMessage::ClientHello {
        room: "studio".to_string(),
        resume_token: "r4-s4".to_string(),
        state_vector: encode_state_vector(&version),
    });
    let hello = read_hello(Some(&frame), Some("other".to_string())).ok().unwrap();
    assert_eq!(hello.room, "studio");
    assert_eq!(hello.resume_token, "r4-s4");
    assert_eq!(hello.version.get(ActorId(4)), 9);
}

#[test]
fn a_hello_without_a_room_takes_the_hint() {
    let frame = encode_message(&ProtocolMessage::ClientHello {
        room: String::new(),
        resume_token: String::new(),
        state_vector: vec![],
    });
    assert_eq!(read_hello(Some(&frame), Some("hinted".to_string())).ok().unwrap().room, "hinted");
    assert_eq!(read_hello(Some(&frame), None).ok().unwrap().room, "demo");
}

#[test]
fn other_first_frames_are_refused() {
    let said = |first: Option<&[u8]>| read_hello(first, None).err().unwrap();
    assert_eq!(said(None), "invalid hello: UnknownTag(0)");
    assert_eq!(said(Some(&[])), "invalid hello: Empty");
    assert_eq!(said(Some(&[7, 1])), "invalid hello: VersionMismatch { expected: 1, got: 7 }");
    assert_eq!(said(Some(&[1, 99])), "invalid hello: UnknownTag(99)");
    assert_eq!(said(Some(&[1, 1])), "invalid hello: Truncated");
    assert_eq!(said(Some(&[1, 6, 1, 0xff])), "invalid hello: InvalidUtf8");
    assert_eq!(said(Some(&[1, 4, 0, 0])), "invalid hello: TrailingBytes");
    assert_eq!(said(Some(&[1, 4, 0])), "first frame must be ClientHello");
}

#[test]
fn joining_gives_actor_colour_token_and_catch_up() {
    let mut server = ServerState::new();
    let name = "board".to_string();
    let (actor, color, token, sync) = server.join_room(&name, String::new(), VectorClock::new());
    assert_eq!((actor, color, token.as_str()), (ActorId(1), 0xa78bfaff, "r1-s1"));
    assert!(matches!(sync, ProtocolMessage::Update { .. }));
    let (other, _, _, _) = server.join_room(&"elsewhere".to_string(), String::new(), VectorClock::new());
    assert_eq!(other, ActorId(1));
    let (second, _, _, _) = server.join_room(&name, token.clone(), VectorClock::new());
    assert_eq!(second, ActorId(2));
    server.leave_room(&name, ActorId(1));
    let (again, _, same, _) = server.join_room(&name, token.clone(), VectorClock::new());
    assert_eq!((again, same), (ActorId(1), token));
    assert_eq!(server.rooms.get(&name).unwrap().client_count(), 2);
    server.leave_room(&"nowhere".to_string(), ActorId(1));
}

#[test]
fn an_update_reaches_the_others_and_later_clients() {
    let (mut server, name) = joined(3);
    let update = stroke_update(1);
    let frame = encode_message(&ProtocolMessage::Update { bytes: update });
    let reaction = server.process_client_frame(&name, ActorId(1), &frame, &divide);
    assert_eq!(reaction.error, None);
    let passed: Vec<ActorId> = reaction.frames.iter().filter(|a| a.frame == frame).map(|a| a.to).collect();
    assert_eq!(passed, vec![ActorId(2), ActorId(3)]);
    let (_, _, _, sync) = server.join_room(&name, String::new(), VectorClock::new());
    let ProtocolMessage::Update { bytes } = sync else {
        panic!("expected update delta");
    };
    assert_eq!(decode_update(&bytes).unwrap().len(), 1);
}

#[test]
fn a_cursor_reaches_the_others() {
    let (mut server, name) = joined(3);
    let cursor = encode_cursor(&CursorState::new(ActorId(2), f(1.0), f(2.0), 5, 6));
    let frame = encode_message(&ProtocolMessage::Awareness { bytes: cursor });
    let reaction = server.process_client_frame(&name, ActorId(2), &frame, &divide);
    assert_eq!(reaction.error, None);
    assert_eq!(reaction.frames.iter().map(|a| a.to).collect::<Vec<_>>(), vec![ActorId(1), ActorId(3)]);
    assert!(reaction.frames.iter().all(|a| a.frame == frame));
}

#[test]
fn a_state_vector_is_answered_to_all() {
    let (mut server, name) = joined(2);
    let mut version = VectorClock::new();
    version.advance(ActorId(1), 3);
    let frame = encode_message(&ProtocolMessage::StateVector { bytes: encode_state_vector(&version) });
    server.process_client_frame(&name, ActorId(1), &frame, &divide);
    let reaction = server.process_client_frame(&name, ActorId(2), &frame, &divide);
    assert_eq!(reaction.frames.len(), 2);
    assert!(matches!(decode_message(&reaction.frames[1].frame), Ok(ProtocolMessage::Mvv { .. })));
    assert_eq!(server.rooms.get(&name).unwrap().doc.min_version.get(ActorId(1)), 3);
}

#[test]
fn refusals_are_told_apart() {
    assert_eq!(refusal(&ProtocolMessage::Snapshot { bytes: vec![] }), "unexpected client frame");
    assert_eq!(
        refusal(&ProtocolMessage::Update { bytes: vec![] }),
        "update decode failed: decoding error: empty or truncated update"
    );
    assert_eq!(
        refusal(&ProtocolMessage::Update { bytes: stroke_update(2) }),
        "rejected update from actor 1 containing op from actor 2"
    );
    assert_eq!(refusal(&ProtocolMessage::Awareness { bytes: vec![1] }), "malformed awareness frame");
    let foreign = encode_cursor(&CursorState::new(ActorId(2), f(1.0), f(2.0), 5, 6));
    assert_eq!(
        refusal(&ProtocolMessage::Awareness { bytes: foreign }),
        "awareness actor does not match session actor"
    );
    let (mut server, name) = joined(1);
    let reaction = server.process_client_frame(&name, ActorId(1), &vec![1, 99], &divide);
    assert_eq!(reaction.error.unwrap(), "protocol decode failed: UnknownTag(99)");
}

#[test]
fn a_room_must_exist() {
    let mut server = ServerState::new();
    let name = "gone".to_string();
    let cursor = encode_cursor(&CursorState::new(ActorId(1), f(1.0), f(2.0), 5, 6));
    for message in [
        ProtocolMessage::Update { bytes: stroke_update(1) },
        ProtocolMessage::StateVector { bytes: vec![0] },
        ProtocolMessage::Awareness { bytes: cursor },
    ] {
        let reaction = server.process_client_frame(&name, ActorId(1), &encode_message(&message), &divide);
        assert_eq!(reaction.error.unwrap(), "room no longer exists");
    }
}

#[test]
fn an_overfull_buffer_is_reported() {
    let (mut server, name) = joined(2);
    let id = |lamport: u64| OpId { lamport: LamportTs(lamport), actor: ActorId(1) };
    let ops: Vec<Operation> =
        (1..10_100).map(|i| Operation::DeleteStroke { id: id(i), target: id(1_000_000 + i) }).collect();
    let capacity = server.rooms.get(&name).unwrap().buffer.max_capacity;
    assert!(capacity < ops.len());
    let frame = encode_message(&ProtocolMessage::Update { bytes: encode_update(&ops) });
    let reaction = server.process_client_frame(&name, ActorId(1), &frame, &divide);
    assert_eq!(
        reaction.error.unwrap(),
        format!("server apply failed: causal buffer overflow at capacity {}", capacity)
    );
    assert!(reaction.frames.is_empty());
}

#[test]
fn frames_of_the_server() {
    assert_eq!(
        decode_message(&error_frame("no".to_string())),
        Ok(ProtocolMessage::Error { message: "no".to_string() })
    );
    let sync = ProtocolMessage::Update { bytes: vec![0] };
    let (welcome, second) = welcome_frames(ActorId(3), 9, "t".to_string(), &sync);
    assert_eq!(
        decode_message(&welcome),
        Ok(ProtocolMessage::ServerWelcome { actor: ActorId(3), color: 9, resume_token: "t".to_string() })
    );
    assert_eq!(decode_message(&second), Ok(sync));
}

#[test]
fn names_are_kept_once() {
    let mut map: NameMap<u32> = NameMap::new();
    map.insert("a".to_string(), 1);
    map.insert("b".to_string(), 2);
    map.insert("a".to_string(), 3);
    assert_eq!(map.get(&"a".to_string()), Some(&3));
    assert_eq!(map.get(&"b".to_string()), Some(&2));
    assert_eq!(map.get(&"c".to_string()), None);
    assert_eq!(map.find(&"b".to_string()), Some(1));
    assert_eq!(map.entries.len(), 2);
}
