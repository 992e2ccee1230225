//! A client of the relay server.

use vectis_crdt::awareness::{encode_cursor, CursorState};
use vectis_crdt::client::{
    hex_prefix, AppPoint, ClientApp, ClientEvent, ConnectionState, Direction, DEFAULT_COLOR, MAX_LOG,
};
use vectis_crdt::document::Document;
use vectis_crdt::encoding::{decode_update, encode_snapshot, encode_state_vector, encode_update};
use vectis_crdt::float::{F32, F64};
use vectis_crdt::protocol::{decode_message, encode_message, ProtocolMessage};
use vectis_crdt::server::{read_hello, welcome_frames, ServerState};
use vectis_crdt::stroke::{StrokeData, StrokePoint, StrokeProperties, ToolKind};
use vectis_crdt::types::{ActorId, OpId, VectorClock};

fn f(x: f32) -> F32 {
    F32 { bits: x.to_bits() }
}

fn g(x: F32) -> f32 {
    f32::from_bits(x.bits)
}

fn perp_dist(p: StrokePoint, a: StrokePoint, b: StrokePoint) -> F32 {
    let dx = g(b.x) - g(a.x);
    let dy = g(b.y) - g(a.y);
    let len_sq = dx * dx + dy * dy;
    if len_sq < 1e-10 {
        let ex = g(p.x) - g(a.x);
        let ey = g(p.y) - g(a.y);
        return f((ex * ex + ey * ey).sqrt());
    }
    let cross = (dx * (g(a.y) - g(p.y)) - dy * (g(a.x) - g(p.x))).abs();
    f(cross / len_sq.sqrt())
}

fn divide(a: usize, b: usize) -> F64 {
    F64 { bits: (a as f64 / b as f64).to_bits() }
}

fn point(x: f32, y: f32, pressure: f32) -> AppPoint {
    AppPoint::new(f(x), f(y), f(pressure))
}

fn welcome(actor: u64) -> Vec<u8> {
    encode_message(&ProtocolMessage::ServerWelcome {
        actor: ActorId(actor),
        color: 0x60a5fbff,
        resume_token: format!("token-{actor}"),
    })
}

fn ready() -> ClientApp {
    let mut app = ClientApp::new("demo".to_string());
    app.set_connected(true);
    app.receive_frame(&welcome(7), &divide);
    let snapshot = encode_snapshot(&Document::new(ActorId(999)));
    app.receive_frame(&encode_message(&ProtocolMessage::Snapshot { bytes: snapshot }), &divide);
    app
}

fn message(events: &[ClientEvent]) -> ProtocolMessage {
    let [ClientEvent::SendFrame(frame)] = events else {
        panic!("expected one frame");
    };
    decode_message(frame).ok().unwrap()
}

#[test]
fn hello_uses_configured_room() {
    let mut app = ClientApp::new("demo-room".to_string());
    let events = app.hello_frame();
    let [ClientEvent::SendFrame(frame)] = events.as_slice() else {
        panic!("expected hello frame");
    };
    assert_eq!(
        decode_message(frame),
        Ok(ProtocolMessage::ClientHello {
            room: "demo-room".to_string(),
            resume_token: String::new(),
            state_vector: encode_state_vector(&Document::new(ActorId(0)).version),
        })
    );
}

#[test]
fn snapshot_makes_client_ready() {
    let mut app = ClientApp::new("demo".to_string());
    app.set_connected(true);
    app.receive_frame(&welcome(7), &divide);
    let snapshot = encode_snapshot(&Document::new(ActorId(999)));
    app.receive_frame(&encode_message(&ProtocolMessage::Snapshot { bytes: snapshot }), &divide);
    assert!(app.connection_state().loaded);
    assert_eq!(app.stats().actor, Some(7));
    assert_eq!(app.resume_token(), "token-7");
}

#[test]
fn drawing_emits_update_frame() {
    let mut app = ClientApp::new("demo".to_string());
    app.set_connected(true);
    app.receive_frame(&welcome(7), &divide);
    let snapshot = encode_snapshot(&Document::new(ActorId(999)));
    app.receive_frame(&encode_message(&ProtocolMessage::Snapshot { bytes: snapshot }), &divide);

    app.begin_stroke(point(0.0, 0.0, 1.0));
    app.extend_stroke(point(1.0, 1.0, 1.0));
    let events = app.end_stroke(&perp_dist);
    assert!(matches!(events.as_slice(), [ClientEvent::SendFrame(_)]));
    assert_eq!(app.stats().visible_strokes, 1);
}

#[test]
fn awareness_emits_cursor_frame() {
    let mut app = ClientApp::new("demo".to_string());
    app.set_connected(true);
    app.receive_frame(&welcome(7), &divide);
    let snapshot = encode_snapshot(&Document::new(ActorId(999)));
    app.receive_frame(&encode_message(&ProtocolMessage::Snapshot { bytes: snapshot }), &divide);

    let events = app.awareness_frame(point(3.0, 4.0, 1.0), 12);
    assert!(matches!(events.as_slice(), [ClientEvent::SendFrame(_)]));
}

#[test]
fn a_new_client_waits() {
    let app = ClientApp::new("r".to_string());
    assert_eq!(app.room(), "r");
    assert_eq!(app.color(), DEFAULT_COLOR);
    assert_eq!(app.resume_token(), "");
    assert_eq!(app.connection_state(), ConnectionState { connected: false, loaded: false });
    let stats = app.stats();
    assert_eq!((stats.status.as_str(), stats.resume_token.as_str(), stats.actor), ("connecting", "none", None));
    assert_eq!(app.wire_log().len(), 0);
}

#[test]
fn a_token_is_sent_and_shown_shortened() {
    let mut app = ClientApp::new("r".to_string());
    app.set_resume_token("r12-s3456789012".to_string());
    assert_eq!(app.stats().resume_token, "r12-s3456789");
    let ProtocolMessage::ClientHello { resume_token, .. } = message(&app.hello_frame()) else {
        panic!("expected hello frame");
    };
    assert_eq!(resume_token, "r12-s3456789012");
}

#[test]
fn nothing_is_drawn_before_the_document_is_there() {
    let mut app = ClientApp::new("r".to_string());
    app.begin_stroke(point(0.0, 0.0, 1.0));
    app.extend_stroke(point(1.0, 1.0, 1.0));
    assert!(app.live_stroke().is_none());
    assert!(app.end_stroke(&perp_dist).is_empty());
    assert!(app.awareness_frame(point(0.0, 0.0, 1.0), 1).is_empty());
    assert!(app.undo().is_empty());
}

#[test]
fn a_stroke_is_drawn_shown_and_undone() {
    let mut app = ready();
    app.begin_stroke(point(0.0, 0.0, 0.5));
    app.extend_stroke(point(4.0, 0.0, 0.5));
    app.extend_stroke(point(4.0, 4.0, 0.5));
    assert_eq!(app.live_stroke().unwrap().points.len(), 3);
    let ProtocolMessage::Update { bytes } = message(&app.end_stroke(&perp_dist)) else {
        panic!("expected update");
    };
    assert_eq!(decode_update(&bytes).unwrap().len(), 1);
    assert!(app.live_stroke().is_none());
    let shown = app.strokes();
    assert_eq!(shown.len(), 1);
    assert_eq!(shown[0].color, 0x60a5fbff);
    assert_eq!(g(shown[0].width), 3.0);
    assert_eq!(g(shown[0].points[1].x), 4.0);
    assert_eq!(app.stats().undo_depth, 1);
    assert!(matches!(message(&app.undo()), ProtocolMessage::Update { .. }));
    assert_eq!(app.strokes().len(), 0);
    assert!(app.undo().is_empty());
    app.begin_stroke(point(0.0, 0.0, 0.5));
    app.cancel_stroke();
    assert!(app.end_stroke(&perp_dist).is_empty());
}

#[test]
fn a_stroke_of_one_point_is_no_stroke() {
    let mut app = ready();
    app.begin_stroke(point(0.0, 0.0, 0.5));
    assert!(app.end_stroke(&perp_dist).is_empty());
    assert_eq!(app.stats().visible_strokes, 0);
}

#[test]
fn statuses_tell_what_came() {
    let mut app = ClientApp::new("r".to_string());
    app.set_connected(true);
    assert_eq!(app.stats().status, "connected");
    let snapshot = encode_message(&ProtocolMessage::Snapshot {
        bytes: encode_snapshot(&Document::new(ActorId(9))),
    });
    app.receive_frame(&snapshot, &divide);
    assert_eq!(app.stats().status, "snapshot arrived before welcome");
    app.receive_frame(&welcome(7), &divide);
    assert_eq!(app.stats().status, "actor 7 assigned");
    app.receive_frame(&encode_message(&ProtocolMessage::Snapshot { bytes: vec![] }), &divide);
    assert_eq!(app.stats().status, "snapshot decode failed: decoding error: empty snapshot");
    let events = app.receive_frame(&snapshot, &divide);
    assert_eq!(app.stats().status, "ready");
    assert!(matches!(message(&events), ProtocolMessage::StateVector { .. }));
    app.receive_frame(&encode_message(&ProtocolMessage::Update { bytes: vec![] }), &divide);
    assert_eq!(app.stats().status, "update decode failed: decoding error: empty or truncated update");
    app.receive_frame(&encode_message(&ProtocolMessage::Update { bytes: vec![0] }), &divide);
    assert_eq!(app.stats().status, "synced");
    app.receive_frame(&encode_message(&ProtocolMessage::Error { message: "full".to_string() }), &divide);
    assert_eq!(app.stats().status, "full");
    app.receive_frame(&[1, 99], &divide);
    assert!(app.stats().status.contains("UnknownTag(99)"));
    app.set_connected(false);
    assert_eq!(app.stats().status, "disconnected");
    assert_eq!(app.connection_state(), ConnectionState { connected: false, loaded: false });
}

#[test]
fn cursors_of_others_are_shown() {
    let mut app = ready();
    let cursor = encode_cursor(&CursorState::new(ActorId(3), f(1.0), f(2.0), 5, 0x11223344));
    app.receive_frame(&encode_message(&ProtocolMessage::Awareness { bytes: cursor }), &divide);
    let shown = app.cursors();
    assert_eq!(shown.len(), 1);
    assert_eq!((shown[0].actor, shown[0].color), (3, 0x11223344));
    assert_eq!(g(shown[0].point.y), 2.0);
    assert_eq!(app.stats().remote_cursors, 1);
}

#[test]
fn a_floor_collects_tombstones() {
    let mut app = ready();
    app.begin_stroke(point(0.0, 0.0, 0.5));
    app.extend_stroke(point(4.0, 0.0, 0.5));
    app.end_stroke(&perp_dist);
    app.undo();
    let floor = encode_state_vector(&app.doc.version);
    app.receive_frame(&encode_message(&ProtocolMessage::Mvv { bytes: floor }), &divide);
    assert_eq!(app.stats().status, "gc removed 1 tombstones");
    assert_eq!(app.stats().gc_generation, 1);
}

#[test]
fn the_log_keeps_the_last_entries_first() {
    let mut app = ready();
    for _ in 0..20 {
        app.hello_frame();
    }
    app.receive_frame(&[1, 4, 1, 0], &divide);
    let log = app.wire_log();
    assert_eq!(log.len(), MAX_LOG);
    assert_eq!((log[0].direction, log[0].kind), (Direction::Outbound, "state"));
    assert_eq!((log[1].direction, log[1].bytes, log[1].hex.as_str()), (Direction::Inbound, 4, "01 04 01 00"));
    assert_eq!(log[2].kind, "hello");
    let stats = app.stats();
    assert_eq!((stats.frames_sent, stats.frames_received), (22, 3));
}

#[test]
fn frames_are_shown_by_their_first_bytes() {
    assert_eq!(hex_prefix(&[]), "");
    assert_eq!(hex_prefix(&[0, 0xab]), "00 ab");
    assert_eq!(hex_prefix(&[1, 2, 3, 4, 5, 6, 7, 8, 9]), "01 02 03 04 05 06 07 08");
}

#[test]
fn two_clients_meet_on_a_server() {
    let mut server = ServerState::new();
    let mut apps = vec![ClientApp::new("board".to_string()), ClientApp::new("board".to_string())];
    let name = "board".to_string();
    let mut actors = Vec::new();
    for app in apps.iter_mut() {
        app.set_connected(true);
        let events = app.hello_frame();
        let [ClientEvent::SendFrame(frame)] = events.as_slice() else {
            panic!("expected hello frame");
        };
        let hello = read_hello(Some(frame), None).ok().unwrap();
        let (actor, color, token, sync) = server.join_room(&hello.room, hello.resume_token, hello.version);
        let (first, second) = welcome_frames(actor, color, token, &sync);
        app.receive_frame(&first, &divide);
        app.receive_frame(&second, &divide);
        assert!(app.connection_state().loaded);
        actors.push(actor);
    }
    for i in 0..2 {
        let app = &mut apps[i];
        app.begin_stroke(point(i as f32, 0.0, 0.5));
        app.extend_stroke(point(9.0, 9.0, 0.5));
        let mut waiting: Vec<(usize, Vec<u8>)> =
            app.end_stroke(&perp_dist).into_iter().map(|ClientEvent::SendFrame(frame)| (i, frame)).collect();
        while let Some((from, frame)) = waiting.pop() {
            let reaction = server.process_client_frame(&name, actors[from], &frame, &divide);
            assert_eq!(reaction.error, None);
            for addressed in reaction.frames {
                let to = actors.iter().position(|a| *a == addressed.to).unwrap();
                for ClientEvent::SendFrame(reply) in apps[to].receive_frame(&addressed.frame, &divide) {
                    waiting.push((to, reply));
                }
            }
        }
    }
    assert_eq!(apps[0].doc.visible_stroke_ids(), apps[1].doc.visible_stroke_ids());
    assert_eq!(apps[0].strokes().len(), 2);
    assert_eq!(server.rooms.get(&name).unwrap().doc.visible_stroke_ids(), apps[0].doc.visible_stroke_ids());
    let resumed = VectorClock::new();
    server.leave_room(&name, actors[1]);
    let token = apps[1].resume_token().to_string();
    assert_eq!(server.join_room(&name, token, resumed).0, actors[1]);
}

#[test]
fn operations_out_of_order_wait() {
    let mut source = Document::new(ActorId(2));
    for _ in 0..2 {
        source.insert_stroke(
            StrokeData::new(vec![StrokePoint::basic(f(0.0), f(0.0))], ToolKind::Pen),
            StrokeProperties::new(1, f(3.0), f(1.0), OpId::zero()),
            &perp_dist,
        );
    }
    let ops = source.take_pending_ops();
    let mut app = ready();
    let late = encode_message(&ProtocolMessage::Update { bytes: encode_update(&ops[1..]) });
    let early = encode_message(&ProtocolMessage::Update { bytes: encode_update(&ops[..1]) });
    app.receive_frame(&late, &divide);
    assert_eq!(app.stats().visible_strokes, 0);
    app.receive_frame(&early, &divide);
    assert_eq!(app.stats().visible_strokes, 2);
}
