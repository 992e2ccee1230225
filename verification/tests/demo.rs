//! Two peers on a simulated network, and the texts shown of them.

use vectis_crdt::client::AppPoint;
use vectis_crdt::demo::{
    AppEvent, DemoApp, Direction, NetworkState, PacketStatus, Peer, ALICE_COLOR, BOB_COLOR, MAX_LOG,
};
use vectis_crdt::float::{F32, F64};
use vectis_crdt::labels::{
    delay_label, fmt_bytes, log_html, network_controls, network_label, packet_class, rgb_style, stroke_badge, u32_rgb,
};
use vectis_crdt::stroke::StrokePoint;

fn f(x: f32) -> F32 {
    F32 { bits: x.to_bits() }
}

fn g(x: F32) -> f32 {
    f32::from_bits(x.bits)
}

fn perp_dist(p: StrokePoint, a: StrokePoint, b: StrokePoint) -> F32 {
    let dx = g(b.x) - g(a.x);
    let dy = g(b.y) - g(a.y);
    let len_sq = dx * dx + dy * dy;
    if len_sq < 1e-10 {
        let ex = g(p.x) - g(a.x);
        let ey = g(p.y) - g(a.y);
        return f((ex * ex + ey * ey).sqrt());
    }
    let cross = (dx * (g(a.y) - g(p.y)) - dy * (g(a.x) - g(p.x))).abs();
    f(cross / len_sq.sqrt())
}

fn point(x: f32, y: f32) -> AppPoint {
    AppPoint::new(f(x), f(y), f(1.0))
}

fn draw(app: &mut DemoApp, peer: Peer) -> Vec<AppEvent> {
    app.begin_stroke(peer, point(0.0, 0.0), if peer == Peer::Alice { ALICE_COLOR } else { BOB_COLOR });
    app.extend_stroke(peer, point(5.0, 5.0));
    app.end_stroke(peer, &perp_dist)
}

#[test]
fn a_stroke_becomes_a_packet_and_arrives() {
    let mut app = DemoApp::new();
    let events = draw(&mut app, Peer::Alice);
    let [AppEvent::PacketCreated { id, direction, bytes }] = events.as_slice() else {
        panic!("expected a packet");
    };
    assert_eq!((*id, *direction), (1, Direction::AliceToBob));
    assert_eq!(app.stats().alice_bytes, *bytes);
    assert_eq!((app.stats().alice_visible, app.stats().bob_visible), (1, 0));
    assert_eq!(app.wire_log()[0].status, PacketStatus::Inflight);
    assert!(app.tick(&vec![false]).is_empty());
    let arrived = app.tick(&vec![true]);
    assert!(matches!(arrived.as_slice(), [AppEvent::PacketDelivered { id: 1 }]));
    assert_eq!((app.stats().alice_visible, app.stats().bob_visible), (1, 1));
    assert_eq!(app.stats().total_packets, 1);
    assert_eq!(app.wire_log()[0].status, PacketStatus::Delivered);
    assert_eq!(app.strokes(Peer::Bob)[0].color, ALICE_COLOR);
}

#[test]
fn packets_can_be_handed_over_at_once() {
    let mut app = DemoApp::new();
    draw(&mut app, Peer::Bob);
    draw(&mut app, Peer::Bob);
    assert!(app.deliver(9).is_empty());
    // The second waits for the first.
    assert_eq!(app.deliver(2).len(), 1);
    assert_eq!(app.stats().alice_visible, 0);
    assert_eq!(app.deliver(1).len(), 1);
    assert_eq!(app.stats().alice_visible, 2);
    assert_eq!(app.stats().bob_bytes, app.stats().total_bytes);
}

#[test]
fn a_cut_network_lets_packets_wait() {
    let mut app = DemoApp::new();
    app.toggle_disconnect();
    assert!(draw(&mut app, Peer::Alice).is_empty());
    assert!(draw(&mut app, Peer::Bob).is_empty());
    assert!(draw(&mut app, Peer::Bob).is_empty());
    let stats = app.stats();
    assert_eq!((stats.alice_queued, stats.bob_queued), (1, 2));
    assert_eq!(app.wire_log()[0].status, PacketStatus::Queued);
    app.reconnect_and_sync();
    let stats = app.stats();
    assert_eq!((stats.alice_visible, stats.bob_visible, stats.alice_queued), (3, 3, 0));
    assert!(app.wire_log().iter().all(|e| e.status == PacketStatus::Delivered));
    let shown = |app: &DemoApp, peer| app.strokes(peer).iter().map(|s| s.color).collect::<Vec<_>>();
    assert_eq!(shown(&app, Peer::Alice), shown(&app, Peer::Bob));
    assert_eq!(app.network_state(), NetworkState { delay_ms: 500, disconnected: false });
}

#[test]
fn undo_travels_and_clearing_empties() {
    let mut app = DemoApp::new();
    draw(&mut app, Peer::Alice);
    app.deliver(1);
    assert_eq!(app.stats().alice_undo_depth, 1);
    assert_eq!(app.undo(Peer::Alice).len(), 1);
    assert!(app.undo(Peer::Bob).is_empty());
    app.deliver(2);
    assert_eq!(app.stats().bob_visible, 0);
    app.set_network_delay(0);
    draw(&mut app, Peer::Bob);
    assert_eq!(app.inflight[0].duration, 30);
    app.set_packet_start_time(3, F64 { bits: 7 });
    assert_eq!(app.inflight[0].start_time, F64 { bits: 7 });
    assert!(matches!(app.clear_all().as_slice(), [AppEvent::ClearPackets]));
    assert_eq!((app.inflight.len(), app.wire_log().len(), app.stats().bob_visible), (0, 0, 0));
    assert_eq!(app.network_state().delay_ms, 0);
}

#[test]
fn a_live_stroke_is_shown_and_can_be_dropped() {
    let mut app = DemoApp::new();
    app.extend_stroke(Peer::Alice, point(1.0, 1.0));
    assert!(app.live_stroke(Peer::Alice).is_none());
    app.begin_stroke(Peer::Alice, point(0.0, 0.0), 5);
    let live = app.live_stroke(Peer::Alice).unwrap();
    assert_eq!((live.color, live.points.len()), (5, 1));
    assert!(app.live_stroke(Peer::Bob).is_none());
    app.cancel_stroke(Peer::Alice);
    assert!(app.end_stroke(Peer::Alice, &perp_dist).is_empty());
    app.begin_stroke(Peer::Alice, point(0.0, 0.0), 5);
    assert!(app.end_stroke(Peer::Alice, &perp_dist).is_empty());
    assert_eq!(app.stats().alice_visible, 0);
}

#[test]
fn the_log_of_packets_is_bounded() {
    let mut app = DemoApp::new();
    for _ in 0..MAX_LOG + 3 {
        draw(&mut app, Peer::Alice);
    }
    assert_eq!(app.wire_log().len(), MAX_LOG);
    assert_eq!(app.wire_log()[0].id, Some(MAX_LOG as u32 + 3));
    assert_eq!(app.wire_log()[0].hex.len(), 20);
}

#[test]
fn shown_texts() {
    assert_eq!(u32_rgb(0x11223344), (0x11, 0x22, 0x33));
    assert_eq!(rgb_style(ALICE_COLOR), "rgb(167,139,250)");
    assert_eq!(stroke_badge(0), "0 strokes");
    assert_eq!(stroke_badge(1), "1 stroke");
    assert_eq!(stroke_badge(12), "12 strokes");
    assert_eq!(delay_label(0), "0ms (instant)");
    assert_eq!(delay_label(750), "750ms");
    assert_eq!(network_label(0), "instant");
    assert_eq!(network_label(20), "20ms");
}

#[test]
fn the_log_is_shown_line_by_line() {
    let mut app = DemoApp::new();
    assert_eq!(log_html(app.wire_log()), "");
    draw(&mut app, Peer::Bob);
    let entry = &app.wire_log()[0];
    let expected = format!(
        "<div class=\"log-entry\"><span class=\"log-dir ba\">B-&gt;A</span><span class=\"log-hex\">{} ...</span>\
         <span class=\"log-bytes\">{}B</span><span class=\"log-tag inflight\">in-flight</span></div>",
        entry.hex, entry.bytes
    );
    assert_eq!(log_html(app.wire_log()), expected);
}

#[test]
fn sizes_are_shown_as_floating_point_shows_them() {
    assert_eq!(fmt_bytes(0), "0 B");
    assert_eq!(fmt_bytes(1023), "1023 B");
    assert_eq!(fmt_bytes(1024), "1.0 KB");
    assert_eq!(fmt_bytes(1536), "1.5 KB");
    let mut list: Vec<usize> = (1024..8192).collect();
    for shift in 13..64 {
        for offset in [0usize, 1, 50, 51, 52, 255, 256, 257, 511, 512, 767, 768, 1023] {
            list.push((1usize << shift).wrapping_add(offset));
            list.push((1usize << shift).wrapping_sub(offset + 1));
        }
    }
    for n in list {
        assert_eq!(fmt_bytes(n), format!("{:.1} KB", n as f64 / 1024.0), "{}", n);
    }
}

#[test]
fn controls_show_the_network() {
    let cut = network_controls(true);
    assert_eq!((cut.button, cut.button_class, cut.sync_disabled), ("Reconnect", "btn active", false));
    assert_eq!((cut.dot_class, cut.status), ("status-dot off", "disconnected"));
    let joined = network_controls(false);
    assert_eq!((joined.button, joined.button_class, joined.sync_disabled), ("Disconnect", "btn", true));
    assert_eq!((joined.dot_class, joined.status), ("status-dot", "connected"));
    assert_eq!(packet_class(Direction::AliceToBob), "packet from-alice");
    assert_eq!(packet_class(Direction::BobToAlice), "packet from-bob");
}
