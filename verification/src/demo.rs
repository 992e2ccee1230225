//! Two peers in one place, joined by a network that delays their packets and
//! can be cut.
//!
//! The surroundings keep the time: they say which packets have arrived.

use crate::causal_buffer;
use crate::causal_buffer::CausalBuffer;
use crate::client;
use crate::client::{AppPoint, LiveStroke, StrokeView};
use crate::document;
use crate::document::{Document, DocumentView};
use crate::encoding;
use crate::float::{F32, F64};
use crate::operation;
use crate::operation::OperationView;
use crate::round_trip;
use crate::session;
use crate::session::Edit;
use crate::simplify;
use crate::stroke;
use crate::stroke::{StrokePoint, ToolKind};
use crate::text;
use crate::types::{ActorId, LamportTs, OpId};
use vstd::prelude::*;

verus! {

pub const ALICE_ACTOR: u64 = 1;

pub const BOB_ACTOR: u64 = 2;

pub const ALICE_COLOR: u32 = 0xa78b_faff;

pub const BOB_COLOR: u32 = 0x60a5_fbff;

/// The number of packets that are remembered.
pub const MAX_LOG: usize = 10;

/// The number of bytes of a packet that are shown.
pub const SHOWN_BYTES: usize = 7;

/// The delay to begin with, in milliseconds.
pub const FIRST_DELAY: u32 = 500;

/// The least time that a packet takes, in milliseconds.
pub const LEAST_DELAY: u32 = 30;

/// One of the two peers.
#[derive(Clone, Copy, Debug, PartialEq, Eq, Structural)]
pub enum Peer {
    Alice,
    Bob,
}

/// Which way a packet goes.
#[derive(Clone, Copy, Debug, PartialEq, Eq, Structural)]
pub enum Direction {
    AliceToBob,
    BobToAlice,
}

/// What has become of a packet.
#[derive(Clone, Copy, Debug, PartialEq, Eq, Structural)]
pub enum PacketStatus {
    Inflight,
    Delivered,
    Queued,
}

/// What the surroundings have to show.
#[derive(Clone, Copy, Debug, PartialEq, Eq, Structural)]
pub enum AppEvent {
    PacketCreated { id: u32, direction: Direction, bytes: usize },
    PacketDelivered { id: u32 },
    ClearPackets,
}

/// The state of the network.
#[derive(Clone, Copy, Debug, PartialEq, Eq, Structural)]
pub struct NetworkState {
    pub delay_ms: u32,
    pub disconnected: bool,
}

/// Counts of the two peers.
#[derive(Clone, Copy, Debug, PartialEq, Eq, Structural)]
pub struct AppStats {
    pub alice_visible: usize,
    pub bob_visible: usize,
    pub alice_queued: usize,
    pub bob_queued: usize,
    pub alice_undo_depth: usize,
    pub bob_undo_depth: usize,
    pub total_packets: u32,
    pub total_bytes: usize,
    pub alice_bytes: usize,
    pub bob_bytes: usize,
}

/// The document of a peer, and the operations that wait there.
pub struct PeerDoc {
    pub doc: Document,
    pub buffer: CausalBuffer,
}

/// The contents of a [`PeerDoc`].
#[verifier::ext_equal]
pub struct PeerView {
    pub doc: DocumentView,
    pub held: Seq<OperationView>,
    pub capacity: usize,
}

impl View for PeerDoc {
    type V = PeerView;

    open spec fn view(&self) -> PeerView {
        PeerView { doc: self.doc@, held: self.buffer@, capacity: self.buffer.max_capacity }
    }
}

/// A packet that waits for the network.
pub struct QueuedPacket {
    pub direction: Direction,
    pub payload: Vec<u8>,
}

impl View for QueuedPacket {
    type V = (Direction, Seq<u8>);

    open spec fn view(&self) -> (Direction, Seq<u8>) {
        (self.direction, self.payload@)
    }
}

/// A packet on its way.
pub struct InflightPacket {
    pub id: u32,
    /// When it was sent, by the clock of the surroundings.
    pub start_time: F64,
    /// How long it takes, in milliseconds.
    pub duration: u32,
    pub direction: Direction,
    pub payload: Vec<u8>,
}

/// The contents of an [`InflightPacket`].
#[verifier::ext_equal]
pub struct InflightView {
    pub id: u32,
    pub start_time: F64,
    pub duration: u32,
    pub direction: Direction,
    pub payload: Seq<u8>,
}

impl View for InflightPacket {
    type V = InflightView;

    open spec fn view(&self) -> InflightView {
        InflightView {
            id: self.id,
            start_time: self.start_time,
            duration: self.duration,
            direction: self.direction,
            payload: self.payload@,
        }
    }
}

/// A packet that was sent.
#[derive(Debug)]
pub struct WireEntry {
    pub id: Option<u32>,
    pub direction: Direction,
    pub bytes: usize,
    pub hex: String,
    pub status: PacketStatus,
}

/// The contents of a [`WireEntry`].
#[verifier::ext_equal]
pub struct WireEntryView {
    pub id: Option<u32>,
    pub direction: Direction,
    pub bytes: usize,
    pub hex: Seq<char>,
    pub status: PacketStatus,
}

impl View for WireEntry {
    type V = WireEntryView;

    open spec fn view(&self) -> WireEntryView {
        WireEntryView {
            id: self.id,
            direction: self.direction,
            bytes: self.bytes,
            hex: self.hex@,
            status: self.status,
        }
    }
}

/// Two peers and the network between them.
pub struct DemoApp {
    pub alice: PeerDoc,
    pub bob: PeerDoc,
    pub network_delay: u32,
    pub disconnected: bool,
    pub queued: Vec<QueuedPacket>,
    pub inflight: Vec<InflightPacket>,
    pub next_packet_id: u32,
    pub total_packets: u32,
    pub total_bytes: usize,
    pub alice_bytes: usize,
    pub bob_bytes: usize,
    /// The packets sent, the last one first.
    pub wire_log: Vec<WireEntry>,
    pub live_alice: Option<LiveStroke>,
    pub live_bob: Option<LiveStroke>,
}

/// The contents of a [`DemoApp`].
#[verifier::ext_equal]
pub struct DemoView {
    pub alice: PeerView,
    pub bob: PeerView,
    pub network_delay: u32,
    pub disconnected: bool,
    pub queued: Seq<(Direction, Seq<u8>)>,
    pub inflight: Seq<InflightView>,
    pub next_packet_id: u32,
    pub total_packets: nat,
    pub alice_bytes: nat,
    pub bob_bytes: nat,
    pub wire_log: Seq<WireEntryView>,
    pub live_alice: Option<(u32, Seq<AppPoint>)>,
    pub live_bob: Option<(u32, Seq<AppPoint>)>,
}

/// The view of a stroke that is being drawn, if there is one.
pub open spec fn live_view(live: Option<LiveStroke>) -> Option<(u32, Seq<AppPoint>)> {
    match live {
        Some(stroke) => Some(stroke@),
        None => None,
    }
}

/// The views of packets that wait.
pub open spec fn queue_views(queued: Seq<QueuedPacket>) -> Seq<(Direction, Seq<u8>)> {
    queued.map_values(|p: QueuedPacket| p@)
}

/// The views of packets on their way.
pub open spec fn inflight_views(inflight: Seq<InflightPacket>) -> Seq<InflightView> {
    inflight.map_values(|p: InflightPacket| p@)
}

/// The views of packets that were sent.
pub open spec fn entry_views(log: Seq<WireEntry>) -> Seq<WireEntryView> {
    log.map_values(|e: WireEntry| e@)
}

impl View for DemoApp {
    type V = DemoView;

    open spec fn view(&self) -> DemoView {
        DemoView {
            alice: self.alice@,
            bob: self.bob@,
            network_delay: self.network_delay,
            disconnected: self.disconnected,
            queued: queue_views(self.queued@),
            inflight: inflight_views(self.inflight@),
            next_packet_id: self.next_packet_id,
            total_packets: self.total_packets as nat,
            alice_bytes: self.alice_bytes as nat,
            bob_bytes: self.bob_bytes as nat,
            wire_log: entry_views(self.wire_log@),
            live_alice: live_view(self.live_alice),
            live_bob: live_view(self.live_bob),
        }
    }
}

/// A peer with an empty document.
pub open spec fn fresh_peer(actor: u64) -> PeerView {
    PeerView {
        doc: document::blank(ActorId(actor)),
        held: seq![],
        capacity: causal_buffer::DEFAULT_MAX_CAPACITY,
    }
}

/// Two peers that have drawn nothing.
pub open spec fn started() -> DemoView {
    DemoView {
        alice: fresh_peer(ALICE_ACTOR),
        bob: fresh_peer(BOB_ACTOR),
        network_delay: FIRST_DELAY,
        disconnected: false,
        queued: seq![],
        inflight: seq![],
        next_packet_id: 0,
        total_packets: 0,
        alice_bytes: 0,
        bob_bytes: 0,
        wire_log: seq![],
        live_alice: None,
        live_bob: None,
    }
}

impl DemoView {
    /// The document of a peer.
    pub open spec fn of(self, peer: Peer) -> PeerView {
        match peer {
            Peer::Alice => self.alice,
            Peer::Bob => self.bob,
        }
    }

    /// The demo with another document of a peer.
    pub open spec fn with(self, peer: Peer, view: PeerView) -> DemoView {
        match peer {
            Peer::Alice => DemoView { alice: view, ..self },
            Peer::Bob => DemoView { bob: view, ..self },
        }
    }

    /// The stroke that a peer is drawing.
    pub open spec fn live(self, peer: Peer) -> Option<(u32, Seq<AppPoint>)> {
        match peer {
            Peer::Alice => self.live_alice,
            Peer::Bob => self.live_bob,
        }
    }

    /// The demo with another stroke that a peer is drawing.
    pub open spec fn drawing(self, peer: Peer, live: Option<(u32, Seq<AppPoint>)>) -> DemoView {
        match peer {
            Peer::Alice => DemoView { live_alice: live, ..self },
            Peer::Bob => DemoView { live_bob: live, ..self },
        }
    }
}

/// The way from a peer to the other.
pub open spec fn way_from(peer: Peer) -> Direction {
    match peer {
        Peer::Alice => Direction::AliceToBob,
        Peer::Bob => Direction::BobToAlice,
    }
}

/// The peer that a packet goes to.
pub open spec fn target(direction: Direction) -> Peer {
    match direction {
        Direction::AliceToBob => Peer::Bob,
        Direction::BobToAlice => Peer::Alice,
    }
}

/// A peer after a packet has reached it. What cannot be read changes nothing.
pub open spec fn fed(peer: PeerView, payload: Seq<u8>) -> PeerView {
    match encoding::parse_update(payload) {
        Ok(ops) => {
            let (doc, held, _) = causal_buffer::taken(peer.doc, peer.held, peer.capacity, ops);
            PeerView { doc, held, ..peer }
        },
        Err(_) => peer,
    }
}

/// The demo after a packet has reached its peer.
pub open spec fn delivered(s: DemoView, direction: Direction, payload: Seq<u8>) -> DemoView {
    let t = s.with(target(direction), fed(s.of(target(direction)), payload));
    DemoView { total_packets: s.total_packets + 1, ..t }
}

/// A log after one more entry: the last one comes first, the oldest goes.
pub open spec fn noted(log: Seq<WireEntryView>, entry: WireEntryView) -> Seq<WireEntryView> {
    let longer = log.insert(0, entry);
    if longer.len() > MAX_LOG {
        longer.drop_last()
    } else {
        longer
    }
}

/// Where the first entry of a packet stands in the log; the length of the log
/// where there is none.
pub open spec fn entry_at(log: Seq<WireEntryView>, id: u32) -> int
    decreases log.len(),
{
    if log.len() == 0 {
        0
    } else if log[0].id == Some(id) {
        0
    } else {
        1 + entry_at(log.drop_first(), id)
    }
}

/// A log after a packet has been marked as delivered.
pub open spec fn marked(log: Seq<WireEntryView>, id: u32) -> Seq<WireEntryView> {
    let at = entry_at(log, id);
    if at < log.len() {
        log.update(at, WireEntryView { status: PacketStatus::Delivered, ..log[at] })
    } else {
        log
    }
}

/// A log after all packets that waited have been marked as delivered.
pub open spec fn all_marked(log: Seq<WireEntryView>) -> Seq<WireEntryView> {
    log.map_values(
        |e: WireEntryView|
            if e.status == PacketStatus::Queued {
                WireEntryView { status: PacketStatus::Delivered, ..e }
            } else {
                e
            },
    )
}

/// The first bytes of a packet in hexadecimal.
pub open spec fn hex_of(payload: Seq<u8>) -> Seq<char> {
    text::hex_list(payload.take(if payload.len() < SHOWN_BYTES { payload.len() as int } else { SHOWN_BYTES as int }))
}

/// How long a packet takes.
pub open spec fn duration_of(delay: u32) -> u32 {
    if delay < LEAST_DELAY {
        LEAST_DELAY
    } else {
        delay
    }
}

/// The demo after a peer has sent a packet: it waits while the network is cut,
/// and is on its way otherwise.
pub open spec fn posted(s: DemoView, from: Peer, payload: Seq<u8>) -> (DemoView, Seq<AppEvent>) {
    let direction = way_from(from);
    let bytes = payload.len();
    let t = match from {
        Peer::Alice => DemoView { alice_bytes: s.alice_bytes + bytes, ..s },
        Peer::Bob => DemoView { bob_bytes: s.bob_bytes + bytes, ..s },
    };
    if s.disconnected {
        (
            DemoView {
                queued: s.queued.push((direction, payload)),
                wire_log: noted(
                    s.wire_log,
                    WireEntryView {
                        id: None,
                        direction,
                        bytes: bytes as usize,
                        hex: hex_of(payload),
                        status: PacketStatus::Queued,
                    },
                ),
                ..t
            },
            seq![],
        )
    } else {
        let id = (s.next_packet_id + 1) as u32;
        (
            DemoView {
                next_packet_id: id,
                inflight: s.inflight.push(
                    InflightView {
                        id,
                        start_time: F64 { bits: 0 },
                        duration: duration_of(s.network_delay),
                        direction,
                        payload,
                    },
                ),
                wire_log: noted(
                    s.wire_log,
                    WireEntryView {
                        id: Some(id),
                        direction,
                        bytes: bytes as usize,
                        hex: hex_of(payload),
                        status: PacketStatus::Inflight,
                    },
                ),
                ..t
            },
            seq![AppEvent::PacketCreated { id, direction, bytes: bytes as usize }],
        )
    }
}

/// Whether a packet of that length can be counted and numbered.
pub open spec fn postable(s: DemoView, bytes: nat) -> bool {
    &&& s.alice_bytes + s.bob_bytes + bytes <= usize::MAX
    &&& !s.disconnected ==> s.next_packet_id < u32::MAX
}

/// The demo after a peer has sent its operations, if there are any.
pub open spec fn flushed(s: DemoView, peer: Peer) -> (DemoView, Seq<AppEvent>) {
    let p = s.of(peer);
    if p.doc.pending.len() == 0 {
        (s, seq![])
    } else {
        posted(
            s.with(peer, PeerView { doc: DocumentView { pending: seq![], ..p.doc }, ..p }),
            peer,
            encoding::update_blob(p.doc.pending),
        )
    }
}

/// The demo after a stroke has been drawn, before it is sent.
pub open spec fn drawn(
    s: DemoView,
    peer: Peer,
    stroke: (u32, Seq<AppPoint>),
    d: spec_fn(StrokePoint, StrokePoint, StrokePoint) -> F32,
) -> DemoView {
    let p = s.of(peer);
    s.with(peer, PeerView { doc: client::drawn_in(p.doc, stroke.0, stroke.1, d), ..p })
}

/// The demo after a stroke is finished. One of fewer than two points is
/// dropped.
pub open spec fn ended(s: DemoView, peer: Peer, d: spec_fn(StrokePoint, StrokePoint, StrokePoint) -> F32) -> (
    DemoView,
    Seq<AppEvent>,
) {
    let rest = s.drawing(peer, None);
    match s.live(peer) {
        Some(stroke) if stroke.1.len() >= 2 => flushed(drawn(rest, peer, stroke, d), peer),
        _ => (rest, seq![]),
    }
}

/// The demo after the last stroke of a peer has been undone.
pub open spec fn undone(s: DemoView, peer: Peer) -> (DemoView, Seq<AppEvent>) {
    let p = s.of(peer);
    let (doc, id) = document::undone(p.doc);
    let t = s.with(peer, PeerView { doc, ..p });
    if id is Some {
        flushed(t, peer)
    } else {
        (t, seq![])
    }
}

/// The demo after the packet at `i` has arrived.
pub open spec fn arrived(s: DemoView, i: int) -> DemoView {
    let p = s.inflight[i];
    let t = delivered(DemoView { inflight: s.inflight.remove(i), ..s }, p.direction, p.payload);
    DemoView { wire_log: marked(s.wire_log, p.id), ..t }
}

/// The demo after those of the first `n` packets that have arrived have been
/// handed over, the last one first.
pub open spec fn ticked(s: DemoView, there: Seq<bool>, n: int) -> (DemoView, Seq<AppEvent>)
    decreases n,
{
    if n <= 0 {
        (s, seq![])
    } else if there[n - 1] {
        let (t, events) = ticked(arrived(s, n - 1), there, n - 1);
        (t, seq![AppEvent::PacketDelivered { id: s.inflight[n - 1].id }] + events)
    } else {
        ticked(s, there, n - 1)
    }
}

/// The demo after the first `n` packets that waited have been handed over.
pub open spec fn drained(s: DemoView, packets: Seq<(Direction, Seq<u8>)>, n: int) -> DemoView
    decreases n,
{
    if n <= 0 {
        s
    } else {
        let t = drained(s, packets, n - 1);
        delivered(t, packets[n - 1].0, packets[n - 1].1)
    }
}

/// The demo after the network is back and all that waited has been handed over.
pub open spec fn reconnected(s: DemoView) -> DemoView {
    let t = DemoView { disconnected: false, queued: seq![], ..s };
    let u = drained(t, s.queued, s.queued.len() as int);
    DemoView { wire_log: all_marked(s.wire_log), ..u }
}

/// The demo after everything has been cleared, but for the state of the
/// network and the numbering of packets.
pub open spec fn cleared(s: DemoView) -> DemoView {
    DemoView {
        network_delay: s.network_delay,
        disconnected: s.disconnected,
        next_packet_id: s.next_packet_id,
        ..started()
    }
}

/// The number of packets that wait to go a way.
pub open spec fn waiting(queued: Seq<(Direction, Seq<u8>)>, direction: Direction) -> nat
    decreases queued.len(),
{
    if queued.len() == 0 {
        0
    } else {
        waiting(queued.drop_last(), direction) + if queued.last().0 == direction {
            1nat
        } else {
            0nat
        }
    }
}

impl PeerDoc {
    pub fn new(actor_id: u64) -> (peer: Self)
        ensures
            peer.doc.wf(),
            peer@ == fresh_peer(actor_id),
    {
        PeerDoc { doc: Document::new(ActorId(actor_id)), buffer: CausalBuffer::new() }
    }

    /// Takes in a packet.
    fn feed(&mut self, payload: &Vec<u8>)
        requires
            old(self).doc.wf(),
        ensures
            final(self).doc.wf(),
            final(self)@ == fed(old(self)@, payload@),
    {
        match encoding::decode_update(payload.as_slice()) {
            Ok(ops) => {
                self.doc.take_in(&ops, &mut self.buffer);
            },
            Err(_) => {},
        }
    }
}

/// Where the first entry of a packet stands in the log.
fn find_entry(log: &Vec<WireEntry>, id: u32) -> (at: Option<usize>)
    ensures
        match at {
            Some(i) => i < log@.len() && entry_at(entry_views(log@), id) == i,
            None => entry_at(entry_views(log@), id) >= log@.len(),
        },
{
    let ghost all = entry_views(log@);
    let mut i: usize = 0;
    proof {
        assert(all.skip(0) =~= all);
    }
    while i < log.len()
        invariant
            i <= log@.len(),
            all == entry_views(log@),
            entry_at(all, id) == i + entry_at(all.skip(i as int), id),
        decreases log@.len() - i,
    {
        proof {
            assert(all.skip(i as int)[0] == log@[i as int]@);
            assert(all.skip(i as int).drop_first() =~= all.skip(i + 1));
        }
        let found = match log[i].id {
            Some(known) => known == id,
            None => false,
        };
        if found {
            return Some(i);
        }
        i += 1;
    }
    proof {
        assert(all.skip(i as int) =~= seq![]);
    }
    None
}

impl DemoApp {
    /// The documents are valid, and the bytes of both peers add up.
    pub open spec fn wf(&self) -> bool {
        &&& self.alice.doc.wf()
        &&& self.bob.doc.wf()
        &&& self.total_bytes == self.alice_bytes + self.bob_bytes
    }

    pub fn new() -> (app: Self)
        ensures
            app.wf(),
            app@ == started(),
    {
        let app = DemoApp {
            alice: PeerDoc::new(ALICE_ACTOR),
            bob: PeerDoc::new(BOB_ACTOR),
            network_delay: FIRST_DELAY,
            disconnected: false,
            queued: Vec::new(),
            inflight: Vec::new(),
            next_packet_id: 0,
            total_packets: 0,
            total_bytes: 0,
            alice_bytes: 0,
            bob_bytes: 0,
            wire_log: Vec::new(),
            live_alice: None,
            live_bob: None,
        };
        proof {
            assert(app@ =~= started());
        }
        app
    }

    /// Begins a stroke of a peer.
    pub fn begin_stroke(&mut self, peer: Peer, point: AppPoint, color: u32)
        requires
            old(self).wf(),
        ensures
            final(self).wf(),
            final(self)@ == old(self)@.drawing(peer, Some((color, seq![point]))),
    {
        let mut points: Vec<AppPoint> = Vec::new();
        points.push(point);
        proof {
            assert(points@ =~= seq![point]);
        }
        let stroke = LiveStroke { color, points };
        match peer {
            Peer::Alice => {
                self.live_alice = Some(stroke);
            },
            Peer::Bob => {
                self.live_bob = Some(stroke);
            },
        }
    }

    /// Goes on with a stroke of a peer.
    pub fn extend_stroke(&mut self, peer: Peer, point: AppPoint)
        requires
            old(self).wf(),
        ensures
            final(self).wf(),
            final(self)@ == (match old(self)@.live(peer) {
                Some((color, points)) => old(self)@.drawing(peer, Some((color, points.push(point)))),
                None => old(self)@,
            }),
    {
        match peer {
            Peer::Alice => {
                match &mut self.live_alice {
                    Some(stroke) => {
                        stroke.points.push(point);
                    },
                    None => {},
                }
            },
            Peer::Bob => {
                match &mut self.live_bob {
                    Some(stroke) => {
                        stroke.points.push(point);
                    },
                    None => {},
                }
            },
        }
    }

    /// Drops a stroke of a peer.
    pub fn cancel_stroke(&mut self, peer: Peer)
        requires
            old(self).wf(),
        ensures
            final(self).wf(),
            final(self)@ == old(self)@.drawing(peer, None),
    {
        match peer {
            Peer::Alice => {
                self.live_alice = None;
            },
            Peer::Bob => {
                self.live_bob = None;
            },
        }
    }

    /// Finishes a stroke of a peer, and sends it.
    pub fn end_stroke<D: Fn(StrokePoint, StrokePoint, StrokePoint) -> F32>(&mut self, peer: Peer, distance: &D) -> (
    events: Vec<AppEvent>)
        requires
            old(self).wf(),
            old(self)@.of(peer).doc.clock < u64::MAX,
            old(self)@.of(peer).doc.items.len() < usize::MAX,
            simplify::well_defined(*distance),
            old(self)@.live(peer) matches Some(stroke) ==> postable(
                old(self)@,
                encoding::update_blob(
                    drawn(old(self)@, peer, stroke, simplify::measure(*distance)).of(peer).doc.pending,
                ).len(),
            ),
        ensures
            final(self).wf(),
            (final(self)@, events@) == ended(old(self)@, peer, simplify::measure(*distance)),
    {
        let mut taken: Option<LiveStroke> = None;
        match peer {
            Peer::Alice => {
                std::mem::swap(&mut taken, &mut self.live_alice);
            },
            Peer::Bob => {
                std::mem::swap(&mut taken, &mut self.live_bob);
            },
        }
        match taken {
            Some(stroke) => {
                if stroke.points.len() >= 2 {
                    match peer {
                        Peer::Alice => {
                            client::draw_into(&mut self.alice.doc, &stroke, distance);
                        },
                        Peer::Bob => {
                            client::draw_into(&mut self.bob.doc, &stroke, distance);
                        },
                    }
                    return self.flush(peer);
                }
            },
            None => {},
        }
        let events: Vec<AppEvent> = Vec::new();
        proof {
            assert(events@ =~= seq![]);
        }
        events
    }

    /// Sends the operations of a peer.
    fn flush(&mut self, peer: Peer) -> (events: Vec<AppEvent>)
        requires
            old(self).wf(),
            postable(old(self)@, encoding::update_blob(old(self)@.of(peer).doc.pending).len()),
        ensures
            final(self).wf(),
            (final(self)@, events@) == flushed(old(self)@, peer),
    {
        let ops = match peer {
            Peer::Alice => self.alice.doc.take_pending_ops(),
            Peer::Bob => self.bob.doc.take_pending_ops(),
        };
        proof {
            assert(operation::views(ops@).len() == ops@.len());
        }
        if ops.len() == 0 {
            let events: Vec<AppEvent> = Vec::new();
            proof {
                assert(self@.of(peer).doc =~= old(self)@.of(peer).doc);
                assert(events@ =~= seq![]);
            }
            return events;
        }
        let payload = encoding::encode_update(ops.as_slice());
        self.send_packet(peer, payload)
    }

    /// Appends an entry to the log.
    fn log_entry(&mut self, entry: WireEntry)
        requires
            old(self).wf(),
        ensures
            final(self).wf(),
            final(self)@ == (DemoView { wire_log: noted(old(self)@.wire_log, entry@), ..old(self)@ }),
    {
        let ghost before = self.wire_log@;
        let ghost e = entry@;
        self.wire_log.insert(0, entry);
        proof {
            assert(entry_views(self.wire_log@) =~= entry_views(before).insert(0, e));
        }
        let ghost longer = self.wire_log@;
        if self.wire_log.len() > MAX_LOG {
            self.wire_log.pop();
            proof {
                assert(entry_views(self.wire_log@) =~= entry_views(longer).drop_last());
            }
        }
    }

    /// Sends a packet of a peer.
    fn send_packet(&mut self, from_peer: Peer, payload: Vec<u8>) -> (events: Vec<AppEvent>)
        requires
            old(self).wf(),
            postable(old(self)@, payload@.len()),
        ensures
            final(self).wf(),
            (final(self)@, events@) == posted(old(self)@, from_peer, payload@),
    {
        let ghost sent = payload@;
        let direction = match from_peer {
            Peer::Alice => Direction::AliceToBob,
            Peer::Bob => Direction::BobToAlice,
        };
        let hex = text::hex_text(payload.as_slice(), SHOWN_BYTES);
        let bytes: usize = payload.len();
        self.total_bytes = self.total_bytes + bytes;
        match from_peer {
            Peer::Alice => {
                self.alice_bytes = self.alice_bytes + bytes;
            },
            Peer::Bob => {
                self.bob_bytes = self.bob_bytes + bytes;
            },
        }
        let mut events: Vec<AppEvent> = Vec::new();
        if self.disconnected {
            let ghost before = self.queued@;
            self.queued.push(QueuedPacket { direction, payload });
            proof {
                assert(queue_views(self.queued@) =~= queue_views(before).push((direction, sent)));
            }
            self.log_entry(WireEntry { id: None, direction, bytes, hex, status: PacketStatus::Queued });
            proof {
                assert(events@ =~= seq![]);
            }
            return events;
        }
        self.next_packet_id = self.next_packet_id + 1;
        let id: u32 = self.next_packet_id;
        let duration: u32 = if self.network_delay < LEAST_DELAY {
            LEAST_DELAY
        } else {
            self.network_delay
        };
        self.log_entry(WireEntry { id: Some(id), direction, bytes, hex, status: PacketStatus::Inflight });
        let ghost before = self.inflight@;
        let packet = InflightPacket { id, start_time: F64 { bits: 0 }, duration, direction, payload };
        let ghost p = packet@;
        self.inflight.push(packet);
        proof {
            assert(inflight_views(self.inflight@) =~= inflight_views(before).push(p));
        }
        events.push(AppEvent::PacketCreated { id, direction, bytes });
        proof {
            assert(events@ =~= seq![AppEvent::PacketCreated { id, direction, bytes }]);
        }
        events
    }

    /// Notes when a packet was sent. A packet that is not on its way is passed
    /// over.
    pub fn set_packet_start_time(&mut self, id: u32, start_time: F64)
        requires
            old(self).wf(),
        ensures
            final(self).wf(),
            final(self)@ == (DemoView {
                inflight: old(self)@.inflight.map_values(
                    |p: InflightView|
                        if p.id == id {
                            InflightView { start_time, ..p }
                        } else {
                            p
                        },
                ),
                ..old(self)@
            }),
    {
        let ghost was = old(self)@.inflight;
        let mut i: usize = 0;
        while i < self.inflight.len()
            invariant
                i <= self.inflight@.len(),
                self.wf(),
                was == old(self)@.inflight,
                self.inflight@.len() == was.len(),
                self@ == (DemoView { inflight: self@.inflight, ..old(self)@ }),
                forall|j: int|
                    0 <= j < i ==> #[trigger] self@.inflight[j] == (if was[j].id == id {
                        InflightView { start_time, ..was[j] }
                    } else {
                        was[j]
                    }),
                forall|j: int| i <= j < was.len() ==> #[trigger] self@.inflight[j] == was[j],
            decreases self.inflight@.len() - i,
        {
            let ghost before = self@.inflight;
            assert(before[i as int] == self.inflight@[i as int]@);
            if self.inflight[i].id == id {
                self.inflight[i].start_time = start_time;
                proof {
                    assert(self@.inflight =~= before.update(i as int, InflightView { start_time, ..before[i as int] }));
                }
            }
            i += 1;
        }
        proof {
            assert(self@.inflight =~= was.map_values(
                |p: InflightView|
                    if p.id == id {
                        InflightView { start_time, ..p }
                    } else {
                        p
                    },
            ));
        }
    }

    /// Hands a packet over to its peer.
    fn apply_to_target(&mut self, direction: Direction, payload: &Vec<u8>)
        requires
            old(self).wf(),
            old(self)@.total_packets < u32::MAX,
        ensures
            final(self).wf(),
            final(self)@ == delivered(old(self)@, direction, payload@),
    {
        match direction {
            Direction::AliceToBob => {
                self.bob.feed(payload);
            },
            Direction::BobToAlice => {
                self.alice.feed(payload);
            },
        }
        self.total_packets = self.total_packets + 1;
    }

    /// Marks a packet in the log as delivered.
    fn mark_log(&mut self, id: u32)
        requires
            old(self).wf(),
        ensures
            final(self).wf(),
            final(self)@ == (DemoView { wire_log: marked(old(self)@.wire_log, id), ..old(self)@ }),
    {
        match find_entry(&self.wire_log, id) {
            Some(i) => {
                let ghost before = self@.wire_log;
                assert(before[i as int] == self.wire_log@[i as int]@);
                self.wire_log[i].status = PacketStatus::Delivered;
                proof {
                    assert(self@.wire_log =~= marked(before, id));
                }
            },
            None => {},
        }
    }

    /// The packet at `at` has arrived.
    fn arrive(&mut self, at: usize) -> (id: u32)
        requires
            old(self).wf(),
            at < old(self)@.inflight.len(),
            old(self)@.total_packets < u32::MAX,
        ensures
            final(self).wf(),
            id == old(self)@.inflight[at as int].id,
            final(self)@ == arrived(old(self)@, at as int),
    {
        let ghost was = self@;
        assert(was.inflight[at as int] == self.inflight@[at as int]@);
        let packet = self.inflight.remove(at);
        proof {
            assert(self@.inflight =~= was.inflight.remove(at as int));
        }
        self.apply_to_target(packet.direction, &packet.payload);
        self.mark_log(packet.id);
        packet.id
    }

    /// Hands over the packets that have arrived: `there[i]` says whether the
    /// packet `i` on its way has.
    pub fn tick(&mut self, there: &Vec<bool>) -> (events: Vec<AppEvent>)
        requires
            old(self).wf(),
            there@.len() == old(self)@.inflight.len(),
            old(self)@.total_packets + old(self)@.inflight.len() <= u32::MAX,
        ensures
            final(self).wf(),
            (final(self)@, events@) == ticked(old(self)@, there@, there@.len() as int),
    {
        let mut events: Vec<AppEvent> = Vec::new();
        let ghost goal = ticked(old(self)@, there@, there@.len() as int);
        let mut n: usize = there.len();
        proof {
            assert(events@ + ticked(self@, there@, n as int).1 =~= goal.1);
        }
        while n > 0
            invariant
                n <= there@.len(),
                self.wf(),
                n <= self@.inflight.len(),
                self@.total_packets + n <= u32::MAX,
                ticked(self@, there@, n as int).0 == goal.0,
                events@ + ticked(self@, there@, n as int).1 == goal.1,
            decreases n,
        {
            let ghost before = self@;
            let ghost said = events@;
            n = n - 1;
            if there[n] {
                let id: u32 = self.arrive(n);
                events.push(AppEvent::PacketDelivered { id });
                proof {
                    let rest = ticked(self@, there@, n as int).1;
                    assert(ticked(before, there@, n + 1).1 == seq![AppEvent::PacketDelivered { id }] + rest);
                    assert(events@ + rest =~= said + ticked(before, there@, n + 1).1);
                }
            }
        }
        proof {
            assert(events@ =~= goal.1);
        }
        events
    }

    /// Hands over one packet at once.
    pub fn deliver(&mut self, id: u32) -> (events: Vec<AppEvent>)
        requires
            old(self).wf(),
            old(self)@.total_packets < u32::MAX,
        ensures
            final(self).wf(),
            match first_with(old(self)@.inflight, id) {
                Some(at) => final(self)@ == arrived(old(self)@, at) && events@ == seq![
                    AppEvent::PacketDelivered { id },
                ],
                None => final(self)@ == old(self)@ && events@.len() == 0,
            },
    {
        let mut events: Vec<AppEvent> = Vec::new();
        let ghost all = self@.inflight;
        let mut i: usize = 0;
        while i < self.inflight.len()
            invariant
                i <= self.inflight@.len(),
                self.wf(),
                self@ == old(self)@,
                self@.total_packets < u32::MAX,
                all == self@.inflight,
                events@.len() == 0,
                forall|j: int| 0 <= j < i ==> (#[trigger] all[j]).id != id,
            decreases self.inflight@.len() - i,
        {
            assert(all[i as int] == self.inflight@[i as int]@);
            if self.inflight[i].id == id {
                proof {
                    lemma_first_with(all, id, i as int);
                }
                let known: u32 = self.arrive(i);
                events.push(AppEvent::PacketDelivered { id: known });
                proof {
                    assert(events@ =~= seq![AppEvent::PacketDelivered { id }]);
                }
                return events;
            }
            i += 1;
        }
        events
    }

    /// Hands over all packets that waited.
    fn sync_now(&mut self)
        requires
            old(self).wf(),
            old(self)@.total_packets + old(self)@.queued.len() <= u32::MAX,
        ensures
            final(self).wf(),
            ({
                let t = DemoView { queued: seq![], ..old(self)@ };
                let u = drained(t, old(self)@.queued, old(self)@.queued.len() as int);
                final(self)@ == DemoView { wire_log: all_marked(old(self)@.wire_log), ..u }
            }),
    {
        let ghost packets = self@.queued;
        let ghost first = DemoView { queued: seq![], ..old(self)@ };
        let mut queued: Vec<QueuedPacket> = Vec::new();
        std::mem::swap(&mut queued, &mut self.queued);
        proof {
            assert(self@.queued =~= seq![]);
            assert(self@ == first);
        }
        let mut i: usize = 0;
        while i < queued.len()
            invariant
                i <= queued@.len(),
                packets == queue_views(queued@),
                self.wf(),
                self@.total_packets + queued@.len() - i <= u32::MAX,
                self@ == drained(first, packets, i as int),
                self@.wire_log == old(self)@.wire_log,
            decreases queued@.len() - i,
        {
            assert(packets[i as int] == queued@[i as int]@);
            self.apply_to_target(queued[i].direction, &queued[i].payload);
            i += 1;
        }
        let ghost log = self@.wire_log;
        let ghost rest = self@;
        let mut k: usize = 0;
        while k < self.wire_log.len()
            invariant
                k <= self.wire_log@.len(),
                self.wf(),
                self.wire_log@.len() == log.len(),
                self@ == (DemoView { wire_log: self@.wire_log, ..rest }),
                forall|j: int| 0 <= j < k ==> #[trigger] self@.wire_log[j] == all_marked(log)[j],
                forall|j: int| k <= j < log.len() ==> #[trigger] self@.wire_log[j] == log[j],
            decreases self.wire_log@.len() - k,
        {
            let ghost before = self@.wire_log;
            assert(before[k as int] == self.wire_log@[k as int]@);
            if self.wire_log[k].status == PacketStatus::Queued {
                self.wire_log[k].status = PacketStatus::Delivered;
                proof {
                    assert(self@.wire_log =~= before.update(
                        k as int,
                        WireEntryView { status: PacketStatus::Delivered, ..before[k as int] },
                    ));
                }
            }
            k += 1;
        }
        proof {
            assert(self@.wire_log =~= all_marked(log));
        }
    }

    /// Undoes the last stroke of a peer, and tells the other.
    pub fn undo(&mut self, peer: Peer) -> (events: Vec<AppEvent>)
        requires
            old(self).wf(),
            document::undo_fits(old(self)@.of(peer).doc),
            postable(
                old(self)@,
                encoding::update_blob(document::undone(old(self)@.of(peer).doc).0.pending).len(),
            ),
        ensures
            final(self).wf(),
            (final(self)@, events@) == undone(old(self)@, peer),
    {
        let gone = match peer {
            Peer::Alice => self.alice.doc.undo_last_stroke(),
            Peer::Bob => self.bob.doc.undo_last_stroke(),
        };
        if gone.is_some() {
            return self.flush(peer);
        }
        let events: Vec<AppEvent> = Vec::new();
        proof {
            assert(events@ =~= seq![]);
        }
        events
    }

    /// Clears both documents, the packets, the counts and the log.
    pub fn clear_all(&mut self) -> (events: Vec<AppEvent>)
        ensures
            final(self).wf(),
            final(self)@ == cleared(old(self)@),
            events@ == seq![AppEvent::ClearPackets],
    {
        self.queued = Vec::new();
        self.inflight = Vec::new();
        self.total_packets = 0;
        self.total_bytes = 0;
        self.alice_bytes = 0;
        self.bob_bytes = 0;
        self.wire_log = Vec::new();
        self.live_alice = None;
        self.live_bob = None;
        self.alice = PeerDoc::new(ALICE_ACTOR);
        self.bob = PeerDoc::new(BOB_ACTOR);
        proof {
            assert(self@ =~= cleared(old(self)@));
        }
        let mut events: Vec<AppEvent> = Vec::new();
        events.push(AppEvent::ClearPackets);
        proof {
            assert(events@ =~= seq![AppEvent::ClearPackets]);
        }
        events
    }

    pub fn set_network_delay(&mut self, delay: u32)
        requires
            old(self).wf(),
        ensures
            final(self).wf(),
            final(self)@ == (DemoView { network_delay: delay, ..old(self)@ }),
    {
        self.network_delay = delay;
    }

    /// Cuts the network, or joins it again. What waits goes on waiting.
    pub fn toggle_disconnect(&mut self)
        requires
            old(self).wf(),
        ensures
            final(self).wf(),
            final(self)@ == (DemoView { disconnected: !old(self)@.disconnected, ..old(self)@ }),
    {
        self.disconnected = !self.disconnected;
    }

    /// Joins the network again, and hands over all that waited.
    pub fn reconnect_and_sync(&mut self)
        requires
            old(self).wf(),
            old(self)@.total_packets + old(self)@.queued.len() <= u32::MAX,
        ensures
            final(self).wf(),
            final(self)@ == reconnected(old(self)@),
    {
        self.disconnected = false;
        self.sync_now();
    }

    pub fn network_state(&self) -> (state: NetworkState)
        ensures
            state == (NetworkState { delay_ms: self@.network_delay, disconnected: self@.disconnected }),
    {
        NetworkState { delay_ms: self.network_delay, disconnected: self.disconnected }
    }

    /// The visible strokes of a peer, bottom to top.
    pub fn strokes(&self, peer: Peer) -> (list: Vec<StrokeView>)
        ensures
            list@.map_values(|v: StrokeView| v@) == client::pictures(
                document::visible_ids(self@.of(peer).doc.items),
                self@.of(peer).doc.strokes,
            ),
    {
        match peer {
            Peer::Alice => client::visible_strokes(&self.alice.doc),
            Peer::Bob => client::visible_strokes(&self.bob.doc),
        }
    }

    /// The stroke that a peer is drawing.
    pub fn live_stroke(&self, peer: Peer) -> (shown: Option<StrokeView>)
        ensures
            match self@.live(peer) {
                Some(stroke) => shown matches Some(v) && v@ == client::live_picture(stroke),
                None => shown is None,
            },
    {
        let live = match peer {
            Peer::Alice => &self.live_alice,
            Peer::Bob => &self.live_bob,
        };
        match live {
            Some(stroke) => Some(client::show_live(stroke)),
            None => None,
        }
    }

    /// The number of packets that wait to go a way.
    fn count_waiting(&self, direction: Direction) -> (n: usize)
        ensures
            n == waiting(self@.queued, direction),
    {
        let ghost all = self@.queued;
        let mut n: usize = 0;
        let mut i: usize = 0;
        proof {
            assert(all.take(0) =~= seq![]);
        }
        while i < self.queued.len()
            invariant
                i <= self.queued@.len(),
                n <= i,
                all == self@.queued,
                n == waiting(all.take(i as int), direction),
            decreases self.queued@.len() - i,
        {
            proof {
                assert(all.take(i + 1).drop_last() =~= all.take(i as int));
                assert(all.take(i + 1).last() == self.queued@[i as int]@);
            }
            if self.queued[i].direction == direction {
                n += 1;
            }
            i += 1;
        }
        proof {
            assert(all.take(i as int) =~= all);
        }
        n
    }

    /// Counts of the two peers.
    pub fn stats(&self) -> (stats: AppStats)
        requires
            self.wf(),
        ensures
            stats.alice_visible == document::visible_ids(self@.alice.doc.items).len(),
            stats.bob_visible == document::visible_ids(self@.bob.doc.items).len(),
            stats.alice_queued == waiting(self@.queued, Direction::AliceToBob),
            stats.bob_queued == waiting(self@.queued, Direction::BobToAlice),
            stats.alice_undo_depth == self@.alice.doc.undo.len(),
            stats.bob_undo_depth == self@.bob.doc.undo.len(),
            stats.total_packets == self@.total_packets,
            stats.total_bytes == self@.alice_bytes + self@.bob_bytes,
            stats.alice_bytes == self@.alice_bytes,
            stats.bob_bytes == self@.bob_bytes,
    {
        AppStats {
            alice_visible: self.alice.doc.visible_stroke_ids().len(),
            bob_visible: self.bob.doc.visible_stroke_ids().len(),
            alice_queued: self.count_waiting(Direction::AliceToBob),
            bob_queued: self.count_waiting(Direction::BobToAlice),
            alice_undo_depth: self.alice.doc.undo_depth(),
            bob_undo_depth: self.bob.doc.undo_depth(),
            total_packets: self.total_packets,
            total_bytes: self.total_bytes,
            alice_bytes: self.alice_bytes,
            bob_bytes: self.bob_bytes,
        }
    }

    /// The packets sent, the last one first.
    pub fn wire_log(&self) -> (log: &[WireEntry])
        ensures
            entry_views(log@) == self@.wire_log,
    {
        self.wire_log.as_slice()
    }
}

/// Where the first packet of that number stands.
pub open spec fn first_with(packets: Seq<InflightView>, id: u32) -> Option<int> {
    if exists|i: int| #[trigger] is_first(packets, id, i) {
        Some(choose|i: int| #[trigger] is_first(packets, id, i))
    } else {
        None
    }
}

/// Whether the packet at `i` is the first of that number.
pub open spec fn is_first(packets: Seq<InflightView>, id: u32, i: int) -> bool {
    &&& 0 <= i < packets.len()
    &&& packets[i].id == id
    &&& forall|j: int| 0 <= j < i ==> (#[trigger] packets[j]).id != id
}

proof fn lemma_first_with(packets: Seq<InflightView>, id: u32, i: int)
    requires
        is_first(packets, id, i),
    ensures
        first_with(packets, id) == Some(i),
{
    let k = choose|k: int| #[trigger] is_first(packets, id, k);
    if k < i {
        assert(packets[k].id == id);
    }
    if i < k {
        assert(packets[i].id == id);
    }
}

/// What one peer sends reaches the other: there it is taken in through the
/// buffer if it can be read, and is counted. Nothing else changes.
pub proof fn law_packets_reach_the_other_peer(s: DemoView, from: Peer, payload: Seq<u8>)
    ensures
        ({
            let t = delivered(s, way_from(from), payload);
            let (was, now) = match from {
                Peer::Alice => (s.bob, t.bob),
                Peer::Bob => (s.alice, t.alice),
            };
            let ops = encoding::parse_update(payload);
            &&& from == Peer::Alice ==> t.alice == s.alice
            &&& from == Peer::Bob ==> t.bob == s.bob
            &&& ops is Err ==> now == was
            &&& ops is Ok ==> {
                let (doc, held, _) = causal_buffer::taken(was.doc, was.held, was.capacity, ops->Ok_0);
                now.doc == doc && now.held == held && now.capacity == was.capacity
            }
            &&& t == (DemoView { alice: t.alice, bob: t.bob, total_packets: s.total_packets + 1, ..s })
        }),
{
}

/// A packet waits while the network is down. Otherwise it is on its way under a
/// number of its own, for as long as the network takes and never for less than
/// thirty milliseconds, and the surroundings are told. Either way it is as it
/// was sent, comes behind those before it, counts for its sender, is logged
/// first, and has changed neither document.
pub proof fn law_packets_wait_or_are_on_their_way(s: DemoView, from: Peer, payload: Seq<u8>)
    requires
        s.next_packet_id < u32::MAX,
        payload.len() <= usize::MAX,
    ensures
        ({
            let (t, events) = posted(s, from, payload);
            let way = match from {
                Peer::Alice => Direction::AliceToBob,
                Peer::Bob => Direction::BobToAlice,
            };
            &&& t.alice == s.alice && t.bob == s.bob && t.live_alice == s.live_alice && t.live_bob == s.live_bob
            &&& t.disconnected == s.disconnected && t.network_delay == s.network_delay && t.total_packets
                == s.total_packets
            &&& from == Peer::Alice ==> t.alice_bytes == s.alice_bytes + payload.len() && t.bob_bytes == s.bob_bytes
            &&& from == Peer::Bob ==> t.bob_bytes == s.bob_bytes + payload.len() && t.alice_bytes == s.alice_bytes
            &&& t.wire_log.len() > 0 && t.wire_log[0].direction == way && t.wire_log[0].bytes == payload.len()
            &&& s.disconnected ==> {
                &&& t.queued == s.queued.push((way, payload)) && t.inflight == s.inflight && events.len() == 0
                &&& t.next_packet_id == s.next_packet_id
                &&& t.wire_log[0].id is None && t.wire_log[0].status == PacketStatus::Queued
            }
            &&& !s.disconnected ==> {
                let id = (s.next_packet_id + 1) as u32;
                &&& t.queued == s.queued && t.inflight.len() == s.inflight.len() + 1 && t.inflight.drop_last()
                    == s.inflight
                &&& t.next_packet_id == id
                &&& t.inflight.last().id == id && t.inflight.last().direction == way && t.inflight.last().payload
                    == payload
                &&& t.inflight.last().duration >= s.network_delay && t.inflight.last().duration >= 30
                &&& t.inflight.last().duration == s.network_delay || t.inflight.last().duration == 30
                &&& events == seq![AppEvent::PacketCreated { id, direction: way, bytes: payload.len() as usize }]
                &&& t.wire_log[0].id == Some(id) && t.wire_log[0].status == PacketStatus::Inflight
            }
        }),
{
    let t = posted(s, from, payload).0;
    if !s.disconnected {
        assert(t.inflight.drop_last() =~= s.inflight);
    }
}

/// The log has the newest entry first and at most ten of them.
pub proof fn law_log_is_short_and_newest_first(log: Seq<WireEntryView>, entry: WireEntryView, i: int)
    requires
        log.len() <= 10,
    ensures
        noted(log, entry).len() <= 10,
        noted(log, entry)[0] == entry,
        0 < i < noted(log, entry).len() ==> noted(log, entry)[i] == log[i - 1],
        log.len() < 10 ==> noted(log, entry).len() == log.len() + 1,
        log.len() == 10 ==> noted(log, entry).len() == 10,
{
}

/// Where an entry of the log is looked for: the first with the number.
proof fn lemma_entry_at(log: Seq<WireEntryView>, id: u32)
    ensures
        0 <= entry_at(log, id) <= log.len(),
        entry_at(log, id) < log.len() ==> log[entry_at(log, id)].id == Some(id),
        forall|k: int| 0 <= k < entry_at(log, id) ==> (#[trigger] log[k]).id != Some(id),
    decreases log.len(),
{
    if log.len() > 0 && log[0].id != Some(id) {
        let rest = log.drop_first();
        lemma_entry_at(rest, id);
        assert forall|k: int| 0 <= k < entry_at(log, id) implies (#[trigger] log[k]).id != Some(id) by {
            if k > 0 {
                assert(rest[k - 1] == log[k]);
            }
        }
    }
}

/// Marking a packet marks the first entry with its number as delivered, and
/// changes nothing else of the log.
pub proof fn law_arrivals_are_marked(log: Seq<WireEntryView>, id: u32, i: int)
    requires
        0 <= i < log.len(),
    ensures
        marked(log, id).len() == log.len(),
        ({
            let first = log[i].id == Some(id) && forall|k: int| 0 <= k < i ==> (#[trigger] log[k]).id != Some(id);
            marked(log, id)[i] == (if first {
                WireEntryView { status: PacketStatus::Delivered, ..log[i] }
            } else {
                log[i]
            })
        }),
{
    lemma_entry_at(log, id);
    let at = entry_at(log, id);
    if at < i {
        assert(log[at].id == Some(id));
    }
}

/// Once the network is back the log shows all that waited as delivered, and the
/// rest as it was.
pub proof fn law_waiting_packets_are_marked(log: Seq<WireEntryView>, i: int)
    requires
        0 <= i < log.len(),
    ensures
        all_marked(log).len() == log.len(),
        log[i].status == PacketStatus::Queued ==> all_marked(log)[i] == (WireEntryView {
            status: PacketStatus::Delivered,
            ..log[i]
        }),
        log[i].status != PacketStatus::Queued ==> all_marked(log)[i] == log[i],
{
}

/// Packets are delivered one by one, in their order.
pub proof fn law_packets_are_delivered_in_order(
    s: DemoView,
    first: (Direction, Seq<u8>),
    rest: Seq<(Direction, Seq<u8>)>,
    n: int,
)
    requires
        0 <= n <= rest.len(),
    ensures
        drained(s, rest, 0) == s,
        drained(s, seq![first] + rest, n + 1) == drained(delivered(s, first.0, first.1), rest, n),
        drained(s, rest, n).total_packets == s.total_packets + n,
        drained(s, rest, n) == (DemoView {
            alice: drained(s, rest, n).alice,
            bob: drained(s, rest, n).bob,
            total_packets: drained(s, rest, n).total_packets,
            ..s
        }),
    decreases n,
{
    let all = seq![first] + rest;
    assert(all[0] == first);
    if n == 0 {
        assert(drained(s, all, 0) == s);
    } else {
        law_packets_are_delivered_in_order(s, first, rest, n - 1);
        assert(all[n] == rest[n - 1]);
    }
}

/// When the network is back all that waited is delivered, in the order in which
/// it was sent, and waits no longer. What is on its way stays so.
pub proof fn law_reconnecting_delivers_what_waits(s: DemoView)
    ensures
        ({
            let t = reconnected(s);
            let all = drained(s, s.queued, s.queued.len() as int);
            &&& !t.disconnected && t.queued.len() == 0
            &&& t.alice == all.alice && t.bob == all.bob
            &&& t.total_packets == s.total_packets + s.queued.len()
            &&& t.inflight == s.inflight && t.next_packet_id == s.next_packet_id
            &&& t.alice_bytes == s.alice_bytes && t.bob_bytes == s.bob_bytes
            &&& t.live_alice == s.live_alice && t.live_bob == s.live_bob && t.network_delay == s.network_delay
        }),
{
    let t = DemoView { disconnected: false, queued: seq![], ..s };
    lemma_same_peers(s, t, s.queued, s.queued.len() as int);
    if s.queued.len() > 0 {
        law_packets_are_delivered_in_order(t, s.queued[0], s.queued, s.queued.len() as int);
    }
}

/// What is delivered depends on the peers alone.
proof fn lemma_same_peers(s: DemoView, t: DemoView, packets: Seq<(Direction, Seq<u8>)>, n: int)
    requires
        s.alice == t.alice && s.bob == t.bob,
        0 <= n <= packets.len(),
    ensures
        drained(s, packets, n).alice == drained(t, packets, n).alice,
        drained(s, packets, n).bob == drained(t, packets, n).bob,
    decreases n,
{
    if n > 0 {
        lemma_same_peers(s, t, packets, n - 1);
    }
}

/// An arrived packet is no longer on its way, is delivered, and is marked.
pub proof fn law_arrival_is_delivery(s: DemoView, i: int)
    requires
        0 <= i < s.inflight.len(),
    ensures
        ({
            let p = s.inflight[i];
            let t = arrived(s, i);
            let all = delivered(s, p.direction, p.payload);
            &&& t.alice == all.alice && t.bob == all.bob && t.total_packets == s.total_packets + 1
            &&& t.inflight == s.inflight.remove(i)
            &&& t.wire_log == marked(s.wire_log, p.id)
            &&& t.queued == s.queued && t.disconnected == s.disconnected && t.next_packet_id == s.next_packet_id
        }),
{
}

/// A tick delivers the packets that are there, each once, and tells of each; the
/// others stay on their way, in their order. It goes from the newest packet to
/// the oldest.
pub proof fn law_tick_delivers_what_is_there(s: DemoView, there: Seq<bool>, n: int) -> (r: (Seq<int>, Seq<int>))
    requires
        0 <= n <= there.len(),
        there.len() <= s.inflight.len(),
    ensures
        ({
            let (t, events) = ticked(s, there, n);
            let (done, left) = r;
            let packets = Seq::new(done.len(), |k: int| (s.inflight[done[k]].direction, s.inflight[done[k]].payload));
            &&& forall|k: int| 0 <= k < done.len() ==> 0 <= #[trigger] done[k] < n && there[done[k]]
            &&& forall|k: int, l: int| 0 <= k < l < done.len() ==> #[trigger] done[k] > #[trigger] done[l]
            &&& forall|i: int| 0 <= i < n && #[trigger] there[i] ==> done.contains(i)
            &&& forall|k: int|
                0 <= k < left.len() ==> 0 <= #[trigger] left[k] < s.inflight.len() && (left[k] < n ==> !there[left[k]])
            &&& forall|k: int, l: int| 0 <= k < l < left.len() ==> #[trigger] left[k] < #[trigger] left[l]
            &&& done.len() + left.len() == s.inflight.len()
            &&& t.inflight == Seq::new(left.len(), |k: int| s.inflight[left[k]])
            &&& events == Seq::new(done.len(), |k: int| AppEvent::PacketDelivered { id: s.inflight[done[k]].id })
            &&& t.alice == drained(s, packets, packets.len() as int).alice
            &&& t.bob == drained(s, packets, packets.len() as int).bob
            &&& t.total_packets == s.total_packets + done.len()
            &&& t.queued == s.queued && t.alice_bytes == s.alice_bytes && t.bob_bytes == s.bob_bytes
        }),
    decreases n,
{
    if n == 0 {
        let done = Seq::<int>::empty();
        let left = Seq::new(s.inflight.len(), |k: int| k);
        assert(s.inflight =~= Seq::new(left.len(), |k: int| s.inflight[left[k]]));
        assert(ticked(s, there, n).1 =~= Seq::new(
            done.len(),
            |k: int| AppEvent::PacketDelivered { id: s.inflight[done[k]].id },
        ));
        (done, left)
    } else if there[n - 1] {
        let m = n - 1;
        let p = s.inflight[m];
        let u = arrived(s, m);
        assert(u.inflight =~= s.inflight.remove(m));
        if there.len() > u.inflight.len() {
            lemma_tick_looks_back(u, there, there.drop_last(), m);
        }
        let flags = if there.len() > u.inflight.len() {
            there.drop_last()
        } else {
            there
        };
        let (done1, left1) = law_tick_delivers_what_is_there(u, flags, m);
        let done = seq![m] + done1;
        let left = Seq::new(left1.len(), |k: int| if left1[k] < m { left1[k] } else { left1[k] + 1 });
        let (t, events) = ticked(s, there, n);
        assert forall|i: int| 0 <= i < m implies u.inflight[i] == s.inflight[i] by {}
        assert forall|k: int| 0 <= k < done.len() implies 0 <= #[trigger] done[k] < n && there[done[k]] by {
            if k > 0 {
                assert(done[k] == done1[k - 1]);
            }
        }
        assert forall|k: int, l: int| 0 <= k < l < done.len() implies #[trigger] done[k] > #[trigger] done[l] by {
            assert(done[l] == done1[l - 1]);
            if k > 0 {
                assert(done[k] == done1[k - 1]);
            }
        }
        assert forall|i: int| 0 <= i < n && #[trigger] there[i] implies done.contains(i) by {
            if i == m {
                assert(done[0] == m);
            } else {
                assert(flags[i]);
                assert(done1.contains(i));
                let k = choose|k: int| 0 <= k < done1.len() && done1[k] == i;
                assert(done[k + 1] == i);
            }
        }
        assert(t.inflight =~= Seq::new(left.len(), |k: int| s.inflight[left[k]])) by {
            assert forall|k: int| 0 <= k < left.len() implies #[trigger] u.inflight[left1[k]] == s.inflight[left[k]] by {}
        }
        assert(events =~= Seq::new(done.len(), |k: int| AppEvent::PacketDelivered { id: s.inflight[done[k]].id })) by {
            assert forall|k: int| 0 < k < done.len() implies u.inflight[done1[k - 1]] == s.inflight[#[trigger] done[k]] by {
                assert(done[k] == done1[k - 1]);
            }
        }
        let packets = Seq::new(done.len(), |k: int| (s.inflight[done[k]].direction, s.inflight[done[k]].payload));
        let packets1 = Seq::new(
            done1.len(),
            |k: int| (u.inflight[done1[k]].direction, u.inflight[done1[k]].payload),
        );
        assert(packets =~= seq![(p.direction, p.payload)] + packets1) by {
            assert forall|k: int| 0 < k < done.len() implies u.inflight[done1[k - 1]] == s.inflight[#[trigger] done[k]] by {
                assert(done[k] == done1[k - 1]);
            }
        }
        law_packets_are_delivered_in_order(s, (p.direction, p.payload), packets1, packets1.len() as int);
        lemma_same_peers(u, delivered(s, p.direction, p.payload), packets1, packets1.len() as int);
        (done, left)
    } else {
        let (done, left) = law_tick_delivers_what_is_there(s, there, n - 1);
        assert forall|k: int| 0 <= k < left.len() && #[trigger] left[k] < n implies !there[left[k]] by {}
        (done, left)
    }
}

/// A tick looks only at what it has still to look at.
proof fn lemma_tick_looks_back(s: DemoView, a: Seq<bool>, b: Seq<bool>, n: int)
    requires
        0 <= n <= a.len(),
        n <= b.len(),
        forall|i: int| 0 <= i < n ==> a[i] == b[i],
    ensures
        ticked(s, a, n) == ticked(s, b, n),
    decreases n,
{
    if n > 0 {
        lemma_tick_looks_back(arrived(s, n - 1), a, b, n - 1);
        lemma_tick_looks_back(s, a, b, n - 1);
    }
}

/// Every waiting packet waits for one peer, and one more waits with each that is
/// queued.
pub proof fn law_waiting_packets_are_counted(
    queued: Seq<(Direction, Seq<u8>)>,
    packet: (Direction, Seq<u8>),
    way: Direction,
)
    ensures
        waiting(seq![], way) == 0,
        waiting(queued, Direction::AliceToBob) + waiting(queued, Direction::BobToAlice) == queued.len(),
        waiting(queued.push(packet), way) == waiting(queued, way) + if packet.0 == way {
            1nat
        } else {
            0nat
        },
    decreases queued.len(),
{
    assert(queued.push(packet).drop_last() =~= queued);
    if queued.len() > 0 {
        law_waiting_packets_are_counted(queued.drop_last(), packet, way);
    }
}

/// Clearing leaves two peers with empty documents, nothing on its way or
/// waiting, and all counts at zero. The network stays as it is, and numbers are
/// not given out again.
pub proof fn law_clearing_starts_over(s: DemoView)
    ensures
        ({
            let t = cleared(s);
            &&& t.alice.doc == document::blank(ActorId(1)) && t.bob.doc == document::blank(ActorId(2))
            &&& t.alice.held.len() == 0 && t.bob.held.len() == 0
            &&& t.queued.len() == 0 && t.inflight.len() == 0 && t.wire_log.len() == 0
            &&& t.total_packets == 0 && t.alice_bytes == 0 && t.bob_bytes == 0
            &&& t.live_alice is None && t.live_bob is None
            &&& t.network_delay == s.network_delay && t.disconnected == s.disconnected && t.next_packet_id
                == s.next_packet_id
        }),
{
}

/// Finishing a stroke of two points or more draws it in the document of the
/// peer and sends what waits there, that stroke last; a shorter one is dropped.
pub proof fn law_finished_strokes_are_sent(
    s: DemoView,
    peer: Peer,
    d: spec_fn(StrokePoint, StrokePoint, StrokePoint) -> F32,
)
    requires
        s.next_packet_id < u32::MAX,
        document::consistent(s.of(peer).doc),
        s.of(peer).doc.clock < u64::MAX,
        s.live(peer) is Some ==> (s.live(peer)->0).1.len() <= document::MAX_POINTS_PER_STROKE,
    ensures
        ({
            let (t, events) = ended(s, peer, d);
            let p = s.of(peer);
            let live = s.live(peer);
            &&& t.live(peer) is None
            &&& live is None || (live->0).1.len() < 2 ==> t == s.drawing(peer, None) && events.len() == 0
            &&& live is Some && (live->0).1.len() >= 2 ==> {
                let after = client::drawn_in(p.doc, (live->0).0, (live->0).1, d);
                let payload = encoding::update_blob(after.pending);
                &&& t.of(peer).doc == DocumentView { pending: seq![], ..after }
                &&& s.disconnected ==> t.queued == s.queued.push((way_from(peer), payload))
                &&& !s.disconnected ==> t.inflight.len() == s.inflight.len() + 1 && t.inflight.last().payload == payload
            }
        }),
{
    if s.live(peer) is Some && (s.live(peer)->0).1.len() >= 2 {
        let stroke = s.live(peer)->0;
        let from = client::law_strokes_have_the_drawn_points(s.of(peer).doc, stroke.0, stroke.1, d);
    }
}

/// An undo deletes what an undo of the document deletes, and sends what waits if
/// there was something to delete, and only then.
pub proof fn law_undo_is_sent(s: DemoView, peer: Peer)
    ensures
        ({
            let (t, events) = undone(s, peer);
            let (doc, gone) = document::undone(s.of(peer).doc);
            &&& gone is None ==> t.of(peer).doc == doc && t.queued == s.queued && t.inflight == s.inflight && events.len()
                == 0
            &&& gone is Some && doc.pending.len() > 0 ==> {
                let payload = encoding::update_blob(doc.pending);
                &&& t.of(peer).doc == DocumentView { pending: seq![], ..doc }
                &&& s.disconnected ==> t.queued == s.queued.push((way_from(peer), payload))
                &&& !s.disconnected ==> t.inflight.len() == s.inflight.len() + 1 && t.inflight.last().payload == payload
            }
        }),
{
}

/// One operation that finds what it builds on is taken in at once.
proof fn lemma_taken_at_once(doc: DocumentView, capacity: usize, op: OperationView)
    requires
        capacity > 0,
        causal_buffer::ready(doc, op),
    ensures
        ({
            let (after, held, _) = causal_buffer::taken(doc, seq![], capacity, seq![op]);
            after == document::applied(doc, op) && held.len() == 0
        }),
{
    let none = Seq::<OperationView>::empty();
    let one = seq![op];
    assert(one.drop_last() =~= none);
    assert(none.push(op) =~= one);
    let now = causal_buffer::select(doc, one, true);
    let rest = causal_buffer::select(doc, one, false);
    assert(causal_buffer::select(doc, one.drop_last(), true) =~= none);
    assert(causal_buffer::select(doc, one.drop_last(), false) =~= none);
    assert(now =~= one);
    assert(rest =~= none);
    let after = document::applied_all(doc, now);
    assert(after == document::applied(doc, op)) by {
        assert(document::applied_all(doc, one.drop_last()) == doc);
    }
    assert(causal_buffer::select(after, rest, true) =~= none);
    assert(causal_buffer::released(after, rest) =~= none);
    assert(causal_buffer::retained(after, rest) =~= none);
    assert(causal_buffer::released(doc, one) =~= one);
    assert(causal_buffer::taken(doc, none, capacity, one.drop_last()) == (doc, none, Seq::<OpId>::empty()));
}

/// Where both peers have the same strokes in the same order, and one of them
/// finishes a stroke, then both have the same again as soon as that has been
/// delivered.
pub proof fn law_delivered_strokes_are_shared(
    s: DemoView,
    peer: Peer,
    d: spec_fn(StrokePoint, StrokePoint, StrokePoint) -> F32,
)
    requires
        s.alice.doc.items == s.bob.doc.items,
        s.alice.doc.strokes == s.bob.doc.strokes,
        s.alice.doc.metadata == s.bob.doc.metadata,
        s.alice.held.len() == 0 && s.bob.held.len() == 0,
        s.alice.capacity > 0 && s.bob.capacity > 0,
        s.of(peer).doc.pending.len() == 0,
        s.of(peer).doc.clock < u64::MAX,
        s.of(peer).doc.items.len() < document::MAX_STROKES,
        document::consistent(s.of(peer).doc),
        s.live(peer) is Some,
        2 <= (s.live(peer)->0).1.len() <= document::MAX_POINTS_PER_STROKE,
        s.next_packet_id < u32::MAX,
    ensures
        ({
            let t = ended(s, peer, d).0;
            let payload = if s.disconnected {
                t.queued.last().1
            } else {
                t.inflight.last().payload
            };
            let u = delivered(t, way_from(peer), payload);
            let id = OpId { lamport: LamportTs((s.of(peer).doc.clock + 1) as u64), actor: s.of(peer).doc.actor };
            &&& u.alice.doc.items == u.bob.doc.items
            &&& u.alice.doc.strokes == u.bob.doc.strokes
            &&& u.alice.doc.metadata == u.bob.doc.metadata
            &&& u.alice.doc.strokes.contains_key(id)
            &&& u.alice.held.len() == 0 && u.bob.held.len() == 0
        }),
{
    let own = s.of(peer).doc;
    let other = match peer {
        Peer::Alice => s.bob,
        Peer::Bob => s.alice,
    };
    let (color, points) = s.live(peer)->0;
    let all = points.map_values(|p: AppPoint| client::stroke_point(p));
    let path = stroke::stroke_data(all, ToolKind::Pen);
    let data = document::tidied(path, d, own.simplify_epsilon);
    let properties = stroke::drawn(color, client::pen_width(), F32::one(), OpId::zero());
    let e = Edit::Draw { data, properties };
    let after = client::drawn_in(own, color, points, d);
    let from = client::law_strokes_have_the_drawn_points(own, color, points, d);
    session::law_local_change_is_what_is_sent(own, e);
    session::lemma_operation_is_ready(own, e);
    let op = session::operation_of(own, e)->0;
    assert(after == session::edited(own, e));
    assert(after.pending =~= seq![op]);
    document::law_paths_are_simplified_when_drawn(path, d, own.simplify_epsilon);
    assert(from.len() <= points.len()) by {
        client::lemma_increasing(from, points.len() as int);
    }
    assert(round_trip::sendable_op(op));
    assert(round_trip::reread(op) == op);
    round_trip::law_update_round_trip(seq![op]);
    assert(round_trip::reread_all(seq![op]) =~= seq![op]);
    law_finished_strokes_are_sent(s, peer, d);
    assert(causal_buffer::ready(other.doc, op));
    assert(other.held =~= Seq::<OperationView>::empty());
    lemma_taken_at_once(other.doc, other.capacity, op);
    assert(session::alike(document::applied(own, op), document::applied(other.doc, op)));
    let t = ended(s, peer, d).0;
    assert(t.of(peer).held == s.of(peer).held);
}

} // verus!
