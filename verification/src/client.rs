//! The client of a shared canvas, without its screen and its socket.
//!
//! The surroundings hand in frames and pointer events, and send the frames that
//! come back.

use crate::awareness;
use crate::awareness::{AwarenessStore, CursorState};
use crate::causal_buffer;
use crate::causal_buffer::CausalBuffer;
use crate::document;
use crate::document::{Document, DocumentView};
use crate::encoding;
use crate::error::VectisErrorView;
use crate::float::{F32, F64};
use crate::gc;
use crate::gc::GcConfig;
use crate::operation;
use crate::operation::OperationView;
use crate::protocol;
use crate::protocol::{MessageView, ProtocolMessage};
use crate::round_trip;
use crate::simplify;
use crate::snapshot;
use crate::stroke;
use crate::stroke::{StrokeData, StrokePoint, StrokeProperties, ToolKind, Transform2D};
use crate::text;
use crate::types;
use crate::types::{ActorId, LamportTs, OpId};
use vstd::prelude::*;

verus! {

/// The colour that a client draws in before the server gives it one.
pub const DEFAULT_COLOR: u32 = 0xa78b_faff;

/// The number of frames that are remembered.
pub const MAX_LOG: usize = 12;

/// The number of bytes of a frame that are shown.
pub const SHOWN_BYTES: usize = 8;

/// The number of characters of a resume token that are shown.
pub const SHOWN_TOKEN: usize = 12;

/// What the surroundings have to do.
#[derive(Debug)]
pub enum ClientEvent {
    SendFrame(Vec<u8>),
}

/// Where a frame goes.
#[derive(Clone, Copy, Debug, PartialEq, Eq, Structural)]
pub enum Direction {
    Outbound,
    Inbound,
}

/// Whether there is a socket, and whether the document has arrived.
#[derive(Clone, Copy, Debug, PartialEq, Eq, Structural)]
pub struct ConnectionState {
    pub connected: bool,
    pub loaded: bool,
}

/// A frame that was sent or received.
#[derive(Debug, PartialEq, Eq)]
pub struct WireEntry {
    pub direction: Direction,
    pub kind: &'static str,
    pub bytes: usize,
    pub hex: String,
}

/// The contents of a [`WireEntry`].
pub struct WireEntryView {
    pub direction: Direction,
    pub kind: Seq<char>,
    pub bytes: nat,
    pub hex: Seq<char>,
}

impl View for WireEntry {
    type V = WireEntryView;

    open spec fn view(&self) -> WireEntryView {
        WireEntryView { direction: self.direction, kind: self.kind@, bytes: self.bytes as nat, hex: self.hex@ }
    }
}

/// A point on the canvas.
#[derive(Clone, Copy, Debug, PartialEq, Eq, Structural)]
pub struct AppPoint {
    pub x: F32,
    pub y: F32,
    pub pressure: F32,
}

impl AppPoint {
    pub fn new(x: F32, y: F32, pressure: F32) -> (point: Self)
        ensures
            point == (AppPoint { x, y, pressure }),
    {
        AppPoint { x, y, pressure }
    }
}

/// A stroke that is being drawn.
#[derive(Debug)]
pub struct LiveStroke {
    pub color: u32,
    pub points: Vec<AppPoint>,
}

impl View for LiveStroke {
    type V = (u32, Seq<AppPoint>);

    open spec fn view(&self) -> (u32, Seq<AppPoint>) {
        (self.color, self.points@)
    }
}

/// A stroke to be shown.
#[derive(Debug)]
pub struct StrokeView {
    pub color: u32,
    pub width: F32,
    pub opacity: F32,
    pub points: Vec<AppPoint>,
}

/// The contents of a [`StrokeView`].
#[verifier::ext_equal]
pub struct StrokePicture {
    pub color: u32,
    pub width: F32,
    pub opacity: F32,
    pub points: Seq<AppPoint>,
}

impl View for StrokeView {
    type V = StrokePicture;

    open spec fn view(&self) -> StrokePicture {
        StrokePicture { color: self.color, width: self.width, opacity: self.opacity, points: self.points@ }
    }
}

/// The cursor of another client, to be shown.
#[derive(Clone, Copy, Debug, PartialEq, Eq, Structural)]
pub struct CursorView {
    pub actor: u64,
    pub color: u32,
    pub point: AppPoint,
}

/// Counts of a client.
#[derive(Debug)]
pub struct AppStats {
    pub actor: Option<u64>,
    pub resume_token: String,
    pub visible_strokes: usize,
    pub undo_depth: usize,
    pub remote_cursors: usize,
    pub gc_generation: u64,
    pub frames_sent: u32,
    pub frames_received: u32,
    pub bytes_sent: usize,
    pub bytes_received: usize,
    pub status: String,
}

/// A client.
pub struct ClientApp {
    pub room: String,
    pub resume_token: String,
    pub actor: Option<ActorId>,
    pub color: u32,
    pub doc: Document,
    pub buffer: CausalBuffer,
    pub awareness: AwarenessStore,
    pub live: Option<LiveStroke>,
    pub connected: bool,
    pub loaded: bool,
    pub frames_sent: u32,
    pub frames_received: u32,
    pub bytes_sent: usize,
    pub bytes_received: usize,
    /// The frames sent and received, the last one first.
    pub wire_log: Vec<WireEntry>,
    pub status: String,
}

/// The contents of a [`ClientApp`].
#[verifier::ext_equal]
pub struct ClientView {
    pub room: Seq<char>,
    pub resume_token: Seq<char>,
    pub actor: Option<ActorId>,
    pub color: u32,
    pub doc: DocumentView,
    pub held: Seq<OperationView>,
    pub capacity: usize,
    pub cursors: Map<u64, CursorState>,
    pub live: Option<(u32, Seq<AppPoint>)>,
    pub connected: bool,
    pub loaded: bool,
    pub frames_sent: nat,
    pub frames_received: nat,
    pub bytes_sent: nat,
    pub bytes_received: nat,
    pub wire_log: Seq<WireEntryView>,
    pub status: Seq<char>,
}

/// The views of logged frames.
pub open spec fn entry_views(log: Seq<WireEntry>) -> Seq<WireEntryView> {
    log.map_values(|e: WireEntry| e@)
}

/// The frames that the surroundings have to send.
pub open spec fn frames_of(events: Seq<ClientEvent>) -> Seq<Seq<u8>> {
    events.map_values(|e: ClientEvent| e->SendFrame_0@)
}

impl View for ClientApp {
    type V = ClientView;

    open spec fn view(&self) -> ClientView {
        ClientView {
            room: self.room@,
            resume_token: self.resume_token@,
            actor: self.actor,
            color: self.color,
            doc: self.doc@,
            held: self.buffer@,
            capacity: self.buffer.max_capacity,
            cursors: self.awareness@,
            live: match self.live {
                Some(stroke) => Some(stroke@),
                None => None,
            },
            connected: self.connected,
            loaded: self.loaded,
            frames_sent: self.frames_sent as nat,
            frames_received: self.frames_received as nat,
            bytes_sent: self.bytes_sent as nat,
            bytes_received: self.bytes_received as nat,
            wire_log: entry_views(self.wire_log@),
            status: self.status@,
        }
    }
}

/// A client of a room before it is connected.
pub open spec fn started(room: Seq<char>) -> ClientView {
    ClientView {
        room,
        resume_token: seq![],
        actor: None,
        color: DEFAULT_COLOR,
        doc: document::blank(ActorId(0)),
        held: seq![],
        capacity: causal_buffer::DEFAULT_MAX_CAPACITY,
        cursors: Map::empty(),
        live: None,
        connected: false,
        loaded: false,
        frames_sent: 0,
        frames_received: 0,
        bytes_sent: 0,
        bytes_received: 0,
        wire_log: seq![],
        status: "connecting"@,
    }
}

/// Whether the counts of frames and bytes can be held.
pub open spec fn fits(s: ClientView) -> bool {
    &&& s.frames_sent <= u32::MAX
    &&& s.frames_received <= u32::MAX
    &&& s.bytes_sent <= usize::MAX
    &&& s.bytes_received <= usize::MAX
}

/// The first bytes of a frame in hexadecimal.
pub open spec fn hex_prefix_of(frame: Seq<u8>) -> Seq<char> {
    text::hex_list(frame.take(if frame.len() < SHOWN_BYTES { frame.len() as int } else { SHOWN_BYTES as int }))
}

/// A log after one more entry: the last one comes first, the oldest goes.
pub open spec fn noted(log: Seq<WireEntryView>, entry: WireEntryView) -> Seq<WireEntryView> {
    let longer = log.insert(0, entry);
    if longer.len() > MAX_LOG {
        longer.drop_last()
    } else {
        longer
    }
}

/// The client after a frame has been counted and logged.
pub open spec fn recorded(s: ClientView, direction: Direction, kind: Seq<char>, frame: Seq<u8>) -> ClientView {
    let entry = WireEntryView { direction, kind, bytes: frame.len(), hex: hex_prefix_of(frame) };
    let log = noted(s.wire_log, entry);
    match direction {
        Direction::Outbound => ClientView {
            frames_sent: s.frames_sent + 1,
            bytes_sent: s.bytes_sent + frame.len(),
            wire_log: log,
            ..s
        },
        Direction::Inbound => ClientView {
            frames_received: s.frames_received + 1,
            bytes_received: s.bytes_received + frame.len(),
            wire_log: log,
            ..s
        },
    }
}

/// The client after it has sent a message.
pub open spec fn sent(s: ClientView, kind: Seq<char>, message: MessageView) -> (ClientView, Seq<Seq<u8>>) {
    let frame = protocol::frame_bytes(message);
    (recorded(s, Direction::Outbound, kind, frame), seq![frame])
}

/// The client introduces itself.
pub open spec fn greeted(s: ClientView) -> (ClientView, Seq<Seq<u8>>) {
    sent(
        s,
        "hello"@,
        MessageView::ClientHello {
            room: s.room,
            resume_token: s.resume_token,
            state_vector: encoding::state_vector(s.doc.version),
        },
    )
}

/// The client reports what it has seen.
pub open spec fn reported(s: ClientView) -> (ClientView, Seq<Seq<u8>>) {
    sent(s, "state"@, MessageView::StateVector { bytes: encoding::state_vector(s.doc.version) })
}

/// The client after the socket has opened or closed.
pub open spec fn plugged(s: ClientView, connected: bool) -> ClientView {
    if connected {
        ClientView { connected, status: "connected"@, ..s }
    } else {
        ClientView { connected, loaded: false, live: None, status: "disconnected"@, ..s }
    }
}

/// The server has named the client. A new name means a new document.
pub open spec fn welcomed(s: ClientView, actor: ActorId, color: u32, resume_token: Seq<char>) -> ClientView {
    let named = ClientView {
        actor: Some(actor),
        color,
        resume_token,
        status: "actor "@ + text::decimal(actor.0 as nat) + " assigned"@,
        ..s
    };
    if s.actor == Some(actor) {
        named
    } else {
        ClientView {
            doc: document::blank(actor),
            held: seq![],
            capacity: causal_buffer::DEFAULT_MAX_CAPACITY,
            loaded: false,
            ..named
        }
    }
}

/// A snapshot replaces the document.
pub open spec fn restored(s: ClientView, bytes: Seq<u8>) -> (ClientView, Seq<Seq<u8>>) {
    match s.actor {
        None => (ClientView { status: "snapshot arrived before welcome"@, ..s }, seq![]),
        Some(actor) => match snapshot::parse_snapshot(bytes, actor) {
            Ok(doc) => reported(
                ClientView {
                    doc,
                    held: seq![],
                    capacity: causal_buffer::DEFAULT_MAX_CAPACITY,
                    loaded: true,
                    status: "ready"@,
                    ..s
                },
            ),
            Err(e) => (ClientView { status: "snapshot decode failed: "@ + e.message(), ..s }, seq![]),
        },
    }
}

/// An update is applied through the buffer.
pub open spec fn caught_up(s: ClientView, bytes: Seq<u8>) -> (ClientView, Seq<Seq<u8>>) {
    match encoding::parse_update(bytes) {
        Ok(ops) => {
            let (doc, held, ok) = causal_buffer::absorbed(s.doc, s.held, s.capacity, ops);
            if ok {
                reported(
                    ClientView {
                        doc,
                        held,
                        loaded: true,
                        status: if s.loaded {
                            "synced"@
                        } else {
                            "ready"@
                        },
                        ..s
                    },
                )
            } else {
                let e = VectisErrorView::CausalBufferOverflow { capacity: s.capacity };
                (ClientView { doc, held, status: "update apply failed: "@ + e.message(), ..s }, seq![])
            }
        },
        Err(e) => (ClientView { status: "update decode failed: "@ + e.message(), ..s }, seq![]),
    }
}

/// The server has announced what all clients have seen.
pub open spec fn confirmed(s: ClientView, bytes: Seq<u8>, q: spec_fn(usize, usize) -> F64) -> ClientView {
    let (doc, result) = gc::confirmed(s.doc, encoding::parse_state_vector(bytes), gc::standard(), q);
    match result {
        Some(report) if report.tombstones_removed > 0 => ClientView {
            doc,
            status: "gc removed "@ + text::decimal(report.tombstones_removed as nat) + " tombstones"@,
            ..s
        },
        _ => ClientView { doc, ..s },
    }
}

/// The client after a frame has arrived, and what it sends.
pub open spec fn received(s: ClientView, frame: Seq<u8>, q: spec_fn(usize, usize) -> F64) -> (
    ClientView,
    Seq<Seq<u8>>,
) {
    let t = recorded(s, Direction::Inbound, "frame"@, frame);
    match protocol::parse_message(frame) {
        Ok(MessageView::ServerWelcome { actor, color, resume_token }) => (
            welcomed(t, actor, color, resume_token),
            seq![],
        ),
        Ok(MessageView::Snapshot { bytes }) => restored(t, bytes),
        Ok(MessageView::Update { bytes }) => caught_up(t, bytes),
        Ok(MessageView::Error { message }) => (ClientView { status: message, ..t }, seq![]),
        Ok(MessageView::Mvv { bytes }) => (confirmed(t, bytes, q), seq![]),
        Ok(MessageView::Awareness { bytes }) => (
            ClientView { cursors: awareness::applied_bulk(t.cursors, bytes).0, ..t },
            seq![],
        ),
        Ok(_) => (ClientView { status: "unexpected server frame"@, ..t }, seq![]),
        Err(e) => (ClientView { status: "protocol decode failed: "@ + e.label(), ..t }, seq![]),
    }
}

/// Whether the client may draw.
pub open spec fn may_edit(s: ClientView) -> bool {
    s.connected && s.loaded && s.actor is Some
}

/// A stroke is begun.
pub open spec fn begun(s: ClientView, point: AppPoint) -> ClientView {
    if may_edit(s) {
        ClientView { live: Some((s.color, seq![point])), ..s }
    } else {
        s
    }
}

/// A stroke goes on.
pub open spec fn extended(s: ClientView, point: AppPoint) -> ClientView {
    match s.live {
        Some((color, points)) => ClientView { live: Some((color, points.push(point))), ..s },
        None => s,
    }
}

/// The point of a stroke that a point of the canvas becomes.
pub open spec fn stroke_point(p: AppPoint) -> StrokePoint {
    StrokePoint { x: p.x, y: p.y, pressure: p.pressure }
}

/// The point of the canvas that a point of a stroke becomes.
pub open spec fn app_point(p: StrokePoint) -> AppPoint {
    AppPoint { x: p.x, y: p.y, pressure: p.pressure }
}

/// The width that strokes are drawn in: 3.
pub open spec fn pen_width() -> F32 {
    F32 { bits: 0x4040_0000 }
}

/// How a stroke is seen while it is drawn: at 0.65.
pub open spec fn live_opacity() -> F32 {
    F32 { bits: 0x3f26_6666 }
}

/// The document after a drawn stroke has been put in.
pub open spec fn drawn_in(
    s: DocumentView,
    color: u32,
    points: Seq<AppPoint>,
    d: spec_fn(StrokePoint, StrokePoint, StrokePoint) -> F32,
) -> DocumentView {
    let path = stroke::stroke_data(points.map_values(|p: AppPoint| stroke_point(p)), ToolKind::Pen);
    document::inserted(
        s,
        document::tidied(path, d, s.simplify_epsilon),
        stroke::drawn(color, pen_width(), F32::one(), OpId::zero()),
    )
}

/// The client sends the operations that are waiting, if there are any.
pub open spec fn flushed(s: ClientView) -> (ClientView, Seq<Seq<u8>>) {
    if s.doc.pending.len() == 0 {
        (s, seq![])
    } else {
        sent(
            ClientView { doc: DocumentView { pending: seq![], ..s.doc }, ..s },
            "update"@,
            MessageView::Update { bytes: encoding::update_blob(s.doc.pending) },
        )
    }
}

/// A stroke is finished. One of fewer than two points is dropped.
pub open spec fn ended(s: ClientView, d: spec_fn(StrokePoint, StrokePoint, StrokePoint) -> F32) -> (
    ClientView,
    Seq<Seq<u8>>,
) {
    let rest = ClientView { live: None, ..s };
    match s.live {
        Some((color, points)) if points.len() >= 2 && may_edit(s) => flushed(
            ClientView { doc: drawn_in(s.doc, color, points, d), ..rest },
        ),
        _ => (rest, seq![]),
    }
}

/// The last stroke is undone.
pub open spec fn undone(s: ClientView) -> (ClientView, Seq<Seq<u8>>) {
    if may_edit(s) {
        let (doc, id) = document::undone(s.doc);
        let t = ClientView { doc, ..s };
        if id is Some {
            flushed(t)
        } else {
            (t, seq![])
        }
    } else {
        (s, seq![])
    }
}

/// The client tells where its pointer is.
pub open spec fn pointed(s: ClientView, point: AppPoint, now_ms: u64) -> (ClientView, Seq<Seq<u8>>) {
    match s.actor {
        Some(actor) if s.connected && s.loaded => sent(
            s,
            "cursor"@,
            MessageView::Awareness {
                bytes: awareness::cursor_bytes(
                    CursorState { actor, x: point.x, y: point.y, updated_at_ms: now_ms, color: s.color },
                ),
            },
        ),
        _ => (s, seq![]),
    }
}

/// A stroke as it is shown.
pub open spec fn picture(view: stroke::StrokeView) -> StrokePicture {
    StrokePicture {
        color: view.properties.color.value,
        width: view.properties.stroke_width.value,
        opacity: view.properties.opacity.value,
        points: view.data.points.map_values(|p: StrokePoint| app_point(p)),
    }
}

/// A stroke as it is shown while it is drawn.
pub open spec fn live_picture(stroke: (u32, Seq<AppPoint>)) -> StrokePicture {
    StrokePicture { color: stroke.0, width: pen_width(), opacity: live_opacity(), points: stroke.1 }
}

/// The listed strokes as they are shown, without those that are not known.
pub open spec fn pictures(ids: Seq<OpId>, strokes: Map<OpId, stroke::StrokeView>) -> Seq<StrokePicture>
    decreases ids.len(),
{
    if ids.len() == 0 {
        seq![]
    } else {
        let rest = pictures(ids.drop_last(), strokes);
        if strokes.contains_key(ids.last()) {
            rest.push(picture(strokes[ids.last()]))
        } else {
            rest
        }
    }
}

/// The cursors of others as they are shown.
pub open spec fn remote(list: Seq<CursorState>, local: Option<ActorId>) -> Seq<CursorView>
    decreases list.len(),
{
    if list.len() == 0 {
        seq![]
    } else {
        let rest = remote(list.drop_last(), local);
        let c = list.last();
        if Some(c.actor) == local {
            rest
        } else {
            rest.push(
                CursorView {
                    actor: c.actor.0,
                    color: c.color,
                    point: AppPoint { x: c.x, y: c.y, pressure: F32::one() },
                },
            )
        }
    }
}

/// What is shown of a resume token.
pub open spec fn short(token: Seq<char>) -> Seq<char> {
    if token.len() == 0 {
        "none"@
    } else if token.len() <= SHOWN_TOKEN {
        token
    } else {
        token.take(SHOWN_TOKEN as int)
    }
}

/// What is shown of a resume token.
fn short_token(token: &String) -> (shown: String)
    ensures
        shown@ == short(token@),
{
    let n: usize = token.as_str().unicode_len();
    if n == 0 {
        "none".to_string()
    } else if n <= SHOWN_TOKEN {
        token.clone()
    } else {
        let head = token.as_str().substring_char(0, SHOWN_TOKEN);
        proof {
            assert(head@ =~= token@.take(SHOWN_TOKEN as int));
        }
        head.to_string()
    }
}

/// The first bytes of a frame in hexadecimal.
pub fn hex_prefix(payload: &[u8]) -> (text: String)
    ensures
        text@ == hex_prefix_of(payload@),
{
    text::hex_text(payload, SHOWN_BYTES)
}

/// The points of a stroke that points of the canvas become.
fn stroke_points(points: &Vec<AppPoint>) -> (list: Vec<StrokePoint>)
    ensures
        list@ == points@.map_values(|p: AppPoint| stroke_point(p)),
{
    let mut list: Vec<StrokePoint> = Vec::new();
    let mut i: usize = 0;
    while i < points.len()
        invariant
            i <= points@.len(),
            list@.len() == i,
            forall|j: int| 0 <= j < i ==> #[trigger] list@[j] == stroke_point(points@[j]),
        decreases points@.len() - i,
    {
        let p = points[i];
        list.push(StrokePoint::new(p.x, p.y, p.pressure));
        i += 1;
    }
    proof {
        assert(list@ =~= points@.map_values(|p: AppPoint| stroke_point(p)));
    }
    list
}

/// The points of the canvas that points of a stroke become.
fn app_points(points: &Vec<StrokePoint>) -> (list: Vec<AppPoint>)
    ensures
        list@ == points@.map_values(|p: StrokePoint| app_point(p)),
{
    let mut list: Vec<AppPoint> = Vec::new();
    let mut i: usize = 0;
    while i < points.len()
        invariant
            i <= points@.len(),
            list@.len() == i,
            forall|j: int| 0 <= j < i ==> #[trigger] list@[j] == app_point(points@[j]),
        decreases points@.len() - i,
    {
        let p = points[i];
        list.push(AppPoint::new(p.x, p.y, p.pressure));
        i += 1;
    }
    proof {
        assert(list@ =~= points@.map_values(|p: StrokePoint| app_point(p)));
    }
    list
}

/// A copy of the points.
fn copy_points(points: &Vec<AppPoint>) -> (list: Vec<AppPoint>)
    ensures
        list@ == points@,
{
    let mut list: Vec<AppPoint> = Vec::new();
    let mut i: usize = 0;
    while i < points.len()
        invariant
            i <= points@.len(),
            list@ == points@.take(i as int),
        decreases points@.len() - i,
    {
        list.push(points[i]);
        i += 1;
        proof {
            assert(list@ =~= points@.take(i as int));
        }
    }
    proof {
        assert(list@ =~= points@);
    }
    list
}

/// A stroke as it is shown while it is drawn.
pub(crate) fn show_live(stroke: &LiveStroke) -> (view: StrokeView)
    ensures
        view@ == live_picture(stroke@),
{
    StrokeView {
        color: stroke.color,
        width: F32 { bits: 0x4040_0000 },
        opacity: F32 { bits: 0x3f26_6666 },
        points: copy_points(&stroke.points),
    }
}

/// The visible strokes of a document, bottom to top.
pub(crate) fn visible_strokes(doc: &Document) -> (list: Vec<StrokeView>)
    ensures
        list@.map_values(|v: StrokeView| v@) == pictures(document::visible_ids(doc@.items), doc@.strokes),
{
    let ids = doc.visible_stroke_ids();
    let ghost all = ids@;
    let mut list: Vec<StrokeView> = Vec::new();
    let mut i: usize = 0;
    proof {
        assert(all.take(0) =~= seq![]);
        assert(list@.map_values(|v: StrokeView| v@) =~= pictures(all.take(0), doc@.strokes));
    }
    while i < ids.len()
        invariant
            i <= ids@.len(),
            all == ids@,
            list@.map_values(|v: StrokeView| v@) == pictures(all.take(i as int), doc@.strokes),
        decreases ids@.len() - i,
    {
        proof {
            assert(all.take(i + 1).drop_last() =~= all.take(i as int));
            assert(all.take(i + 1).last() == ids@[i as int]);
        }
        match doc.get_stroke(&ids[i]) {
            Some((data, props)) => {
                let view = StrokeView {
                    color: props.color.value,
                    width: props.stroke_width.value,
                    opacity: props.opacity.value,
                    points: app_points(&data.points),
                };
                let ghost before = list@;
                list.push(view);
                proof {
                    assert(view@ =~= picture(doc@.strokes[ids@[i as int]]));
                    assert(list@.map_values(|v: StrokeView| v@) =~= before.map_values(|v: StrokeView| v@).push(
                        view@,
                    ));
                }
            },
            None => {},
        }
        i += 1;
    }
    proof {
        assert(all.take(i as int) =~= all);
    }
    list
}

/// Puts a drawn stroke into a document.
pub(crate) fn draw_into<D: Fn(StrokePoint, StrokePoint, StrokePoint) -> F32>(
    doc: &mut Document,
    stroke: &LiveStroke,
    distance: &D,
)
    requires
        old(doc).wf(),
        old(doc)@.clock < u64::MAX,
        old(doc)@.items.len() < usize::MAX,
        simplify::well_defined(*distance),
    ensures
        final(doc).wf(),
        final(doc)@ == drawn_in(old(doc)@, stroke.color, stroke.points@, simplify::measure(*distance)),
{
    let data = StrokeData::new(stroke_points(&stroke.points), ToolKind::Pen);
    let properties = StrokeProperties::new(stroke.color, F32 { bits: 0x4040_0000 }, F32::one(), OpId::zero());
    doc.insert_stroke(data, properties, distance);
}

/// One event: to send the frame.
fn send_one(frame: Vec<u8>) -> (events: Vec<ClientEvent>)
    ensures
        frames_of(events@) == seq![frame@],
{
    let ghost f = frame@;
    let mut events: Vec<ClientEvent> = Vec::new();
    events.push(ClientEvent::SendFrame(frame));
    proof {
        assert(frames_of(events@) =~= seq![f]);
    }
    events
}

/// Nothing to do.
fn send_none() -> (events: Vec<ClientEvent>)
    ensures
        frames_of(events@) == Seq::<Seq<u8>>::empty(),
{
    let events: Vec<ClientEvent> = Vec::new();
    proof {
        assert(frames_of(events@) =~= Seq::<Seq<u8>>::empty());
    }
    events
}

/// One text after another.
fn text_with(head: &str, tail: String) -> (text: String)
    ensures
        text@ == head@ + tail@,
{
    let mut text = String::new();
    text.append(head);
    text.append(tail.as_str());
    proof {
        assert(text@ =~= head@ + tail@);
    }
    text
}

impl ClientApp {
    /// The document and the cursors are valid.
    pub open spec fn wf(&self) -> bool {
        &&& self.doc.wf()
        &&& self.awareness.wf()
    }

    pub fn new(room: String) -> (app: Self)
        ensures
            app.wf(),
            app@ == started(room@),
    {
        let app = ClientApp {
            room,
            resume_token: String::new(),
            actor: None,
            color: DEFAULT_COLOR,
            doc: Document::new(ActorId(0)),
            buffer: CausalBuffer::new(),
            awareness: AwarenessStore::new(),
            live: None,
            connected: false,
            loaded: false,
            frames_sent: 0,
            frames_received: 0,
            bytes_sent: 0,
            bytes_received: 0,
            wire_log: Vec::new(),
            status: "connecting".to_string(),
        };
        proof {
            assert(app@ =~= started(app.room@));
        }
        app
    }

    pub fn room(&self) -> (room: &str)
        ensures
            room@ == self@.room,
    {
        self.room.as_str()
    }

    pub fn color(&self) -> (color: u32)
        ensures
            color == self@.color,
    {
        self.color
    }

    pub fn resume_token(&self) -> (token: &str)
        ensures
            token@ == self@.resume_token,
    {
        self.resume_token.as_str()
    }

    pub fn set_resume_token(&mut self, token: String)
        ensures
            final(self)@ == (ClientView { resume_token: token@, ..old(self)@ }),
            old(self).wf() ==> final(self).wf(),
    {
        self.resume_token = token;
    }

    /// The socket has opened or closed.
    pub fn set_connected(&mut self, connected: bool)
        ensures
            final(self)@ == plugged(old(self)@, connected),
            old(self).wf() ==> final(self).wf(),
    {
        self.connected = connected;
        if connected {
            self.status = "connected".to_string();
        } else {
            self.loaded = false;
            self.live = None;
            self.status = "disconnected".to_string();
        }
    }

    /// Counts and logs a frame.
    fn record(&mut self, direction: Direction, kind: &'static str, frame: &[u8])
        requires
            old(self).wf(),
            fits(recorded(old(self)@, direction, kind@, frame@)),
        ensures
            final(self).wf(),
            final(self)@ == recorded(old(self)@, direction, kind@, frame@),
    {
        match direction {
            Direction::Outbound => {
                self.frames_sent = self.frames_sent + 1;
                self.bytes_sent = self.bytes_sent + frame.len();
            },
            Direction::Inbound => {
                self.frames_received = self.frames_received + 1;
                self.bytes_received = self.bytes_received + frame.len();
            },
        }
        let entry = WireEntry { direction, kind, bytes: frame.len(), hex: hex_prefix(frame) };
        let ghost before = self.wire_log@;
        self.wire_log.insert(0, entry);
        proof {
            assert(entry_views(self.wire_log@) =~= entry_views(before).insert(0, entry@));
        }
        let ghost longer = self.wire_log@;
        if self.wire_log.len() > MAX_LOG {
            self.wire_log.pop();
            proof {
                assert(entry_views(self.wire_log@) =~= entry_views(longer).drop_last());
            }
        }
        proof {
            assert(self@ =~= recorded(old(self)@, direction, kind@, frame@));
        }
    }

    /// Encodes a message, counts it and logs it.
    fn send(&mut self, kind: &'static str, message: &ProtocolMessage) -> (events: Vec<ClientEvent>)
        requires
            old(self).wf(),
            fits(sent(old(self)@, kind@, message@).0),
        ensures
            final(self).wf(),
            (final(self)@, frames_of(events@)) == sent(old(self)@, kind@, message@),
    {
        let frame = protocol::encode_message(message);
        self.record(Direction::Outbound, kind, frame.as_slice());
        send_one(frame)
    }

    /// Introduces the client to the server.
    pub fn hello_frame(&mut self) -> (events: Vec<ClientEvent>)
        requires
            old(self).wf(),
            fits(greeted(old(self)@).0),
        ensures
            final(self).wf(),
            (final(self)@, frames_of(events@)) == greeted(old(self)@),
    {
        let message = ProtocolMessage::ClientHello {
            room: self.room.clone(),
            resume_token: self.resume_token.clone(),
            state_vector: encoding::encode_state_vector(&self.doc.version),
        };
        self.send("hello", &message)
    }

    /// Reports what the client has seen.
    fn state_vector_frame(&mut self) -> (events: Vec<ClientEvent>)
        requires
            old(self).wf(),
            fits(reported(old(self)@).0),
        ensures
            final(self).wf(),
            (final(self)@, frames_of(events@)) == reported(old(self)@),
    {
        let message = ProtocolMessage::StateVector { bytes: encoding::encode_state_vector(&self.doc.version) };
        self.send("state", &message)
    }

    /// Takes in a frame of the server.
    pub fn receive_frame<R: Fn(usize, usize) -> F64>(&mut self, frame: &[u8], divide: &R) -> (events: Vec<
        ClientEvent,
    >)
        requires
            old(self).wf(),
            old(self)@.doc.gc_generation < u64::MAX,
            gc::well_defined(*divide),
            fits(received(old(self)@, frame@, gc::quotient(*divide)).0),
        ensures
            final(self).wf(),
            (final(self)@, frames_of(events@)) == received(old(self)@, frame@, gc::quotient(*divide)),
    {
        self.record(Direction::Inbound, "frame", frame);
        match protocol::decode_message(frame) {
            Ok(ProtocolMessage::ServerWelcome { actor, color, resume_token }) => {
                self.take_welcome(actor, color, resume_token);
                send_none()
            },
            Ok(ProtocolMessage::Snapshot { bytes }) => self.take_snapshot(&bytes),
            Ok(ProtocolMessage::Update { bytes }) => self.take_update(&bytes),
            Ok(ProtocolMessage::Error { message }) => {
                self.status = message;
                send_none()
            },
            Ok(ProtocolMessage::Mvv { bytes }) => {
                self.take_mvv(&bytes, divide);
                send_none()
            },
            Ok(ProtocolMessage::Awareness { bytes }) => {
                self.awareness.apply_bulk(bytes.as_slice());
                send_none()
            },
            Ok(_) => {
                self.status = "unexpected server frame".to_string();
                send_none()
            },
            Err(e) => {
                self.status = text_with("protocol decode failed: ", e.label_text());
                send_none()
            },
        }
    }

    /// The server has named the client.
    fn take_welcome(&mut self, actor: ActorId, color: u32, resume_token: String)
        requires
            old(self).wf(),
        ensures
            final(self).wf(),
            final(self)@ == welcomed(old(self)@, actor, color, resume_token@),
    {
        let same = match self.actor {
            Some(known) => known == actor,
            None => false,
        };
        self.actor = Some(actor);
        self.color = color;
        self.resume_token = resume_token;
        if !same {
            self.doc = Document::new(actor);
            self.buffer = CausalBuffer::new();
            self.loaded = false;
        }
        let mut status = String::new();
        status.append("actor ");
        text::push_decimal(&mut status, actor.0);
        status.append(" assigned");
        proof {
            assert(status@ =~= "actor "@ + text::decimal(actor.0 as nat) + " assigned"@);
        }
        self.status = status;
    }

    /// A snapshot replaces the document.
    fn take_snapshot(&mut self, bytes: &Vec<u8>) -> (events: Vec<ClientEvent>)
        requires
            old(self).wf(),
            fits(restored(old(self)@, bytes@).0),
        ensures
            final(self).wf(),
            (final(self)@, frames_of(events@)) == restored(old(self)@, bytes@),
    {
        let actor = match self.actor {
            Some(actor) => actor,
            None => {
                self.status = "snapshot arrived before welcome".to_string();
                return send_none();
            },
        };
        match snapshot::decode_snapshot(bytes.as_slice(), actor) {
            Ok(doc) => {
                self.doc = doc;
                self.buffer = CausalBuffer::new();
                self.loaded = true;
                self.status = "ready".to_string();
                self.state_vector_frame()
            },
            Err(e) => {
                self.status = text_with("snapshot decode failed: ", e.to_string());
                send_none()
            },
        }
    }

    /// An update is applied through the buffer.
    fn take_update(&mut self, bytes: &Vec<u8>) -> (events: Vec<ClientEvent>)
        requires
            old(self).wf(),
            fits(caught_up(old(self)@, bytes@).0),
        ensures
            final(self).wf(),
            (final(self)@, frames_of(events@)) == caught_up(old(self)@, bytes@),
    {
        match encoding::decode_update(bytes.as_slice()) {
            Ok(ops) => match self.doc.absorb(&ops, &mut self.buffer) {
                Ok(_) => {
                    if !self.loaded {
                        self.loaded = true;
                        self.status = "ready".to_string();
                    } else {
                        self.status = "synced".to_string();
                    }
                    self.state_vector_frame()
                },
                Err(e) => {
                    self.status = text_with("update apply failed: ", e.to_string());
                    send_none()
                },
            },
            Err(e) => {
                self.status = text_with("update decode failed: ", e.to_string());
                send_none()
            },
        }
    }

    /// The server has announced what all clients have seen.
    fn take_mvv<R: Fn(usize, usize) -> F64>(&mut self, bytes: &Vec<u8>, divide: &R)
        requires
            old(self).wf(),
            old(self)@.doc.gc_generation < u64::MAX,
            gc::well_defined(*divide),
        ensures
            final(self).wf(),
            final(self)@ == confirmed(old(self)@, bytes@, gc::quotient(*divide)),
    {
        let mvv = encoding::decode_vector_clock(bytes.as_slice());
        let config = GcConfig::default();
        match self.doc.update_min_version(mvv, &config, divide) {
            Some(report) => {
                if report.tombstones_removed > 0 {
                    let mut status = String::new();
                    status.append("gc removed ");
                    text::push_decimal(&mut status, report.tombstones_removed as u64);
                    status.append(" tombstones");
                    proof {
                        assert(status@ =~= "gc removed "@ + text::decimal(report.tombstones_removed as nat)
                            + " tombstones"@);
                    }
                    self.status = status;
                }
            },
            None => {},
        }
    }

    /// Whether the client may draw.
    fn can_edit(&self) -> (yes: bool)
        ensures
            yes == may_edit(self@),
    {
        self.connected && self.loaded && self.actor.is_some()
    }

    /// Begins a stroke.
    pub fn begin_stroke(&mut self, point: AppPoint)
        requires
            old(self).wf(),
        ensures
            final(self).wf(),
            final(self)@ == begun(old(self)@, point),
    {
        if self.can_edit() {
            let mut points: Vec<AppPoint> = Vec::new();
            points.push(point);
            proof {
                assert(points@ =~= seq![point]);
            }
            self.live = Some(LiveStroke { color: self.color, points });
        }
    }

    /// Goes on with a stroke.
    pub fn extend_stroke(&mut self, point: AppPoint)
        requires
            old(self).wf(),
        ensures
            final(self).wf(),
            final(self)@ == extended(old(self)@, point),
    {
        match &mut self.live {
            Some(stroke) => {
                stroke.points.push(point);
            },
            None => {},
        }
    }

    /// Finishes a stroke.
    pub fn end_stroke<D: Fn(StrokePoint, StrokePoint, StrokePoint) -> F32>(&mut self, distance: &D) -> (events:
        Vec<ClientEvent>)
        requires
            old(self).wf(),
            old(self)@.doc.clock < u64::MAX,
            old(self)@.doc.items.len() < usize::MAX,
            simplify::well_defined(*distance),
            fits(ended(old(self)@, simplify::measure(*distance)).0),
        ensures
            final(self).wf(),
            (final(self)@, frames_of(events@)) == ended(old(self)@, simplify::measure(*distance)),
    {
        let mut taken: Option<LiveStroke> = None;
        std::mem::swap(&mut taken, &mut self.live);
        match taken {
            Some(stroke) => {
                if stroke.points.len() >= 2 && self.can_edit() {
                    return self.commit(stroke, distance);
                }
            },
            None => {},
        }
        send_none()
    }

    /// Drops a stroke.
    pub fn cancel_stroke(&mut self)
        requires
            old(self).wf(),
        ensures
            final(self).wf(),
            final(self)@ == (ClientView { live: None, ..old(self)@ }),
    {
        self.live = None;
    }

    /// Puts a stroke into the document and sends it.
    fn commit<D: Fn(StrokePoint, StrokePoint, StrokePoint) -> F32>(&mut self, stroke: LiveStroke, distance: &D) -> (
    events: Vec<ClientEvent>)
        requires
            old(self).wf(),
            old(self)@.doc.clock < u64::MAX,
            old(self)@.doc.items.len() < usize::MAX,
            simplify::well_defined(*distance),
            fits(
                flushed(
                    ClientView {
                        doc: drawn_in(old(self)@.doc, stroke.color, stroke.points@, simplify::measure(*distance)),
                        ..old(self)@
                    },
                ).0,
            ),
        ensures
            final(self).wf(),
            (final(self)@, frames_of(events@)) == flushed(
                ClientView {
                    doc: drawn_in(old(self)@.doc, stroke.color, stroke.points@, simplify::measure(*distance)),
                    ..old(self)@
                },
            ),
    {
        draw_into(&mut self.doc, &stroke, distance);
        self.flush()
    }

    /// Sends the operations that are waiting.
    fn flush(&mut self) -> (events: Vec<ClientEvent>)
        requires
            old(self).wf(),
            fits(flushed(old(self)@).0),
        ensures
            final(self).wf(),
            (final(self)@, frames_of(events@)) == flushed(old(self)@),
    {
        let ops = self.doc.take_pending_ops();
        proof {
            assert(operation::views(ops@).len() == ops@.len());
        }
        if ops.len() == 0 {
            proof {
                assert(self@.doc =~= old(self)@.doc);
            }
            return send_none();
        }
        let message = ProtocolMessage::Update { bytes: encoding::encode_update(ops.as_slice()) };
        self.send("update", &message)
    }

    /// Tells where the pointer is.
    pub fn awareness_frame(&mut self, point: AppPoint, now_ms: u64) -> (events: Vec<ClientEvent>)
        requires
            old(self).wf(),
            fits(pointed(old(self)@, point, now_ms).0),
        ensures
            final(self).wf(),
            (final(self)@, frames_of(events@)) == pointed(old(self)@, point, now_ms),
    {
        let actor = match self.actor {
            Some(actor) => actor,
            None => {
                return send_none();
            },
        };
        if !self.connected || !self.loaded {
            return send_none();
        }
        let cursor = CursorState::new(actor, point.x, point.y, now_ms, self.color);
        let message = ProtocolMessage::Awareness { bytes: awareness::encode_cursor(&cursor) };
        self.send("cursor", &message)
    }

    /// Undoes the last stroke.
    pub fn undo(&mut self) -> (events: Vec<ClientEvent>)
        requires
            old(self).wf(),
            document::undo_fits(old(self)@.doc),
            fits(undone(old(self)@).0),
        ensures
            final(self).wf(),
            (final(self)@, frames_of(events@)) == undone(old(self)@),
    {
        if self.can_edit() {
            if self.doc.undo_last_stroke().is_some() {
                return self.flush();
            }
        }
        send_none()
    }

    /// The visible strokes, bottom to top.
    pub fn strokes(&self) -> (list: Vec<StrokeView>)
        ensures
            list@.map_values(|v: StrokeView| v@) == pictures(
                document::visible_ids(self@.doc.items),
                self@.doc.strokes,
            ),
    {
        visible_strokes(&self.doc)
    }

    /// The stroke that is being drawn.
    pub fn live_stroke(&self) -> (shown: Option<StrokeView>)
        ensures
            match self@.live {
                Some(stroke) => shown matches Some(v) && v@ == live_picture(stroke),
                None => shown is None,
            },
    {
        match &self.live {
            Some(stroke) => Some(show_live(stroke)),
            None => None,
        }
    }

    /// The cursors of the other clients, in no particular order.
    pub fn cursors(&self) -> (views: Vec<CursorView>)
        requires
            self.wf(),
        ensures
            exists|list: Seq<CursorState>|
                #[trigger] awareness::lists(self@.cursors, list) && views@ == remote(list, self@.actor),
    {
        let list = self.awareness.all();
        let ghost all = list@;
        let mut views: Vec<CursorView> = Vec::new();
        let mut i: usize = 0;
        proof {
            assert(all.take(0) =~= seq![]);
        }
        while i < list.len()
            invariant
                i <= list@.len(),
                all == list@,
                views@ == remote(all.take(i as int), self@.actor),
            decreases list@.len() - i,
        {
            let c = list[i];
            proof {
                assert(all.take(i + 1).drop_last() =~= all.take(i as int));
                assert(all.take(i + 1).last() == c);
            }
            let own = match self.actor {
                Some(actor) => actor == c.actor,
                None => false,
            };
            if !own {
                views.push(
                    CursorView { actor: c.actor.0, color: c.color, point: AppPoint::new(c.x, c.y, F32::one()) },
                );
            }
            i += 1;
        }
        proof {
            assert(all.take(i as int) =~= all);
            assert(awareness::lists(self@.cursors, all));
        }
        views
    }

    /// Counts of the client.
    pub fn stats(&self) -> (stats: AppStats)
        requires
            self.wf(),
        ensures
            stats.actor == (match self@.actor {
                Some(actor) => Some(actor.0),
                None => None,
            }),
            stats.resume_token@ == short(self@.resume_token),
            stats.visible_strokes == document::visible_ids(self@.doc.items).len(),
            stats.undo_depth == self@.doc.undo.len(),
            stats.remote_cursors == self@.cursors.len() - (match self@.actor {
                Some(actor) if self@.cursors.contains_key(actor.0) => 1int,
                _ => 0int,
            }),
            stats.gc_generation == self@.doc.gc_generation,
            stats.frames_sent == self@.frames_sent,
            stats.frames_received == self@.frames_received,
            stats.bytes_sent == self@.bytes_sent,
            stats.bytes_received == self@.bytes_received,
            stats.status@ == self@.status,
    {
        let cursors = self.cursors();
        proof {
            let list = choose|list: Seq<CursorState>| #[trigger]
                awareness::lists(self@.cursors, list) && cursors@ == remote(list, self@.actor);
            lemma_remote_count(list, self@.actor);
            match self@.actor {
                Some(actor) => {
                    if self@.cursors.contains_key(actor.0) {
                        let i = choose|i: int| 0 <= i < list.len() && (#[trigger] list[i]).actor.0 == actor.0;
                        assert(list[i].actor == actor);
                    }
                    if among(list, actor) {
                        let i = choose|i: int| 0 <= i < list.len() && (#[trigger] list[i]).actor == actor;
                        assert(self@.cursors.contains_key(list[i].actor.0));
                    }
                },
                None => {},
            }
        }
        AppStats {
            actor: match self.actor {
                Some(actor) => Some(actor.0),
                None => None,
            },
            resume_token: short_token(&self.resume_token),
            visible_strokes: self.doc.visible_stroke_ids().len(),
            undo_depth: self.doc.undo_depth(),
            remote_cursors: cursors.len(),
            gc_generation: self.doc.gc_generation,
            frames_sent: self.frames_sent,
            frames_received: self.frames_received,
            bytes_sent: self.bytes_sent,
            bytes_received: self.bytes_received,
            status: self.status.clone(),
        }
    }

    pub fn connection_state(&self) -> (state: ConnectionState)
        ensures
            state == (ConnectionState { connected: self@.connected, loaded: self@.loaded }),
    {
        ConnectionState { connected: self.connected, loaded: self.loaded }
    }

    /// The frames sent and received, the last one first.
    pub fn wire_log(&self) -> (log: &[WireEntry])
        ensures
            entry_views(log@) == self@.wire_log,
    {
        self.wire_log.as_slice()
    }
}

/// Whether a cursor is the actor's.
spec fn among(list: Seq<CursorState>, actor: ActorId) -> bool {
    exists|i: int| 0 <= i < list.len() && (#[trigger] list[i]).actor == actor
}

proof fn lemma_remote_count(list: Seq<CursorState>, local: Option<ActorId>)
    requires
        forall|i: int, j: int|
            0 <= i < list.len() && 0 <= j < list.len() && (#[trigger] list[i]).actor == (#[trigger] list[j]).actor
                ==> i == j,
    ensures
        remote(list, local).len() == list.len() - (if local is Some && among(list, local->0) {
            1int
        } else {
            0int
        }),
    decreases list.len(),
{
    if list.len() > 0 {
        let less = list.drop_last();
        assert forall|i: int, j: int|
            0 <= i < less.len() && 0 <= j < less.len() && (#[trigger] less[i]).actor == (#[trigger] less[j]).actor
            implies i == j by {
            assert(list[i].actor == list[j].actor);
        }
        lemma_remote_count(less, local);
        match local {
            Some(actor) => {
                if list.last().actor == actor {
                    assert(list[list.len() - 1].actor == actor);
                    if among(less, actor) {
                        let i = choose|i: int| 0 <= i < less.len() && (#[trigger] less[i]).actor == actor;
                        assert(list[i].actor == list[list.len() - 1].actor);
                    }
                } else {
                    if among(less, actor) {
                        let i = choose|i: int| 0 <= i < less.len() && (#[trigger] less[i]).actor == actor;
                        assert(list[i].actor == actor);
                    }
                    if among(list, actor) {
                        let i = choose|i: int| 0 <= i < list.len() && (#[trigger] list[i]).actor == actor;
                        assert(less[i].actor == actor);
                    }
                }
            },
            None => {},
        }
    }
}

/// The log keeps the last frames, and no more than its limit.
pub proof fn law_log_is_bounded(log: Seq<WireEntryView>, entry: WireEntryView)
    requires
        log.len() <= MAX_LOG,
    ensures
        noted(log, entry).len() <= MAX_LOG,
        noted(log, entry)[0] == entry,
        forall|i: int| 0 < i < noted(log, entry).len() ==> #[trigger] noted(log, entry)[i] == log[i - 1],
{
}

/// A client without a name, a socket or a document draws and sends nothing.
pub proof fn law_no_editing_before_loading(
    s: ClientView,
    point: AppPoint,
    now_ms: u64,
    d: spec_fn(StrokePoint, StrokePoint, StrokePoint) -> F32,
)
    requires
        !may_edit(s),
    ensures
        begun(s, point) == s,
        ended(s, d).0.doc == s.doc,
        ended(s, d).1.len() == 0,
        undone(s) == (s, Seq::<Seq<u8>>::empty()),
        pointed(s, point, now_ms) == (s, Seq::<Seq<u8>>::empty()),
{
}

/// A point of the canvas and the point of a stroke that it becomes have the
/// same coordinates and the same pressure, in both directions.
pub proof fn law_points_keep_their_pressure(p: AppPoint, q: StrokePoint)
    ensures
        stroke_point(p).x == p.x && stroke_point(p).y == p.y && stroke_point(p).pressure == p.pressure,
        app_point(q).x == q.x && app_point(q).y == q.y && app_point(q).pressure == q.pressure,
        app_point(stroke_point(p)) == p,
        stroke_point(app_point(q)) == q,
{
}

/// The stroke that comes of drawing has points of those that were drawn, in
/// their order, with coordinates and pressure as they were drawn, the first and
/// the last among them; and all of them where simplification is off. It is a
/// pen stroke in the given colour, three wide and opaque, and what is sent of it
/// is what is stored.
pub proof fn law_strokes_have_the_drawn_points(
    s: DocumentView,
    color: u32,
    points: Seq<AppPoint>,
    d: spec_fn(StrokePoint, StrokePoint, StrokePoint) -> F32,
) -> (from: Seq<int>)
    requires
        document::consistent(s),
        s.clock < u64::MAX,
        0 < points.len() <= usize::MAX,
    ensures
        ({
            let t = drawn_in(s, color, points, d);
            let id = OpId { lamport: LamportTs((s.clock + 1) as u64), actor: s.actor };
            let path = t.strokes[id].data.points;
            let looks = t.strokes[id].properties;
            &&& t.strokes.contains_key(id)
            &&& t.strokes.remove(id) == s.strokes.remove(id)
            &&& from.len() == path.len() && path.len() > 0
            &&& forall|k: int| 0 <= k < from.len() ==> 0 <= #[trigger] from[k] < points.len()
            &&& forall|k: int, l: int| 0 <= k < l < from.len() ==> #[trigger] from[k] < #[trigger] from[l]
            &&& forall|k: int|
                0 <= k < path.len() ==> (#[trigger] path[k]).x == points[from[k]].x && path[k].y == points[from[k]].y
                    && path[k].pressure == points[from[k]].pressure
            &&& path.first().x == points.first().x && path.first().y == points.first().y && path.first().pressure
                == points.first().pressure
            &&& path.last().x == points.last().x && path.last().y == points.last().y && path.last().pressure
                == points.last().pressure
            &&& !F32::zero().below(s.simplify_epsilon) || points.len() <= 2 ==> path.len() == points.len()
            &&& t.strokes[id].data.tool == ToolKind::Pen
            &&& looks.color.value == color && looks.stroke_width.value.bits == 0x4040_0000 && looks.opacity.value.bits
                == 0x3f80_0000
            &&& looks.transform.value == Transform2D::identity()
            &&& t.pending.len() == s.pending.len() + 1 && t.pending.drop_last() == s.pending
            &&& t.pending.last() is InsertStroke && t.pending.last()->InsertStroke_id == id
            &&& t.pending.last()->InsertStroke_data == t.strokes[id].data
            &&& t.pending.last()->InsertStroke_properties == looks
        }),
{
    let all = points.map_values(|p: AppPoint| stroke_point(p));
    let data = stroke::stroke_data(all, ToolKind::Pen);
    let t = drawn_in(s, color, points, d);
    let id = document::next_id(s);
    document::law_drawn_strokes_are_stored_and_sent(
        s,
        document::tidied(data, d, s.simplify_epsilon),
        stroke::drawn(color, pen_width(), F32::one(), OpId::zero()),
    );
    document::law_paths_are_simplified_when_drawn(data, d, s.simplify_epsilon);
    assert(t.strokes.remove(id) =~= s.strokes.remove(id));
    let from = simplify::law_simplified_points_are_selected(all, d, s.simplify_epsilon);
    simplify::law_ends_and_order_are_kept(all, d, s.simplify_epsilon);
    if F32::zero().below(s.simplify_epsilon) {
        if points.len() <= 2 {
            simplify::law_short_paths_stay(all, d, s.simplify_epsilon);
        }
        from
    } else {
        Seq::new(points.len(), |k: int| k)
    }
}

/// A stroke is shown with its colour, width and opacity, and with its points at
/// their places and with their pressure.
pub proof fn law_strokes_are_shown_as_they_are(view: stroke::StrokeView, k: int)
    ensures
        picture(view).color == view.properties.color.value,
        picture(view).width == view.properties.stroke_width.value,
        picture(view).opacity == view.properties.opacity.value,
        picture(view).points.len() == view.data.points.len(),
        0 <= k < view.data.points.len() ==> {
            let p = picture(view).points[k];
            let q = view.data.points[k];
            p.x == q.x && p.y == q.y && p.pressure == q.pressure
        },
{
}

/// Of the listed strokes that are stored each is shown, in the order of the
/// list.
pub proof fn law_listed_strokes_are_shown(ids: Seq<OpId>, strokes: Map<OpId, stroke::StrokeView>)
    ensures
        (forall|k: int| 0 <= k < ids.len() ==> strokes.contains_key(#[trigger] ids[k])) ==> {
            &&& pictures(ids, strokes).len() == ids.len()
            &&& forall|k: int| 0 <= k < ids.len() ==> #[trigger] pictures(ids, strokes)[k] == picture(strokes[ids[k]])
        },
    decreases ids.len(),
{
    if ids.len() > 0 && (forall|k: int| 0 <= k < ids.len() ==> strokes.contains_key(#[trigger] ids[k])) {
        let less = ids.drop_last();
        assert forall|k: int| 0 <= k < less.len() implies strokes.contains_key(#[trigger] less[k]) by {
            assert(less[k] == ids[k]);
        }
        law_listed_strokes_are_shown(less, strokes);
        assert(strokes.contains_key(ids[ids.len() - 1]));
        assert forall|k: int| 0 <= k < ids.len() implies #[trigger] pictures(ids, strokes)[k] == picture(
            strokes[ids[k]],
        ) by {
            if k < less.len() {
                assert(pictures(less, strokes)[k] == picture(strokes[less[k]]));
            }
        }
    }
}

/// All strokes of a document that are not deleted are shown, bottom to top.
pub proof fn law_documents_are_shown_in_full(s: DocumentView, k: int)
    requires
        document::consistent(s),
        0 <= k < document::visible_ids(s.items).len(),
    ensures
        pictures(document::visible_ids(s.items), s.strokes).len() == document::visible_ids(s.items).len(),
        pictures(document::visible_ids(s.items), s.strokes)[k] == picture(
            s.strokes[document::visible_ids(s.items)[k]],
        ),
{
    let ids = document::visible_ids(s.items);
    let at = document::law_shown_strokes_are_those_not_deleted(s.items);
    assert forall|i: int| 0 <= i < ids.len() implies s.strokes.contains_key(#[trigger] ids[i]) by {
        let item = s.items[at[i]];
        assert(document::settled(s, item));
        assert(crate::rga::has_id(s.items, item.id));
        assert(s.strokes.contains_key(item.id));
    }
    law_listed_strokes_are_shown(ids, s.strokes);
}

/// A stroke that is being drawn is shown with all its points, in its colour, as
/// wide as it will be, and lighter.
pub proof fn law_live_strokes_are_shown(stroke: (u32, Seq<AppPoint>))
    ensures
        live_picture(stroke).color == stroke.0,
        live_picture(stroke).points == stroke.1,
        live_picture(stroke).width.bits == 0x4040_0000,
        live_picture(stroke).opacity.bits == 0x3f26_6666,
        live_picture(stroke).opacity.below(F32::one()),
{
}

/// A stroke is begun with one point in the colour of the client, where the
/// client may draw, and goes on point by point; beginning and extending change
/// nothing else.
pub proof fn law_strokes_grow_point_by_point(s: ClientView, first: AppPoint, next: AppPoint)
    requires
        s.connected && s.loaded && s.actor is Some,
    ensures
        begun(s, first) == (ClientView { live: Some((s.color, seq![first])), ..s }),
        s.live is None ==> extended(s, next) == s,
        s.live is Some ==> extended(s, next).live == Some(((s.live->0).0, (s.live->0).1.push(next))),
        s.live is Some ==> extended(s, next) == (ClientView { live: extended(s, next).live, ..s }),
        extended(begun(s, first), next).live == Some((s.color, seq![first, next])),
{
    assert(seq![first].push(next) =~= seq![first, next]);
}

/// What is sent is one frame that decodes to the message, and it is counted.
proof fn lemma_sent(s: ClientView, kind: Seq<char>, message: MessageView)
    requires
        protocol::fits(message),
    ensures
        sent(s, kind, message).1.len() == 1,
        protocol::parse_message(sent(s, kind, message).1[0]) == Ok::<MessageView, protocol::ProtocolError>(message),
        ({
            let t = sent(s, kind, message).0;
            &&& t.frames_sent == s.frames_sent + 1
            &&& t.bytes_sent == s.bytes_sent + sent(s, kind, message).1[0].len()
            &&& t == ClientView {
                frames_sent: t.frames_sent,
                bytes_sent: t.bytes_sent,
                wire_log: t.wire_log,
                ..s
            }
        }),
{
    protocol::law_message_round_trip(message);
}

/// What a client flushes is one frame with all the operations that wait, in
/// order, after which none waits; and nothing where none does.
pub proof fn law_waiting_operations_are_sent(s: ClientView)
    requires
        s.doc.pending.len() <= document::MAX_STROKES,
        forall|i: int| 0 <= i < s.doc.pending.len() ==> round_trip::sendable_op(#[trigger] s.doc.pending[i]),
        encoding::update_blob(s.doc.pending).len() <= u64::MAX,
    ensures
        ({
            let (t, frames) = flushed(s);
            &&& t.doc == DocumentView { pending: seq![], ..s.doc }
            &&& s.doc.pending.len() == 0 ==> frames.len() == 0 && t == s
            &&& s.doc.pending.len() > 0 ==> {
                let message = protocol::parse_message(frames[0]);
                &&& frames.len() == 1
                &&& message is Ok && message->Ok_0 is Update
                &&& encoding::parse_update(message->Ok_0->Update_bytes) == Ok::<Seq<OperationView>, VectisErrorView>(
                    round_trip::reread_all(s.doc.pending),
                )
            }
        }),
{
    let ops = s.doc.pending;
    round_trip::law_update_round_trip(ops);
    if ops.len() > 0 {
        let message = MessageView::Update { bytes: encoding::update_blob(ops) };
        lemma_sent(ClientView { doc: DocumentView { pending: seq![], ..s.doc }, ..s }, "update"@, message);
    } else {
        assert(s.doc =~= (DocumentView { pending: seq![], ..s.doc }));
    }
}

/// Finishing a stroke of two points or more puts it into the document, as
/// [`law_strokes_have_the_drawn_points`] says, and sends what waits, that stroke
/// last. A shorter one, or one of a client that may not draw, is dropped: the
/// document stays, and nothing is sent. Either way nothing is being drawn then.
pub proof fn law_finished_strokes_are_sent(s: ClientView, d: spec_fn(StrokePoint, StrokePoint, StrokePoint) -> F32)
    requires
        document::consistent(s.doc),
        s.doc.clock < u64::MAX,
        s.live is Some ==> (s.live->0).1.len() <= document::MAX_POINTS_PER_STROKE,
        s.doc.pending.len() < document::MAX_STROKES,
        forall|i: int| 0 <= i < s.doc.pending.len() ==> round_trip::sendable_op(#[trigger] s.doc.pending[i]),
        s.live is Some ==> encoding::update_blob(drawn_in(s.doc, (s.live->0).0, (s.live->0).1, d).pending).len()
            <= u64::MAX,
    ensures
        ({
            let (t, frames) = ended(s, d);
            let drawn = s.live is Some && (s.live->0).1.len() >= 2 && s.connected && s.loaded && s.actor is Some;
            &&& t.live is None
            &&& !drawn ==> t == (ClientView { live: None, ..s }) && frames.len() == 0
            &&& drawn ==> {
                let after = drawn_in(s.doc, (s.live->0).0, (s.live->0).1, d);
                let message = protocol::parse_message(frames[0]);
                &&& t.doc == DocumentView { pending: seq![], ..after }
                &&& frames.len() == 1
                &&& message is Ok && message->Ok_0 is Update
                &&& encoding::parse_update(message->Ok_0->Update_bytes) == Ok::<Seq<OperationView>, VectisErrorView>(
                    round_trip::reread_all(s.doc.pending).push(after.pending.last()),
                )
            }
        }),
{
    if s.live is Some && (s.live->0).1.len() >= 2 && may_edit(s) {
        let (color, points) = s.live->0;
        let after = drawn_in(s.doc, color, points, d);
        let from = law_strokes_have_the_drawn_points(s.doc, color, points, d);
        let u = ClientView { doc: after, live: None, ..s };
        let op = after.pending.last();
        assert(from.len() <= points.len()) by {
            lemma_increasing(from, points.len() as int);
        }
        assert forall|i: int| 0 <= i < after.pending.len() implies round_trip::sendable_op(
            #[trigger] after.pending[i],
        ) by {
            if i < s.doc.pending.len() {
                assert(after.pending.drop_last()[i] == s.doc.pending[i]);
            }
        }
        law_waiting_operations_are_sent(u);
        let all = points.map_values(|p: AppPoint| stroke_point(p));
        document::law_paths_are_simplified_when_drawn(
            stroke::stroke_data(all, ToolKind::Pen),
            d,
            s.doc.simplify_epsilon,
        );
        assert(round_trip::reread(op) == op);
        assert(round_trip::reread_all(after.pending) =~= round_trip::reread_all(s.doc.pending).push(op)) by {
            assert(after.pending =~= s.doc.pending.push(op));
        }
    }
}

/// Ascending numbers below `n` are at most `n`.
pub proof fn lemma_increasing(from: Seq<int>, n: int)
    requires
        forall|k: int| 0 <= k < from.len() ==> 0 <= #[trigger] from[k] < n,
        forall|k: int, l: int| 0 <= k < l < from.len() ==> #[trigger] from[k] < #[trigger] from[l],
        n >= 0,
    ensures
        from.len() <= n,
    decreases n,
{
    if from.len() > 0 {
        let less = from.drop_last();
        let last = from[from.len() - 1];
        assert forall|k: int| 0 <= k < less.len() implies 0 <= #[trigger] less[k] < last by {
            assert(less[k] == from[k]);
        }
        assert forall|k: int, l: int| 0 <= k < l < less.len() implies #[trigger] less[k] < #[trigger] less[l] by {
            assert(less[k] == from[k] && less[l] == from[l]);
        }
        lemma_increasing(less, last);
    }
}

/// An undo does to the document of a client that may draw what an undo does,
/// and sends what waits if a stroke was deleted, and only then.
pub proof fn law_undo_is_sent(s: ClientView)
    requires
        s.connected && s.loaded && s.actor is Some,
        ({
            let pending = document::undone(s.doc).0.pending;
            &&& pending.len() <= document::MAX_STROKES
            &&& forall|i: int| 0 <= i < pending.len() ==> round_trip::sendable_op(#[trigger] pending[i])
            &&& encoding::update_blob(pending).len() <= u64::MAX
        }),
    ensures
        ({
            let (t, frames) = undone(s);
            let (doc, gone) = document::undone(s.doc);
            &&& gone is None ==> t == (ClientView { doc, ..s }) && frames.len() == 0
            &&& gone is Some && doc.pending.len() > 0 ==> {
                let message = protocol::parse_message(frames[0]);
                &&& t.doc == DocumentView { pending: seq![], ..doc }
                &&& frames.len() == 1
                &&& message is Ok && message->Ok_0 is Update
                &&& encoding::parse_update(message->Ok_0->Update_bytes) == Ok::<Seq<OperationView>, VectisErrorView>(
                    round_trip::reread_all(doc.pending),
                )
            }
        }),
{
    let doc = document::undone(s.doc).0;
    law_waiting_operations_are_sent(ClientView { doc, ..s });
}

/// A client that has its document tells where its pointer is, in one frame that
/// decodes to its own cursor at that place and time, in its colour. Nothing of
/// the document changes.
pub proof fn law_pointers_are_told(s: ClientView, point: AppPoint, now_ms: u64)
    requires
        s.connected && s.loaded && s.actor is Some,
    ensures
        ({
            let (t, frames) = pointed(s, point, now_ms);
            let message = protocol::parse_message(frames[0]);
            &&& frames.len() == 1
            &&& message is Ok && message->Ok_0 is Awareness
            &&& awareness::parse_cursor(message->Ok_0->Awareness_bytes) == Some(
                CursorState { actor: s.actor->0, x: point.x, y: point.y, updated_at_ms: now_ms, color: s.color },
            )
            &&& t.doc == s.doc && t.cursors == s.cursors && t.live == s.live
        }),
{
    let c = CursorState { actor: s.actor->0, x: point.x, y: point.y, updated_at_ms: now_ms, color: s.color };
    awareness::law_cursor_round_trip(c);
    lemma_sent(s, "cursor"@, MessageView::Awareness { bytes: awareness::cursor_bytes(c) });
}

/// A client introduces itself with its room, its token and what it has seen, and
/// reports what it has seen, each in one frame that decodes to that.
#[verifier::spinoff_prover]
pub proof fn law_introductions_and_reports_are_true(s: ClientView)
    requires
        vstd::utf8::encode_utf8(s.room).len() <= u64::MAX,
        vstd::utf8::encode_utf8(s.resume_token).len() <= u64::MAX,
        s.doc.version.dom().finite(),
        types::entries(s.doc.version).len() <= document::MAX_ACTORS,
    ensures
        ({
            let (t, frames) = greeted(s);
            let message = protocol::parse_message(frames[0]);
            &&& frames.len() == 1
            &&& message is Ok && message->Ok_0 is ClientHello
            &&& message->Ok_0->ClientHello_room == s.room
            &&& message->Ok_0->ClientHello_resume_token == s.resume_token
            &&& encoding::parse_state_vector(message->Ok_0->state_vector) == s.doc.version
            &&& t.doc == s.doc
        }),
        ({
            let (t, frames) = reported(s);
            let message = protocol::parse_message(frames[0]);
            &&& frames.len() == 1
            &&& message is Ok && message->Ok_0 is StateVector
            &&& encoding::parse_state_vector(message->Ok_0->StateVector_bytes) == s.doc.version
            &&& t.doc == s.doc
        }),
{
    let sv = encoding::state_vector(s.doc.version);
    round_trip::lemma_state_vector_short(s.doc.version);
    round_trip::law_state_vector_round_trip(s.doc.version);
    assert(sv.len() <= u64::MAX);
    let hello = MessageView::ClientHello { room: s.room, resume_token: s.resume_token, state_vector: sv };
    assert(protocol::fits(hello));
    assert(greeted(s) == sent(s, "hello"@, hello));
    lemma_sent(s, "hello"@, hello);
    let report = MessageView::StateVector { bytes: sv };
    assert(protocol::fits(report));
    assert(reported(s) == sent(s, "state"@, report));
    lemma_sent(s, "state"@, report);
}

/// What a client does with a frame, by what the frame decodes to. A welcome
/// names it, and where the name is new it starts with an empty document; an
/// announcement is confirmed to the document; cursors are taken in; an error is
/// shown. None of these is answered. A frame that cannot be read, or is not for
/// clients, changes neither document nor cursors. Every frame is counted.
pub proof fn law_frames_do_what_they_say(s: ClientView, frame: Seq<u8>, q: spec_fn(usize, usize) -> F64)
    ensures
        ({
            let (t, frames) = received(s, frame, q);
            let message = protocol::parse_message(frame);
            &&& t.frames_received == s.frames_received + 1
            &&& t.bytes_received == s.bytes_received + frame.len()
            &&& t.room == s.room && t.connected == s.connected && t.live == s.live
            &&& message is Ok && message->Ok_0 is ServerWelcome ==> {
                let m = message->Ok_0;
                &&& frames.len() == 0
                &&& t.actor == Some(m->actor) && t.color == m->color && t.resume_token == m->ServerWelcome_resume_token
                &&& t.cursors == s.cursors
                &&& s.actor == Some(m->actor) ==> t.doc == s.doc && t.held == s.held && t.loaded == s.loaded
                &&& s.actor != Some(m->actor) ==> t.doc == document::blank(m->actor) && t.held.len() == 0 && !t.loaded
            }
            &&& message is Ok && message->Ok_0 is Mvv ==> {
                &&& frames.len() == 0
                &&& t.doc == gc::confirmed(
                    s.doc,
                    encoding::parse_state_vector(message->Ok_0->Mvv_bytes),
                    gc::standard(),
                    q,
                ).0
                &&& t.held == s.held && t.cursors == s.cursors && t.loaded == s.loaded && t.actor == s.actor
            }
            &&& message is Ok && message->Ok_0 is Awareness ==> {
                &&& frames.len() == 0
                &&& t.cursors == awareness::applied_bulk(s.cursors, message->Ok_0->Awareness_bytes).0
                &&& t.doc == s.doc && t.held == s.held && t.loaded == s.loaded && t.actor == s.actor
            }
            &&& message is Ok && message->Ok_0 is Error ==> {
                &&& frames.len() == 0
                &&& t.status == message->Ok_0->message
                &&& t.doc == s.doc && t.held == s.held && t.cursors == s.cursors && t.loaded == s.loaded && t.actor
                    == s.actor
            }
            &&& message is Err || message->Ok_0 is ClientHello || message->Ok_0 is StateVector ==> {
                &&& frames.len() == 0
                &&& t.doc == s.doc && t.held == s.held && t.cursors == s.cursors && t.loaded == s.loaded && t.actor
                    == s.actor
            }
        }),
{
}

/// A client takes in an update through its buffer and answers with what it has
/// seen then. One that cannot be read, or finds no room, is not answered; and
/// one that cannot be read changes nothing.
pub proof fn law_updates_are_taken_in(s: ClientView, frame: Seq<u8>, q: spec_fn(usize, usize) -> F64)
    requires
        ({
            let message = protocol::parse_message(frame);
            message is Ok && message->Ok_0 is Update
        }),
    ensures
        ({
            let (t, frames) = received(s, frame, q);
            let ops = encoding::parse_update(protocol::parse_message(frame)->Ok_0->Update_bytes);
            &&& t.actor == s.actor && t.cursors == s.cursors
            &&& ops is Err ==> t.doc == s.doc && t.held == s.held && t.loaded == s.loaded && frames.len() == 0
            &&& ops is Ok ==> {
                let (doc, held, ok) = causal_buffer::absorbed(s.doc, s.held, s.capacity, ops->Ok_0);
                &&& t.doc == doc && t.held == held
                &&& ok ==> t.loaded && frames.len() == 1 && frames[0] == protocol::frame_bytes(
                    MessageView::StateVector { bytes: encoding::state_vector(doc.version) },
                )
                &&& !ok ==> t.loaded == s.loaded && frames.len() == 0
            }
        }),
{
}

/// A client takes over a snapshot as its document, under its own name, empties
/// its buffer, and answers with what it has seen then. Without a name, or where
/// the snapshot cannot be read, nothing changes and nothing is answered.
pub proof fn law_snapshots_are_taken_over(s: ClientView, frame: Seq<u8>, q: spec_fn(usize, usize) -> F64)
    requires
        ({
            let message = protocol::parse_message(frame);
            message is Ok && message->Ok_0 is Snapshot
        }),
    ensures
        ({
            let (t, frames) = received(s, frame, q);
            let bytes = protocol::parse_message(frame)->Ok_0->Snapshot_bytes;
            let doc = snapshot::parse_snapshot(bytes, s.actor->0);
            &&& t.actor == s.actor && t.cursors == s.cursors
            &&& s.actor is None || doc is Err ==> t.doc == s.doc && t.held == s.held && t.loaded == s.loaded
                && frames.len() == 0
            &&& s.actor is Some && doc is Ok ==> {
                &&& t.doc == doc->Ok_0 && t.held.len() == 0 && t.loaded
                &&& frames.len() == 1 && frames[0] == protocol::frame_bytes(
                    MessageView::StateVector { bytes: encoding::state_vector(doc->Ok_0.version) },
                )
            }
        }),
{
}

/// A lost connection ends what is being drawn, and the document has to be
/// brought up to date again; it stays as it is meanwhile, and what waits to be
/// sent goes on waiting.
pub proof fn law_losing_the_connection_keeps_the_document(s: ClientView, connected: bool)
    ensures
        ({
            let t = plugged(s, connected);
            &&& t.connected == connected
            &&& t.doc == s.doc && t.held == s.held && t.cursors == s.cursors && t.actor == s.actor
            &&& t.resume_token == s.resume_token && t.color == s.color && t.room == s.room
            &&& connected ==> t.loaded == s.loaded && t.live == s.live
            &&& !connected ==> !t.loaded && t.live is None
        }),
{
}

/// The cursors that are shown are those of others, in the order of the list,
/// each at its place and in its colour.
pub proof fn law_only_other_cursors_are_shown(list: Seq<CursorState>, local: Option<ActorId>) -> (from: Seq<int>)
    ensures
        from.len() == remote(list, local).len(),
        forall|k: int|
            0 <= k < from.len() ==> {
                let shown = remote(list, local)[k];
                let c = list[from[k]];
                &&& 0 <= #[trigger] from[k] < list.len()
                &&& Some(c.actor) != local
                &&& shown.actor == c.actor.0 && shown.color == c.color
                &&& shown.point.x == c.x && shown.point.y == c.y && shown.point.pressure == F32::one()
            },
        forall|k: int, l: int| 0 <= k < l < from.len() ==> #[trigger] from[k] < #[trigger] from[l],
        forall|i: int| 0 <= i < list.len() && Some((#[trigger] list[i]).actor) != local ==> from.contains(i),
    decreases list.len(),
{
    if list.len() == 0 {
        seq![]
    } else {
        let less = list.drop_last();
        let before = law_only_other_cursors_are_shown(less, local);
        let n = list.len() - 1;
        assert(list[n] == list.last());
        assert forall|i: int| 0 <= i < less.len() implies #[trigger] less[i] == list[i] by {}
        let from = if Some(list.last().actor) == local {
            before
        } else {
            before.push(n)
        };
        assert forall|k: int| 0 <= k < from.len() implies {
            let shown = remote(list, local)[k];
            let c = list[from[k]];
            &&& 0 <= #[trigger] from[k] < list.len()
            &&& Some(c.actor) != local
            &&& shown.actor == c.actor.0 && shown.color == c.color
            &&& shown.point.x == c.x && shown.point.y == c.y && shown.point.pressure == F32::one()
        } by {
            if k < before.len() {
                assert(from[k] == before[k]);
                assert(less[before[k]] == list[before[k]]);
            }
        }
        assert forall|i: int| 0 <= i < list.len() && Some((#[trigger] list[i]).actor) != local implies from.contains(
            i,
        ) by {
            if i < n {
                assert(less[i] == list[i]);
                assert(before.contains(i));
                let k = choose|k: int| 0 <= k < before.len() && before[k] == i;
                assert(from[k] == i);
            } else {
                assert(from[before.len() as int] == i);
            }
        }
        from
    }
}

/// A frame is logged with its direction, its kind, its length and its first
/// eight bytes, in front of those before it.
pub proof fn law_frames_are_logged(s: ClientView, direction: Direction, kind: Seq<char>, frame: Seq<u8>)
    ensures
        ({
            let t = recorded(s, direction, kind, frame);
            let shown = if frame.len() < 8 {
                frame
            } else {
                frame.take(8)
            };
            &&& t.wire_log.len() > 0
            &&& t.wire_log[0].direction == direction && t.wire_log[0].kind == kind
            &&& t.wire_log[0].bytes == frame.len()
            &&& t.wire_log[0].hex == text::hex_list(shown)
            &&& direction == Direction::Outbound ==> t.frames_sent == s.frames_sent + 1 && t.bytes_sent == s.bytes_sent
                + frame.len() && t.frames_received == s.frames_received && t.bytes_received == s.bytes_received
            &&& direction == Direction::Inbound ==> t.frames_received == s.frames_received + 1 && t.bytes_received
                == s.bytes_received + frame.len() && t.frames_sent == s.frames_sent && t.bytes_sent == s.bytes_sent
            &&& t.doc == s.doc && t.held == s.held && t.cursors == s.cursors && t.live == s.live
        }),
{
    assert(frame.take(frame.len() as int) =~= frame);
}

/// A client that is not connected, or has not got its document or a name yet,
/// can neither draw nor undo nor tell where its pointer is: nothing changes and
/// nothing is sent.
pub proof fn law_nothing_is_edited_before_the_document_is_there(s: ClientView, point: AppPoint, now_ms: u64)
    requires
        !s.connected || !s.loaded || s.actor is None,
    ensures
        begun(s, point) == s,
        undone(s).0 == s && undone(s).1.len() == 0,
        pointed(s, point, now_ms).0 == s && pointed(s, point, now_ms).1.len() == 0,
{
}

/// The log has the newest entry first and at most twelve of them.
pub proof fn law_log_is_short_and_newest_first(log: Seq<WireEntryView>, entry: WireEntryView, i: int)
    requires
        log.len() <= 12,
    ensures
        noted(log, entry).len() <= 12,
        noted(log, entry)[0] == entry,
        0 < i < noted(log, entry).len() ==> noted(log, entry)[i] == log[i - 1],
        log.len() < 12 ==> noted(log, entry).len() == log.len() + 1,
        log.len() == 12 ==> noted(log, entry).len() == 12,
{
}

/// What the status says of a connection that comes and goes, and of each frame
/// that is taken in.
pub proof fn law_status_says_what_happened(s: ClientView, frame: Seq<u8>, q: spec_fn(usize, usize) -> F64)
    ensures
        plugged(s, true).status == "connected"@ && plugged(s, false).status == "disconnected"@,
        ({
            let t = received(s, frame, q).0;
            let m = protocol::parse_message(frame);
            &&& m is Err ==> t.status == "protocol decode failed: "@ + m->Err_0.label()
            &&& m is Ok && m->Ok_0 is ServerWelcome ==> t.status == "actor "@ + text::decimal(m->Ok_0->actor.0 as nat)
                + " assigned"@
            &&& m is Ok && m->Ok_0 is Snapshot ==> {
                let doc = snapshot::parse_snapshot(m->Ok_0->Snapshot_bytes, s.actor->0);
                &&& s.actor is None ==> t.status == "snapshot arrived before welcome"@
                &&& s.actor is Some && doc is Ok ==> t.status == "ready"@ && t.capacity == 10_000
                &&& s.actor is Some && doc is Err ==> t.status == "snapshot decode failed: "@ + doc->Err_0.message()
            }
            &&& m is Ok && m->Ok_0 is Update ==> {
                let ops = encoding::parse_update(m->Ok_0->Update_bytes);
                &&& ops is Err ==> t.status == "update decode failed: "@ + ops->Err_0.message()
                &&& ops is Ok && causal_buffer::absorbed(s.doc, s.held, s.capacity, ops->Ok_0).2 ==> t.status == if s.loaded {
                    "synced"@
                } else {
                    "ready"@
                }
                &&& ops is Ok && !causal_buffer::absorbed(s.doc, s.held, s.capacity, ops->Ok_0).2 ==> t.status
                    == "update apply failed: "@ + VectisErrorView::CausalBufferOverflow { capacity: s.capacity }.message()
            }
            &&& m is Ok && m->Ok_0 is Mvv ==> {
                let mvv = encoding::parse_state_vector(m->Ok_0->Mvv_bytes);
                let result = gc::confirmed(s.doc, mvv, gc::standard(), q).1;
                &&& result is Some && result->0.tombstones_removed > 0 ==> t.status == "gc removed "@ + text::decimal(
                    result->0.tombstones_removed as nat,
                ) + " tombstones"@
                &&& result is None || result->0.tombstones_removed == 0 ==> t.status == s.status
            }
            &&& m is Ok && m->Ok_0 is Awareness ==> t.status == s.status
            &&& m is Ok && (m->Ok_0 is ClientHello || m->Ok_0 is StateVector) ==> t.status == "unexpected server frame"@
        }),
{
}

/// Of a token its first twelve characters are shown, or all where it has no more,
/// or a word where there is none.
pub proof fn law_tokens_are_shown_in_short(token: Seq<char>)
    ensures
        token.len() == 0 ==> short(token) == "none"@,
        0 < token.len() <= 12 ==> short(token) == token,
        token.len() > 12 ==> short(token).len() == 12 && short(token).is_prefix_of(token),
{
}

/// A client starts without a name, a document or a connection, in the colour
/// that it has until it is given one, and with all counts at zero.
pub proof fn law_clients_start_empty(room: Seq<char>)
    ensures
        ({
            let s = started(room);
            &&& s.room == room && s.resume_token.len() == 0 && s.actor is None && s.color == 0xa78b_faff
            &&& s.doc == document::blank(ActorId(0)) && s.held.len() == 0 && s.capacity == 10_000
            &&& s.cursors.dom().len() == 0 && s.live is None && !s.connected && !s.loaded
            &&& s.frames_sent == 0 && s.frames_received == 0 && s.bytes_sent == 0 && s.bytes_received == 0
            &&& s.wire_log.len() == 0 && s.status == "connecting"@
        }),
{
}

} // verus!
