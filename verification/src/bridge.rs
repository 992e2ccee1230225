//! A document for a host that speaks in byte strings: a browser.
//!
//! Identifiers go in and out as sixteen bytes, points come as triples of
//! numbers, and strokes are handed out as records to draw from.

use crate::awareness;
use crate::awareness::{AwarenessStore, CursorState};
use crate::causal_buffer;
use crate::causal_buffer::CausalBuffer;
use crate::document;
use crate::document::{Document, DocumentView};
use crate::encoding;
use crate::float::{F32, F64};
use crate::gc;
use crate::gc::{GcConfig, GcResult};
use crate::operation;
use crate::operation::{OperationView, PropertyUpdate};
use crate::rga;
use crate::rga::StrokeId;
use crate::simplify;
use crate::snapshot;
use crate::stroke;
use crate::stroke::{Aabb, StrokeData, StrokePoint, StrokeProperties, StrokeView, ToolKind, Transform2D};
use crate::text;
use crate::types::{ActorId, LamportTs, OpId};
use crate::wire;
use vstd::prelude::*;

verus! {

/// A document, the operations that wait, the cursors of the peers, and the
/// records of the strokes that were last asked for.
pub struct WasmDocument {
    pub inner: Document,
    pub buffer: CausalBuffer,
    pub awareness: AwarenessStore,
    pub render_buf: Vec<u8>,
}

/// The contents of a [`WasmDocument`].
#[verifier::ext_equal]
pub struct BridgeView {
    pub doc: DocumentView,
    pub held: Seq<OperationView>,
    pub capacity: usize,
    pub cursors: Map<u64, CursorState>,
    pub ttl_ms: u64,
    pub rendered: Seq<u8>,
}

impl View for WasmDocument {
    type V = BridgeView;

    open spec fn view(&self) -> BridgeView {
        BridgeView {
            doc: self.inner@,
            held: self.buffer@,
            capacity: self.buffer.max_capacity,
            cursors: self.awareness@,
            ttl_ms: self.awareness.ttl_ms,
            rendered: self.render_buf@,
        }
    }
}

/// A bridge to a document with nothing else in it.
pub open spec fn around(doc: DocumentView) -> BridgeView {
    BridgeView {
        doc,
        held: seq![],
        capacity: causal_buffer::DEFAULT_MAX_CAPACITY,
        cursors: Map::empty(),
        ttl_ms: awareness::DEFAULT_TTL_MS,
        rendered: seq![],
    }
}

/// The points that numbers give, three to a point. What is left over is
/// dropped.
pub open spec fn triples(raw: Seq<F32>) -> Seq<StrokePoint> {
    Seq::new(
        (raw.len() / 3) as nat,
        |i: int| StrokePoint { x: raw[3 * i], y: raw[3 * i + 1], pressure: raw[3 * i + 2] },
    )
}

/// The number in four bytes, as a float.
pub open spec fn float_at(raw: Seq<u8>, at: int) -> F32 {
    F32 { bits: wire::le_value(raw.subrange(at, at + 4)) as u32 }
}

/// The change that a key and a value stand for: 0 is the colour, 1 the width, 2
/// the opacity and 3 the transform. A value that is too short stands for none.
pub open spec fn property_of(key: u8, raw: Seq<u8>) -> Option<PropertyUpdate> {
    if key == 0 && raw.len() >= 4 {
        Some(PropertyUpdate::Color(wire::le_value(raw.subrange(0, 4)) as u32))
    } else if key == 1 && raw.len() >= 4 {
        Some(PropertyUpdate::StrokeWidth(float_at(raw, 0)))
    } else if key == 2 && raw.len() >= 4 {
        Some(PropertyUpdate::Opacity(float_at(raw, 0)))
    } else if key == 3 && raw.len() >= 24 {
        Some(
            PropertyUpdate::Transform(
                Transform2D {
                    a: float_at(raw, 0),
                    b: float_at(raw, 4),
                    c: float_at(raw, 8),
                    d: float_at(raw, 12),
                    tx: float_at(raw, 16),
                    ty: float_at(raw, 20),
                },
            ),
        )
    } else {
        None
    }
}

/// The bytes of a float.
pub open spec fn float_bytes(x: F32) -> Seq<u8> {
    wire::le(x.bits as nat, 4)
}

/// The bytes of a point.
pub open spec fn point_record(p: StrokePoint) -> Seq<u8> {
    float_bytes(p.x) + float_bytes(p.y) + float_bytes(p.pressure)
}

/// The bytes of points, one after another.
pub open spec fn point_records(points: Seq<StrokePoint>) -> Seq<u8>
    decreases points.len(),
{
    if points.len() == 0 {
        seq![]
    } else {
        point_records(points.drop_last()) + point_record(points.last())
    }
}

/// The record of a stroke: its identifier, the number of its points, its tool
/// and properties, and its points.
pub open spec fn record(id: OpId, view: StrokeView) -> Seq<u8> {
    let p = view.properties;
    let t = p.transform.value;
    encoding::fixed_id(id) + wire::le((view.data.points.len() % 0x1_0000_0000) as nat, 4) + seq![view.data.tool.code()]
        + wire::le(p.color.value as nat, 4) + float_bytes(p.stroke_width.value) + float_bytes(p.opacity.value)
        + float_bytes(t.a) + float_bytes(t.b) + float_bytes(t.c) + float_bytes(t.d) + float_bytes(t.tx) + float_bytes(
        t.ty,
    ) + point_records(view.data.points)
}

/// The records of those of the listed strokes that are known and wanted.
pub open spec fn records(
    ids: Seq<OpId>,
    strokes: Map<OpId, StrokeView>,
    wanted: spec_fn(StrokeView) -> bool,
) -> Seq<u8>
    decreases ids.len(),
{
    if ids.len() == 0 {
        seq![]
    } else {
        let rest = records(ids.drop_last(), strokes, wanted);
        let id = ids.last();
        if strokes.contains_key(id) && wanted(strokes[id]) {
            rest + record(id, strokes[id])
        } else {
            rest
        }
    }
}

/// Every stroke is wanted.
pub open spec fn any_stroke() -> spec_fn(StrokeView) -> bool {
    |view: StrokeView| true
}

/// Whether a stroke, transformed and grown, reaches into a viewport. Where the
/// transform is the identity its box is taken as it is.
pub open spec fn reaches<
    A: Fn(F32, F32) -> F32,
    S: Fn(F32, F32) -> F32,
    P: Fn(Transform2D, F32, F32) -> (F32, F32),
>(viewport: Aabb, by: F32, add: A, sub: S, place: P) -> spec_fn(StrokeView) -> bool {
    |view: StrokeView|
        {
            let t = view.properties.transform.value;
            let b = if stroke::in_place(t) {
                view.data.bounds
            } else {
                stroke::transformed_box(view.data.bounds, t, place)
            };
            stroke::overlap(stroke::expanded_box(b, by, add, sub), viewport)
        }
}

/// The text of a truth value.
pub open spec fn truth(b: bool) -> Seq<char> {
    if b {
        "true"@
    } else {
        "false"@
    }
}

/// What a host is told of a collection.
pub open spec fn gc_json(r: GcResult) -> Seq<char> {
    "{\"removed\":"@ + text::decimal(r.tombstones_removed as nat) + ",\"freed\":"@ + text::decimal(
        r.bytes_freed_estimate as nat,
    ) + ",\"gen\":"@ + text::decimal(r.generation as nat) + ",\"partial\":"@ + truth(r.partial) + "}"@
}

/// What a host is told of the counts; `ratio` is the share of tombstones as it
/// is to be shown.
pub open spec fn stats_json(s: BridgeView, ratio: Seq<char>) -> Seq<char> {
    "{\"total_items\":"@ + text::decimal(s.doc.items.len()) + ",\"visible\":"@ + text::decimal(
        rga::visible(s.doc.items).len(),
    ) + ",\"tombstones\":"@ + text::decimal(rga::tombstones(s.doc.items)) + ",\"tombstone_ratio\":"@ + ratio
        + ",\"gc_gen\":"@ + text::decimal(s.doc.gc_generation as nat) + ",\"pending_ops\":"@ + text::decimal(
        s.doc.pending.len(),
    ) + ",\"causal_buffer\":"@ + text::decimal(s.held.len()) + ",\"awareness_peers\":"@ + text::decimal(
        s.cursors.len(),
    ) + "}"@
}

/// The points that numbers give, three to a point.
fn parse_points(raw: &[F32]) -> (points: Vec<StrokePoint>)
    ensures
        points@ == triples(raw@),
{
    let n: usize = raw.len() / 3;
    let mut points: Vec<StrokePoint> = Vec::new();
    let mut i: usize = 0;
    while i < n
        invariant
            i <= n,
            n == raw@.len() / 3,
            points@.len() == i,
            forall|j: int| 0 <= j < i ==> #[trigger] points@[j] == triples(raw@)[j],
        decreases n - i,
    {
        assert(3 * i + 2 < raw.len());
        points.push(StrokePoint::new(raw[3 * i], raw[3 * i + 1], raw[3 * i + 2]));
        i += 1;
    }
    proof {
        assert(points@ =~= triples(raw@));
    }
    points
}

/// The number in four bytes.
fn number_at(raw: &[u8], at: usize) -> (v: u32)
    requires
        at + 4 <= raw@.len(),
    ensures
        v == wire::le_value(raw@.subrange(at as int, at + 4)),
{
    proof {
        assert(raw@.skip(at as int).take(4) =~= raw@.subrange(at as int, at + 4));
    }
    match wire::decode_u32_at(raw, at) {
        Some((v, _)) => v,
        None => 0,
    }
}

fn read_float(raw: &[u8], at: usize) -> (x: F32)
    requires
        at + 4 <= raw@.len(),
    ensures
        x == float_at(raw@, at as int),
{
    F32 { bits: number_at(raw, at) }
}

/// The transform in the first twenty-four bytes.
fn decode_transform_from_bytes(raw: &[u8]) -> (t: Transform2D)
    requires
        raw@.len() >= 24,
    ensures
        property_of(3, raw@) == Some(PropertyUpdate::Transform(t)),
{
    Transform2D {
        a: read_float(raw, 0),
        b: read_float(raw, 4),
        c: read_float(raw, 8),
        d: read_float(raw, 12),
        tx: read_float(raw, 16),
        ty: read_float(raw, 20),
    }
}

fn put_float(x: F32, out: &mut Vec<u8>)
    ensures
        final(out)@ == old(out)@ + float_bytes(x),
{
    wire::encode_u32(x.bits, out);
}

fn put_points(points: &Vec<StrokePoint>, out: &mut Vec<u8>)
    ensures
        final(out)@ == old(out)@ + point_records(points@),
{
    let ghost head = out@;
    let mut i: usize = 0;
    proof {
        assert(points@.take(0) =~= seq![]);
        assert(out@ =~= head + point_records(points@.take(0)));
    }
    while i < points.len()
        invariant
            i <= points@.len(),
            head == old(out)@,
            out@ == head + point_records(points@.take(i as int)),
        decreases points@.len() - i,
    {
        let p = points[i];
        proof {
            assert(points@.take(i + 1).drop_last() =~= points@.take(i as int));
            assert(points@.take(i + 1).last() == p);
        }
        put_float(p.x, out);
        put_float(p.y, out);
        put_float(p.pressure, out);
        proof {
            assert(out@ =~= head + point_records(points@.take(i + 1)));
        }
        i += 1;
    }
    proof {
        assert(points@.take(i as int) =~= points@);
    }
}

/// Appends the record of a stroke.
fn write_stroke_to_buf(buf: &mut Vec<u8>, id: &StrokeId, data: &StrokeData, props: &StrokeProperties)
    ensures
        final(buf)@ == old(buf)@ + record(*id, (StrokeView { data: data@, properties: *props })),
{
    let fixed = encoding::encode_op_id(id);
    wire::put_bytes(fixed.as_slice(), buf);
    let n: u64 = data.points.len() as u64;
    wire::encode_u32((n % 0x1_0000_0000) as u32, buf);
    buf.push(data.tool.to_u8());
    wire::encode_u32(props.color.value, buf);
    put_float(props.stroke_width.value, buf);
    put_float(props.opacity.value, buf);
    let t = props.transform.value;
    put_float(t.a, buf);
    put_float(t.b, buf);
    put_float(t.c, buf);
    put_float(t.d, buf);
    put_float(t.tx, buf);
    put_float(t.ty, buf);
    put_points(&data.points, buf);
    proof {
        assert(buf@ =~= old(buf)@ + record(*id, (StrokeView { data: data@, properties: *props })));
    }
}

/// The text of a truth value.
fn truth_text(b: bool) -> (text: &'static str)
    ensures
        text@ == truth(b),
{
    if b {
        "true"
    } else {
        "false"
    }
}

/// What a host is told of a collection.
fn gc_text(r: &GcResult) -> (json: String)
    ensures
        json@ == gc_json(*r),
{
    let mut json = String::new();
    json.append("{\"removed\":");
    text::push_decimal(&mut json, r.tombstones_removed as u64);
    json.append(",\"freed\":");
    text::push_decimal(&mut json, r.bytes_freed_estimate as u64);
    json.append(",\"gen\":");
    text::push_decimal(&mut json, r.generation);
    json.append(",\"partial\":");
    json.append(truth_text(r.partial));
    json.append("}");
    proof {
        assert(json@ =~= gc_json(*r));
    }
    json
}

impl WasmDocument {
    /// The document and the cursors are valid.
    pub open spec fn wf(&self) -> bool {
        &&& self.inner.wf()
        &&& self.awareness.wf()
    }

    /// An empty document of an actor.
    pub fn new(actor_id: u64) -> (bridge: Self)
        ensures
            bridge.wf(),
            bridge@ == around(document::blank(ActorId(actor_id))),
    {
        WasmDocument {
            inner: Document::new(ActorId(actor_id)),
            buffer: CausalBuffer::new(),
            awareness: AwarenessStore::new(),
            render_buf: Vec::new(),
        }
    }

    /// The document of a snapshot, or why there is none.
    pub fn from_snapshot(actor_id: u64, bytes: &[u8]) -> (result: Result<WasmDocument, String>)
        ensures
            match snapshot::parse_snapshot(bytes@, ActorId(actor_id)) {
                Ok(doc) => result matches Ok(bridge) && bridge.wf() && bridge@ == around(doc),
                Err(e) => result matches Err(message) && message@ == e.message(),
            },
    {
        match snapshot::decode_snapshot(bytes, ActorId(actor_id)) {
            Ok(doc) => Ok(
                WasmDocument {
                    inner: doc,
                    buffer: CausalBuffer::new(),
                    awareness: AwarenessStore::new(),
                    render_buf: Vec::new(),
                },
            ),
            Err(e) => Err(e.to_string()),
        }
    }

    /// Draws a stroke, and gives its identifier.
    pub fn insert_stroke<D: Fn(StrokePoint, StrokePoint, StrokePoint) -> F32>(
        &mut self,
        points_raw: &[F32],
        tool: u8,
        color: u32,
        stroke_width: F32,
        opacity: F32,
        distance: &D,
    ) -> (id: Vec<u8>)
        requires
            old(self).wf(),
            old(self)@.doc.clock < u64::MAX,
            old(self)@.doc.items.len() < usize::MAX,
            simplify::well_defined(*distance),
        ensures
            final(self).wf(),
            id@ == encoding::fixed_id(document::next_id(old(self)@.doc)),
            ({
                let s = old(self)@.doc;
                let path = stroke::stroke_data(triples(points_raw@), ToolKind::of_code(tool));
                final(self)@ == BridgeView {
                    doc: document::inserted(
                        s,
                        document::tidied(path, simplify::measure(*distance), s.simplify_epsilon),
                        stroke::drawn(color, stroke_width, opacity, OpId::zero()),
                    ),
                    ..old(self)@
                }
            }),
    {
        let data = StrokeData::new(parse_points(points_raw), ToolKind::from_u8(tool));
        let props = StrokeProperties::new(color, stroke_width, opacity, OpId::zero());
        let id = self.inner.insert_stroke(data, props, distance);
        encoding::encode_op_id(&id)
    }

    /// Deletes a stroke, and says whether it was there and visible.
    pub fn delete_stroke(&mut self, stroke_id: &[u8]) -> (changed: bool)
        requires
            old(self).wf(),
            old(self)@.doc.clock < u64::MAX,
        ensures
            final(self).wf(),
            changed == document::deletable(old(self)@.doc, encoding::parse_fixed_id(stroke_id@)),
            final(self)@ == (BridgeView {
                doc: document::deleted(old(self)@.doc, encoding::parse_fixed_id(stroke_id@)),
                ..old(self)@
            }),
    {
        let target = encoding::decode_op_id(stroke_id);
        self.inner.delete_stroke(target)
    }

    /// Changes a property of a stroke, and says whether there is such a
    /// property and such a stroke.
    pub fn update_stroke_property(&mut self, stroke_id: &[u8], property_key: u8, value_raw: &[u8]) -> (found: bool)
        requires
            old(self).wf(),
            old(self)@.doc.clock < u64::MAX,
        ensures
            final(self).wf(),
            ({
                let target = encoding::parse_fixed_id(stroke_id@);
                match property_of(property_key, value_raw@) {
                    Some(update) => {
                        &&& found == old(self)@.doc.strokes.contains_key(target)
                        &&& final(self)@ == BridgeView {
                            doc: document::property_changed(old(self)@.doc, target, update),
                            ..old(self)@
                        }
                    },
                    None => !found && final(self)@ == old(self)@,
                }
            }),
    {
        let target = encoding::decode_op_id(stroke_id);
        match property_key {
            0 => {
                if value_raw.len() < 4 {
                    return false;
                }
                self.inner.update_color(target, number_at(value_raw, 0))
            },
            1 => {
                if value_raw.len() < 4 {
                    return false;
                }
                self.inner.update_stroke_width(target, read_float(value_raw, 0))
            },
            2 => {
                if value_raw.len() < 4 {
                    return false;
                }
                self.inner.update_opacity(target, read_float(value_raw, 0))
            },
            3 => {
                if value_raw.len() < 24 {
                    return false;
                }
                self.inner.update_transform(target, decode_transform_from_bytes(value_raw))
            },
            _ => false,
        }
    }

    /// Takes in an update through the buffer, and gives the identifiers of the
    /// strokes that changed. What cannot be read changes nothing.
    pub fn apply_update(&mut self, update: &[u8]) -> (changed: Vec<u8>)
        requires
            old(self).wf(),
        ensures
            final(self).wf(),
            match encoding::parse_update(update@) {
                Ok(ops) => {
                    let (doc, held, ids) = causal_buffer::taken(old(self)@.doc, old(self)@.held, old(self)@.capacity, ops);
                    &&& final(self)@ == BridgeView { doc, held, ..old(self)@ }
                    &&& changed@ == encoding::fixed_ids(ids)
                },
                Err(_) => final(self)@ == old(self)@ && changed@.len() == 0,
            },
    {
        let ops = match encoding::decode_update(update) {
            Ok(ops) => ops,
            Err(_) => {
                return Vec::new();
            },
        };
        let changed = self.inner.take_in(&ops, &mut self.buffer);
        encoding::encode_stroke_ids(changed.as_slice())
    }

    /// The number of operations that wait.
    pub fn causal_buffer_len(&self) -> (n: usize)
        ensures
            n == self@.held.len(),
    {
        self.buffer.len()
    }

    /// Hands over the local operations as an update; nothing where there are
    /// none.
    pub fn encode_pending_update(&mut self) -> (update: Vec<u8>)
        requires
            old(self).wf(),
        ensures
            final(self).wf(),
            final(self)@ == (BridgeView { doc: DocumentView { pending: seq![], ..old(self)@.doc }, ..old(self)@ }),
            update@ == (if old(self)@.doc.pending.len() == 0 {
                Seq::<u8>::empty()
            } else {
                encoding::update_blob(old(self)@.doc.pending)
            }),
    {
        let ops = self.inner.take_pending_ops();
        proof {
            assert(operation::views(ops@).len() == ops@.len());
        }
        if ops.len() == 0 {
            return Vec::new();
        }
        encoding::encode_update(ops.as_slice())
    }

    pub fn encode_state_vector(&self) -> (bytes: Vec<u8>)
        ensures
            bytes@ == encoding::state_vector(self@.doc.version),
    {
        encoding::encode_state_vector(&self.inner.version)
    }

    pub fn encode_snapshot(&self) -> (bytes: Vec<u8>)
        ensures
            bytes@ == snapshot::snapshot_bytes(self@.doc, snapshot::registers(self.inner.metadata.entries@)),
    {
        snapshot::encode_snapshot(&self.inner)
    }

    /// Takes over the cursor of a peer, and says whether it was news.
    pub fn apply_cursor_update(&mut self, cursor_bytes: &[u8]) -> (changed: bool)
        requires
            old(self).wf(),
        ensures
            final(self).wf(),
            match awareness::parse_cursor(cursor_bytes@) {
                Some(state) => {
                    &&& changed == awareness::accepted(old(self)@.cursors, state)
                    &&& final(self)@ == BridgeView {
                        cursors: awareness::updated(old(self)@.cursors, state),
                        ..old(self)@
                    }
                },
                None => !changed && final(self)@ == old(self)@,
            },
    {
        match awareness::decode_cursor(cursor_bytes) {
            Some(state) => self.awareness.update(state),
            None => false,
        }
    }

    /// All known cursors as one buffer, in no particular order.
    pub fn get_all_cursors(&self) -> (bytes: Vec<u8>)
        requires
            self.wf(),
        ensures
            exists|list: Seq<CursorState>|
                awareness::lists(self@.cursors, list) && bytes@ == awareness::cursors_bytes(list),
    {
        self.awareness.encode_all()
    }

    /// Forgets the cursor of a peer.
    pub fn remove_cursor(&mut self, actor_id: u64)
        requires
            old(self).wf(),
        ensures
            final(self).wf(),
            final(self)@ == (BridgeView { cursors: old(self)@.cursors.remove(actor_id), ..old(self)@ }),
    {
        self.awareness.remove(ActorId(actor_id));
    }

    /// Forgets cursors that are too old, and says how many.
    pub fn evict_stale_cursors(&mut self, now_ms: u64) -> (evicted: usize)
        requires
            old(self).wf(),
        ensures
            final(self).wf(),
            final(self)@ == (BridgeView {
                cursors: awareness::unstale(old(self)@.cursors, now_ms, old(self)@.ttl_ms),
                ..old(self)@
            }),
            evicted == old(self)@.cursors.len() - final(self)@.cursors.len(),
    {
        self.awareness.evict_stale(now_ms)
    }

    pub fn set_cursor_ttl(&mut self, ttl_ms: u64)
        requires
            old(self).wf(),
        ensures
            final(self).wf(),
            final(self)@ == (BridgeView { ttl_ms, ..old(self)@ }),
    {
        self.awareness.ttl_ms = ttl_ms;
        proof {
            assert(self.awareness@ == old(self).awareness@);
        }
    }

    /// The cursor of this actor, to be sent.
    pub fn encode_local_cursor(&self, x: F32, y: F32, now_ms: u64, color: u32) -> (bytes: Vec<u8>)
        ensures
            bytes@ == awareness::cursor_bytes(
                CursorState { actor: self@.doc.actor, x, y, updated_at_ms: now_ms, color },
            ),
    {
        let state = CursorState::new(self.inner.local_actor, x, y, now_ms, color);
        awareness::encode_cursor(&state)
    }

    /// Writes the records of all visible strokes.
    pub fn build_render_data(&mut self)
        requires
            old(self).wf(),
        ensures
            final(self).wf(),
            final(self)@ == (BridgeView {
                rendered: records(
                    document::visible_ids(old(self)@.doc.items),
                    old(self)@.doc.strokes,
                    any_stroke(),
                ),
                ..old(self)@
            }),
    {
        let ids = self.inner.visible_stroke_ids();
        let ghost all = ids@;
        let mut buf: Vec<u8> = Vec::new();
        let mut i: usize = 0;
        proof {
            assert(all.take(0) =~= seq![]);
        }
        while i < ids.len()
            invariant
                i <= ids@.len(),
                all == ids@,
                buf@ == records(all.take(i as int), self@.doc.strokes, any_stroke()),
            decreases ids@.len() - i,
        {
            let id = ids[i];
            proof {
                assert(all.take(i + 1).drop_last() =~= all.take(i as int));
                assert(all.take(i + 1).last() == id);
            }
            match self.inner.get_stroke(&id) {
                Some((data, props)) => {
                    write_stroke_to_buf(&mut buf, &id, data, props);
                },
                None => {},
            }
            i += 1;
        }
        proof {
            assert(all.take(i as int) =~= all);
        }
        self.render_buf = buf;
    }

    /// Writes the records of the visible strokes that reach into a viewport.
    /// Each box is transformed, unless the transform is the identity, and then
    /// grown by `stroke_expand`.
    pub fn build_render_data_viewport<
        A: Fn(F32, F32) -> F32,
        S: Fn(F32, F32) -> F32,
        P: Fn(Transform2D, F32, F32) -> (F32, F32),
    >(&mut self, viewport: Aabb, stroke_expand: F32, add: &A, sub: &S, place: &P)
        requires
            old(self).wf(),
            stroke::computes(*add),
            stroke::computes(*sub),
            stroke::places(*place),
        ensures
            final(self).wf(),
            final(self)@ == (BridgeView {
                rendered: records(
                    document::visible_ids(old(self)@.doc.items),
                    old(self)@.doc.strokes,
                    reaches(viewport, stroke_expand, *add, *sub, *place),
                ),
                ..old(self)@
            }),
    {
        let ids = self.inner.visible_stroke_ids();
        let ghost all = ids@;
        let ghost wanted = reaches(viewport, stroke_expand, *add, *sub, *place);
        let mut buf: Vec<u8> = Vec::new();
        let mut i: usize = 0;
        proof {
            assert(all.take(0) =~= seq![]);
        }
        while i < ids.len()
            invariant
                i <= ids@.len(),
                all == ids@,
                stroke::computes(*add),
                stroke::computes(*sub),
                stroke::places(*place),
                wanted == reaches(viewport, stroke_expand, *add, *sub, *place),
                buf@ == records(all.take(i as int), self@.doc.strokes, wanted),
            decreases ids@.len() - i,
        {
            let id = ids[i];
            proof {
                assert(all.take(i + 1).drop_last() =~= all.take(i as int));
                assert(all.take(i + 1).last() == id);
            }
            match self.inner.get_stroke(&id) {
                Some((data, props)) => {
                    let t = props.transform.value;
                    let placed = if t.is_identity() {
                        data.bounds
                    } else {
                        data.bounds.transform(&t, place)
                    };
                    let reach = placed.expanded(stroke_expand, add, sub);
                    if reach.intersects(&viewport) {
                        write_stroke_to_buf(&mut buf, &id, data, props);
                    }
                },
                None => {},
            }
            i += 1;
        }
        proof {
            assert(all.take(i as int) =~= all);
        }
        self.render_buf = buf;
    }

    /// The length of the records last written.
    pub fn get_render_data_len(&self) -> (n: usize)
        ensures
            n == self@.rendered.len(),
    {
        self.render_buf.len()
    }

    /// The record of a stroke; nothing where it is not known.
    pub fn get_stroke_data_owned(&self, stroke_id: &[u8]) -> (bytes: Vec<u8>)
        ensures
            ({
                let id = encoding::parse_fixed_id(stroke_id@);
                bytes@ == if self@.doc.strokes.contains_key(id) {
                    record(id, self@.doc.strokes[id])
                } else {
                    Seq::<u8>::empty()
                }
            }),
    {
        let id = encoding::decode_op_id(stroke_id);
        let mut buf: Vec<u8> = Vec::new();
        match self.inner.get_stroke(&id) {
            Some((data, props)) => {
                write_stroke_to_buf(&mut buf, &id, data, props);
                proof {
                    assert(buf@ =~= record(id, self@.doc.strokes[id]));
                }
            },
            None => {},
        }
        buf
    }

    /// The number of points of a stroke; 0 where it is not known.
    pub fn get_stroke_point_count(&self, stroke_id: &[u8]) -> (n: usize)
        ensures
            ({
                let id = encoding::parse_fixed_id(stroke_id@);
                n == if self@.doc.strokes.contains_key(id) {
                    self@.doc.strokes[id].data.points.len()
                } else {
                    0
                }
            }),
    {
        let id = encoding::decode_op_id(stroke_id);
        match self.inner.get_stroke(&id) {
            Some((data, _)) => data.points.len(),
            None => 0,
        }
    }

    /// The identifiers of the visible strokes, bottom to top.
    pub fn get_visible_stroke_ids(&self) -> (bytes: Vec<u8>)
        ensures
            bytes@ == encoding::fixed_ids(document::visible_ids(self@.doc.items)),
    {
        let ids = self.inner.visible_stroke_ids();
        encoding::encode_stroke_ids(ids.as_slice())
    }

    /// The box around a stroke, as four floats; nothing where it is not known.
    pub fn get_stroke_bounds(&self, stroke_id: &[u8]) -> (bytes: Vec<u8>)
        ensures
            ({
                let id = encoding::parse_fixed_id(stroke_id@);
                bytes@ == if self@.doc.strokes.contains_key(id) {
                    let b = self@.doc.strokes[id].data.bounds;
                    float_bytes(b.min_x) + float_bytes(b.min_y) + float_bytes(b.max_x) + float_bytes(b.max_y)
                } else {
                    Seq::<u8>::empty()
                }
            }),
    {
        let id = encoding::decode_op_id(stroke_id);
        let mut out: Vec<u8> = Vec::new();
        match self.inner.get_stroke(&id) {
            Some((data, _)) => {
                put_float(data.bounds.min_x, &mut out);
                put_float(data.bounds.min_y, &mut out);
                put_float(data.bounds.max_x, &mut out);
                put_float(data.bounds.max_y, &mut out);
                proof {
                    let b = self@.doc.strokes[id].data.bounds;
                    assert(out@ =~= float_bytes(b.min_x) + float_bytes(b.min_y) + float_bytes(b.max_x) + float_bytes(
                        b.max_y,
                    ));
                }
            },
            None => {},
        }
        out
    }

    /// How far a path may stray when it is simplified. At 0 it is kept as it
    /// is.
    pub fn set_simplify_epsilon(&mut self, epsilon: F32)
        requires
            old(self).wf(),
        ensures
            final(self).wf(),
            final(self)@ == (BridgeView {
                doc: DocumentView { simplify_epsilon: epsilon, ..old(self)@.doc },
                ..old(self)@
            }),
    {
        self.inner.simplify_epsilon = epsilon;
    }

    /// Simplifies a stroke, and says how many points are gone.
    pub fn simplify_stroke<D: Fn(StrokePoint, StrokePoint, StrokePoint) -> F32>(
        &mut self,
        stroke_id: &[u8],
        epsilon: F32,
        distance: &D,
    ) -> (removed: usize)
        requires
            old(self).wf(),
            simplify::well_defined(*distance),
            ({
                let id = encoding::parse_fixed_id(stroke_id@);
                old(self)@.doc.strokes.contains_key(id) ==> simplify::halts(
                    old(self)@.doc.strokes[id].data.points,
                    simplify::measure(*distance),
                    epsilon,
                )
            }),
        ensures
            final(self).wf(),
            ({
                let id = encoding::parse_fixed_id(stroke_id@);
                let doc = document::resimplified(old(self)@.doc, id, simplify::measure(*distance), epsilon);
                &&& final(self)@ == BridgeView { doc, ..old(self)@ }
                &&& removed == if doc.strokes.contains_key(id) {
                    old(self)@.doc.strokes[id].data.points.len() - doc.strokes[id].data.points.len()
                } else {
                    0
                }
            }),
    {
        let id = encoding::decode_op_id(stroke_id);
        self.inner.simplify_stroke(id, epsilon, distance)
    }

    /// Undoes the last stroke drawn here, and gives its identifier; nothing
    /// where there is none.
    pub fn undo(&mut self) -> (id: Vec<u8>)
        requires
            old(self).wf(),
            document::undo_fits(old(self)@.doc),
        ensures
            final(self).wf(),
            ({
                let (doc, undone) = document::undone(old(self)@.doc);
                &&& final(self)@ == BridgeView { doc, ..old(self)@ }
                &&& id@ == match undone {
                    Some(u) => encoding::fixed_id(u),
                    None => Seq::<u8>::empty(),
                }
            }),
    {
        match self.inner.undo_last_stroke() {
            Some(id) => encoding::encode_op_id(&id),
            None => Vec::new(),
        }
    }

    /// The number of strokes that undo can go back over.
    pub fn undo_depth(&self) -> (n: usize)
        ensures
            n == self@.doc.undo.len(),
    {
        self.inner.undo_depth()
    }

    /// Takes over what all peers have confirmed, collects if that is due, and
    /// tells of it.
    pub fn update_min_version_and_gc<R: Fn(usize, usize) -> F64>(&mut self, mvv_bytes: &[u8], divide: &R) -> (told:
        Option<String>)
        requires
            old(self).wf(),
            old(self)@.doc.gc_generation < u64::MAX,
            gc::well_defined(*divide),
        ensures
            final(self).wf(),
            ({
                let mvv = encoding::parse_state_vector(mvv_bytes@);
                let (doc, result) = gc::confirmed(old(self)@.doc, mvv, gc::standard(), gc::quotient(*divide));
                &&& final(self)@ == BridgeView { doc, ..old(self)@ }
                &&& match result {
                    Some(r) => told matches Some(json) && json@ == gc_json(r),
                    None => told is None,
                }
            }),
    {
        let mvv = encoding::decode_vector_clock(mvv_bytes);
        let config = GcConfig::default();
        match self.inner.update_min_version(mvv, &config, divide) {
            Some(r) => Some(gc_text(&r)),
            None => None,
        }
    }

    /// Tells of the counts. `ratio` is the share of tombstones as it is to be
    /// shown.
    pub fn stats(&self, ratio: &str) -> (json: String)
        requires
            self.wf(),
        ensures
            json@ == stats_json(self@, ratio@),
    {
        proof {
            rga::lemma_tombstones_visible(self@.doc.items);
        }
        let order = &self.inner.stroke_order;
        let mut json = String::new();
        json.append("{\"total_items\":");
        text::push_decimal(&mut json, order.total_count as u64);
        json.append(",\"visible\":");
        text::push_decimal(&mut json, (order.total_count - order.tombstone_count) as u64);
        json.append(",\"tombstones\":");
        text::push_decimal(&mut json, order.tombstone_count as u64);
        json.append(",\"tombstone_ratio\":");
        json.append(ratio);
        json.append(",\"gc_gen\":");
        text::push_decimal(&mut json, self.inner.gc_generation);
        json.append(",\"pending_ops\":");
        text::push_decimal(&mut json, self.inner.pending_ops.len() as u64);
        json.append(",\"causal_buffer\":");
        text::push_decimal(&mut json, self.buffer.len() as u64);
        json.append(",\"awareness_peers\":");
        text::push_decimal(&mut json, self.awareness.actor_count() as u64);
        json.append("}");
        proof {
            assert(json@ =~= stats_json(self@, ratio@));
        }
        json
    }

    pub fn actor_id(&self) -> (id: u64)
        ensures
            id == self@.doc.actor.0,
    {
        self.inner.local_actor.0
    }

    pub fn lamport(&self) -> (clock: u64)
        ensures
            clock == self@.doc.clock,
    {
        self.inner.clock.0
    }
}

/// The number of operations in an update; 0 where it cannot be read.
pub fn vectis_op_count(update: &[u8]) -> (n: usize)
    ensures
        n == (match encoding::parse_update(update@) {
            Ok(ops) => ops.len(),
            Err(_) => 0,
        }),
{
    match encoding::decode_update(update) {
        Ok(ops) => {
            proof {
                assert(operation::views(ops@).len() == ops@.len());
            }
            ops.len()
        },
        Err(_) => 0,
    }
}

/// The sixteen bytes of an identifier.
pub fn vectis_encode_op_id(lamport: u64, actor: u64) -> (bytes: Vec<u8>)
    ensures
        bytes@ == encoding::fixed_id(OpId { lamport: LamportTs(lamport), actor: ActorId(actor) }),
{
    encoding::encode_op_id(&OpId { lamport: LamportTs(lamport), actor: ActorId(actor) })
}

/// What is rendered goes stroke by stroke: of each listed stroke that is stored
/// and wanted its record, and nothing else.
pub proof fn law_rendering_goes_stroke_by_stroke(
    a: Seq<OpId>,
    b: Seq<OpId>,
    id: OpId,
    strokes: Map<OpId, StrokeView>,
    wanted: spec_fn(StrokeView) -> bool,
)
    ensures
        records(seq![], strokes, wanted) == Seq::<u8>::empty(),
        strokes.contains_key(id) && wanted(strokes[id]) ==> records(seq![id], strokes, wanted) == record(
            id,
            strokes[id],
        ),
        !strokes.contains_key(id) || !wanted(strokes[id]) ==> records(seq![id], strokes, wanted) == Seq::<u8>::empty(),
        records(a + b, strokes, wanted) == records(a, strokes, wanted) + records(b, strokes, wanted),
    decreases b.len(),
{
    assert(seq![id].drop_last() =~= Seq::<OpId>::empty());
    assert(records(seq![id].drop_last(), strokes, wanted) =~= Seq::<u8>::empty());
    assert(seq![id].last() == id);
    if strokes.contains_key(id) && wanted(strokes[id]) {
        assert(records(seq![id], strokes, wanted) =~= record(id, strokes[id]));
    }
    if b.len() == 0 {
        assert(a + b =~= a);
        assert(records(a + b, strokes, wanted) =~= records(a, strokes, wanted) + records(b, strokes, wanted));
    } else {
        law_rendering_goes_stroke_by_stroke(a, b.drop_last(), id, strokes, wanted);
        assert((a + b).drop_last() =~= a + b.drop_last());
        assert((a + b).last() == b.last());
        assert(records(a + b, strokes, wanted) =~= records(a, strokes, wanted) + records(b, strokes, wanted));
    }
}

/// Every stroke is wanted where there is no viewport.
pub proof fn law_everything_is_rendered_without_a_viewport(view: StrokeView)
    ensures
        any_stroke()(view),
{
}

/// A record has the identifier of its stroke in sixteen bytes, then the number
/// of points, the tool, the colour, the width and the opacity, the six entries
/// of the transform, and twelve bytes to a point: x, y and pressure.
pub proof fn law_record_layout(id: OpId, view: StrokeView, i: int)
    requires
        view.data.points.len() <= u32::MAX,
    ensures
        ({
            let s = record(id, view);
            let p = view.properties;
            let t = p.transform.value;
            let points = view.data.points;
            &&& s.len() == 57 + 12 * points.len()
            &&& s.subrange(0, 8) == wire::le(id.lamport.0 as nat, 8)
            &&& s.subrange(8, 16) == wire::le(id.actor.0 as nat, 8)
            &&& s.subrange(16, 20) == wire::le(points.len(), 4)
            &&& s[20] == view.data.tool.code()
            &&& s.subrange(21, 25) == wire::le(p.color.value as nat, 4)
            &&& s.subrange(25, 29) == wire::le(p.stroke_width.value.bits as nat, 4)
            &&& s.subrange(29, 33) == wire::le(p.opacity.value.bits as nat, 4)
            &&& s.subrange(33, 37) == wire::le(t.a.bits as nat, 4)
            &&& s.subrange(37, 41) == wire::le(t.b.bits as nat, 4)
            &&& s.subrange(41, 45) == wire::le(t.c.bits as nat, 4)
            &&& s.subrange(45, 49) == wire::le(t.d.bits as nat, 4)
            &&& s.subrange(49, 53) == wire::le(t.tx.bits as nat, 4)
            &&& s.subrange(53, 57) == wire::le(t.ty.bits as nat, 4)
            &&& 0 <= i < points.len() ==> {
                let at = 57 + 12 * i;
                &&& s.subrange(at, at + 4) == wire::le(points[i].x.bits as nat, 4)
                &&& s.subrange(at + 4, at + 8) == wire::le(points[i].y.bits as nat, 4)
                &&& s.subrange(at + 8, at + 12) == wire::le(points[i].pressure.bits as nat, 4)
            }
        }),
{
    let s = record(id, view);
    let p = view.properties;
    let t = p.transform.value;
    let points = view.data.points;
    let path = point_records(points);
    lemma_point_records(points, i);
    wire::law_lowest_byte_first(id.lamport.0 as nat, 8, 0);
    wire::law_lowest_byte_first(id.actor.0 as nat, 8, 0);
    assert forall|v: nat| (#[trigger] wire::le(v, 4)).len() == 4 by {
        wire::law_lowest_byte_first(v, 4, 0);
    }
    assert(points.len() % 0x1_0000_0000 == points.len()) by {
        vstd::arithmetic::div_mod::lemma_small_mod(points.len(), 0x1_0000_0000);
    }
    assert(s.subrange(0, 8) =~= wire::le(id.lamport.0 as nat, 8));
    assert(s.subrange(8, 16) =~= wire::le(id.actor.0 as nat, 8));
    assert(s.subrange(16, 20) =~= wire::le(points.len(), 4));
    assert(s.subrange(21, 25) =~= wire::le(p.color.value as nat, 4));
    assert(s.subrange(25, 29) =~= wire::le(p.stroke_width.value.bits as nat, 4));
    assert(s.subrange(29, 33) =~= wire::le(p.opacity.value.bits as nat, 4));
    assert(s.subrange(33, 37) =~= wire::le(t.a.bits as nat, 4));
    assert(s.subrange(37, 41) =~= wire::le(t.b.bits as nat, 4));
    assert(s.subrange(41, 45) =~= wire::le(t.c.bits as nat, 4));
    assert(s.subrange(45, 49) =~= wire::le(t.d.bits as nat, 4));
    assert(s.subrange(49, 53) =~= wire::le(t.tx.bits as nat, 4));
    assert(s.subrange(53, 57) =~= wire::le(t.ty.bits as nat, 4));
    if 0 <= i < points.len() {
        let at = 57 + 12 * i;
        assert(s.skip(57) =~= path);
        assert(s.subrange(at, at + 4) =~= path.subrange(12 * i, 12 * i + 4));
        assert(s.subrange(at + 4, at + 8) =~= path.subrange(12 * i + 4, 12 * i + 8));
        assert(s.subrange(at + 8, at + 12) =~= path.subrange(12 * i + 8, 12 * i + 12));
    }
}

/// Points are rendered twelve bytes each.
proof fn lemma_point_records(points: Seq<StrokePoint>, i: int)
    ensures
        point_records(points).len() == 12 * points.len(),
        0 <= i < points.len() ==> {
            let s = point_records(points);
            &&& s.subrange(12 * i, 12 * i + 4) == wire::le(points[i].x.bits as nat, 4)
            &&& s.subrange(12 * i + 4, 12 * i + 8) == wire::le(points[i].y.bits as nat, 4)
            &&& s.subrange(12 * i + 8, 12 * i + 12) == wire::le(points[i].pressure.bits as nat, 4)
        },
    decreases points.len(),
{
    if points.len() > 0 {
        let less = points.drop_last();
        let n = less.len() as int;
        let p = points.last();
        let s = point_records(points);
        let t = point_records(less);
        lemma_point_records(less, i);
        wire::law_lowest_byte_first(p.x.bits as nat, 4, 0);
        wire::law_lowest_byte_first(p.y.bits as nat, 4, 0);
        wire::law_lowest_byte_first(p.pressure.bits as nat, 4, 0);
        if i == n {
            assert(s.subrange(12 * i, 12 * i + 4) =~= wire::le(p.x.bits as nat, 4));
            assert(s.subrange(12 * i + 4, 12 * i + 8) =~= wire::le(p.y.bits as nat, 4));
            assert(s.subrange(12 * i + 8, 12 * i + 12) =~= wire::le(p.pressure.bits as nat, 4));
        } else if 0 <= i < n {
            assert(s.subrange(12 * i, 12 * i + 4) =~= t.subrange(12 * i, 12 * i + 4));
            assert(s.subrange(12 * i + 4, 12 * i + 8) =~= t.subrange(12 * i + 4, 12 * i + 8));
            assert(s.subrange(12 * i + 8, 12 * i + 12) =~= t.subrange(12 * i + 8, 12 * i + 12));
        }
    }
}

/// Points that are handed over as numbers, x, y and pressure in turn, are those
/// points; one or two numbers left over make none.
pub proof fn law_three_numbers_make_a_point(points: Seq<StrokePoint>, raw: Seq<F32>)
    requires
        raw.len() / 3 == points.len(),
        forall|i: int|
            0 <= i < points.len() ==> {
                let p = #[trigger] points[i];
                raw[3 * i] == p.x && raw[3 * i + 1] == p.y && raw[3 * i + 2] == p.pressure
            },
    ensures
        triples(raw) == points,
{
    assert(triples(raw) =~= points);
}

/// A property is set to what its bytes hold: a colour, a width, an opacity or
/// the six entries of a transform. Fewer bytes, or another number for the
/// property, set nothing.
pub proof fn law_properties_are_set_from_bytes(
    color: u32,
    x: F32,
    t: Transform2D,
    rest: Seq<u8>,
    key: u8,
    raw: Seq<u8>,
)
    ensures
        property_of(0, wire::le(color as nat, 4) + rest) == Some(PropertyUpdate::Color(color)),
        property_of(1, wire::le(x.bits as nat, 4) + rest) == Some(PropertyUpdate::StrokeWidth(x)),
        property_of(2, wire::le(x.bits as nat, 4) + rest) == Some(PropertyUpdate::Opacity(x)),
        property_of(
            3,
            wire::le(t.a.bits as nat, 4) + wire::le(t.b.bits as nat, 4) + wire::le(t.c.bits as nat, 4) + wire::le(
                t.d.bits as nat,
                4,
            ) + wire::le(t.tx.bits as nat, 4) + wire::le(t.ty.bits as nat, 4) + rest,
        ) == Some(PropertyUpdate::Transform(t)),
        raw.len() < 4 || (key == 3 && raw.len() < 24) || key > 3 ==> property_of(key, raw) is None,
{
    assert forall|v: u32| (#[trigger] wire::le(v as nat, 4)).len() == 4 && wire::le_value(wire::le(v as nat, 4)) == v by {
        wire::lemma_spans();
        wire::lemma_le_round_trip(v as nat, 4, seq![]);
        let b = wire::le(v as nat, 4);
        assert((b + Seq::<u8>::empty()).take(4) =~= b);
    }
    let b = wire::le(color as nat, 4);
    assert((b + rest).subrange(0, 4) =~= b);
    let b = wire::le(x.bits as nat, 4);
    assert((b + rest).subrange(0, 4) =~= b);
    let all = wire::le(t.a.bits as nat, 4) + wire::le(t.b.bits as nat, 4) + wire::le(t.c.bits as nat, 4) + wire::le(
        t.d.bits as nat,
        4,
    ) + wire::le(t.tx.bits as nat, 4) + wire::le(t.ty.bits as nat, 4) + rest;
    assert(all.subrange(0, 4) =~= wire::le(t.a.bits as nat, 4));
    assert(all.subrange(4, 8) =~= wire::le(t.b.bits as nat, 4));
    assert(all.subrange(8, 12) =~= wire::le(t.c.bits as nat, 4));
    assert(all.subrange(12, 16) =~= wire::le(t.d.bits as nat, 4));
    assert(all.subrange(16, 20) =~= wire::le(t.tx.bits as nat, 4));
    assert(all.subrange(20, 24) =~= wire::le(t.ty.bits as nat, 4));
}

/// Whether a sum is a number that is not below what the margin is added to.
pub open spec fn moves_up<A: Fn(F32, F32) -> F32>(add: A, side: F32, by: F32) -> bool {
    exists|moved: F32| #[trigger] call_ensures(add, (side, by), moved) && !moved.nan() && !moved.below(side)
}

/// Whether a difference is a number that is not above what the margin is taken
/// from.
pub open spec fn moves_down<S: Fn(F32, F32) -> F32>(sub: S, side: F32, by: F32) -> bool {
    exists|moved: F32| #[trigger] call_ensures(sub, (side, by), moved) && !moved.nan() && !side.below(moved)
}

/// Whether the margin moves a side inwards neither way.
pub open spec fn widens<A: Fn(F32, F32) -> F32, S: Fn(F32, F32) -> F32>(add: A, sub: S, side: F32, by: F32) -> bool {
    moves_up(add, side, by) && moves_down(sub, side, by)
}

/// A stroke is rendered where its transform takes a corner of its box into the
/// viewport, with whatever margin, so long as the margin moves no side of a box
/// inwards.
pub proof fn law_strokes_with_a_corner_in_view_are_rendered<
    A: Fn(F32, F32) -> F32,
    S: Fn(F32, F32) -> F32,
    P: Fn(Transform2D, F32, F32) -> (F32, F32),
>(
    view: StrokeView,
    viewport: Aabb,
    by: F32,
    add: A,
    sub: S,
    place: P,
    x: F32,
    y: F32,
    image: (F32, F32),
)
    requires
        stroke::computes(add),
        stroke::computes(sub),
        stroke::places(place),
        forall|side: F32| !side.nan() ==> #[trigger] widens(add, sub, side, by),
        ({
            let t = view.properties.transform.value;
            !(t.a.equals(F32::one()) && t.b.equals(F32::zero()) && t.c.equals(F32::zero()) && t.d.equals(F32::one())
                && t.tx.equals(F32::zero()) && t.ty.equals(F32::zero()))
        }),
        view.data.bounds != Aabb::infinite(),
        x == view.data.bounds.min_x || x == view.data.bounds.max_x,
        y == view.data.bounds.min_y || y == view.data.bounds.max_y,
        call_ensures(place, (view.properties.transform.value, x, y), image),
        !image.0.below(viewport.min_x) && !viewport.max_x.below(image.0),
        !image.1.below(viewport.min_y) && !viewport.max_y.below(image.1),
        !image.0.nan() && !image.1.nan(),
        !viewport.min_x.nan() && !viewport.max_x.nan() && !viewport.min_y.nan() && !viewport.max_y.nan(),
    ensures
        reaches(viewport, by, add, sub, place)(view),
{
    let t = view.properties.transform.value;
    let b = stroke::transformed_box(view.data.bounds, t, place);
    stroke::law_transformed_boxes_hold_every_corner(view.data.bounds, t, place, x, y, image);
    assert(widens(add, sub, b.min_x, by) && widens(add, sub, b.min_y, by));
    assert(widens(add, sub, b.max_x, by) && widens(add, sub, b.max_y, by));
    lemma_margin_holds(b, by, add, sub);
}

/// A margin that moves no side inwards leaves what was in the box in it.
proof fn lemma_margin_holds<A: Fn(F32, F32) -> F32, S: Fn(F32, F32) -> F32>(b: Aabb, by: F32, add: A, sub: S)
    requires
        stroke::computes(add),
        stroke::computes(sub),
        moves_down(sub, b.min_x, by) && moves_down(sub, b.min_y, by),
        moves_up(add, b.max_x, by) && moves_up(add, b.max_y, by),
        !b.min_x.nan() && !b.max_x.nan() && !b.min_y.nan() && !b.max_y.nan(),
    ensures
        ({
            let e = stroke::expanded_box(b, by, add, sub);
            &&& !e.min_x.nan() && !e.min_y.nan() && !e.max_x.nan() && !e.max_y.nan()
            &&& e.min_x.order() <= b.min_x.order() && e.min_y.order() <= b.min_y.order()
            &&& e.max_x.order() >= b.max_x.order() && e.max_y.order() >= b.max_y.order()
        }),
{
    assert(call_ensures(sub, (b.min_x, by), stroke::result_of(sub, b.min_x, by)));
    assert(call_ensures(sub, (b.min_y, by), stroke::result_of(sub, b.min_y, by)));
    assert(call_ensures(add, (b.max_x, by), stroke::result_of(add, b.max_x, by)));
    assert(call_ensures(add, (b.max_y, by), stroke::result_of(add, b.max_y, by)));
}

/// A stroke that its transform leaves in place is rendered where one of its
/// points is in the viewport, with whatever margin, so long as the margin moves
/// no side of a box inwards.
pub proof fn law_strokes_with_a_point_in_view_are_rendered<
    A: Fn(F32, F32) -> F32,
    S: Fn(F32, F32) -> F32,
    P: Fn(Transform2D, F32, F32) -> (F32, F32),
>(view: StrokeView, viewport: Aabb, by: F32, add: A, sub: S, place: P, i: int)
    requires
        stroke::computes(add),
        stroke::computes(sub),
        forall|side: F32| !side.nan() ==> #[trigger] widens(add, sub, side, by),
        ({
            let t = view.properties.transform.value;
            t.a.equals(F32::one()) && t.b.equals(F32::zero()) && t.c.equals(F32::zero()) && t.d.equals(F32::one())
                && t.tx.equals(F32::zero()) && t.ty.equals(F32::zero())
        }),
        0 <= i < view.data.points.len(),
        view.data.bounds == stroke::bounds_of(view.data.points),
        ({
            let p = view.data.points[i];
            &&& !p.x.nan() && !p.y.nan()
            &&& !p.x.below(viewport.min_x) && !viewport.max_x.below(p.x)
            &&& !p.y.below(viewport.min_y) && !viewport.max_y.below(p.y)
        }),
        !viewport.min_x.nan() && !viewport.max_x.nan() && !viewport.min_y.nan() && !viewport.max_y.nan(),
    ensures
        reaches(viewport, by, add, sub, place)(view),
{
    let b = view.data.bounds;
    stroke::law_bounds_hold_every_point(view.data.points, i);
    stroke::law_bounds_are_numbers(view.data.points);
    assert(widens(add, sub, b.min_x, by) && widens(add, sub, b.min_y, by));
    assert(widens(add, sub, b.max_x, by) && widens(add, sub, b.max_y, by));
    lemma_margin_holds(b, by, add, sub);
}

/// A stroke that is rendered for a viewport has a box, moved by its transform
/// and with its margin, that shares a point with the viewport.
pub proof fn law_strokes_out_of_view_are_culled<
    A: Fn(F32, F32) -> F32,
    S: Fn(F32, F32) -> F32,
    P: Fn(Transform2D, F32, F32) -> (F32, F32),
>(view: StrokeView, viewport: Aabb, by: F32, add: A, sub: S, place: P)
    requires
        reaches(viewport, by, add, sub, place)(view),
    ensures
        ({
            let b = stroke::transformed_box(view.data.bounds, view.properties.transform.value, place);
            let e = stroke::expanded_box(b, by, add, sub);
            &&& !e.max_x.below(viewport.min_x) && !viewport.max_x.below(e.min_x)
            &&& !e.max_y.below(viewport.min_y) && !viewport.max_y.below(e.min_y)
        }),
{
}

/// What a host is told of the document names its counts: all items, those that
/// are not deleted and those that are, the cycles of collection, the operations
/// that wait to be sent and those that are held back, and the cursors.
pub proof fn law_counts_are_told(s: BridgeView, ratio: Seq<char>)
    ensures
        stats_json(s, ratio) == "{\"total_items\":"@ + text::decimal(s.doc.items.len()) + ",\"visible\":"@
            + text::decimal(s.doc.items.filter(|item: rga::RgaItem| item.state is Active).len())
            + ",\"tombstones\":"@ + text::decimal(
            s.doc.items.filter(|item: rga::RgaItem| item.state is Tombstone).len(),
        ) + ",\"tombstone_ratio\":"@ + ratio + ",\"gc_gen\":"@ + text::decimal(s.doc.gc_generation as nat)
            + ",\"pending_ops\":"@ + text::decimal(s.doc.pending.len()) + ",\"causal_buffer\":"@ + text::decimal(
            s.held.len(),
        ) + ",\"awareness_peers\":"@ + text::decimal(s.cursors.dom().len()) + "}"@,
{
    rga::law_items_are_visible_or_deleted(s.doc.items);
}

/// What a host is told of a collection names what was removed, what that freed,
/// the number of the cycle, and whether more is left.
pub proof fn law_collections_are_told(r: GcResult)
    ensures
        gc_json(r) == "{\"removed\":"@ + text::decimal(r.tombstones_removed as nat) + ",\"freed\":"@ + text::decimal(
            r.bytes_freed_estimate as nat,
        ) + ",\"gen\":"@ + text::decimal(r.generation as nat) + ",\"partial\":"@ + (if r.partial {
            "true"@
        } else {
            "false"@
        }) + "}"@,
{
}

/// A document is wrapped without cursors and without anything held back or
/// rendered; up to ten thousand operations are held back, and cursors live for
/// half a minute.
pub proof fn law_wrapping_adds_nothing(doc: DocumentView)
    ensures
        around(doc).doc == doc,
        around(doc).held.len() == 0 && around(doc).cursors.dom().len() == 0 && around(doc).rendered.len() == 0,
        around(doc).capacity == 10_000 && around(doc).ttl_ms == 30_000,
{
}

} // verus!
