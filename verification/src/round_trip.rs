//! What is encoded is decoded again.

use crate::document;
use crate::encoding;
use crate::float::{F32, F64};
use crate::metadata::{MetadataKeyView, MetadataValueView};
use crate::operation::{OperationView, PropertyUpdate};
use crate::stroke;
use crate::stroke::{StrokeDataView, StrokePoint, StrokeProperties, ToolKind, Transform2D};
use crate::types;
use crate::types::{ActorId, OpId};
use crate::wire;
use vstd::prelude::*;

verus! {

proof fn lemma_op_id(id: OpId, rest: Seq<u8>)
    ensures
        encoding::read_op_id(encoding::op_id_bytes(id) + rest) == Some((id, rest)),
{
    let a = wire::varint(id.lamport.0 as nat);
    let b = wire::varint(id.actor.0 as nat);
    assert(encoding::op_id_bytes(id) + rest =~= a + (b + rest));
    wire::lemma_varint_round_trip(id.lamport.0, b + rest);
    wire::lemma_varint_round_trip(id.actor.0, rest);
}

proof fn lemma_u32(v: u32, rest: Seq<u8>)
    ensures
        encoding::read_u32(wire::le(v as nat, 4) + rest) == Some((v, rest)),
{
    wire::lemma_spans();
    wire::lemma_le_round_trip(v as nat, 4, rest);
}

proof fn lemma_f32(v: F32, rest: Seq<u8>)
    ensures
        encoding::read_f32(encoding::f32_bytes(v) + rest) == Some((v, rest)),
{
    wire::lemma_spans();
    wire::lemma_le_round_trip(v.bits as nat, 4, rest);
}

proof fn lemma_transform(t: Transform2D, rest: Seq<u8>)
    ensures
        encoding::read_transform(encoding::transform_bytes(t) + rest) == Some((t, rest)),
{
    let a = encoding::f32_bytes(t.a);
    let b = encoding::f32_bytes(t.b);
    let c = encoding::f32_bytes(t.c);
    let d = encoding::f32_bytes(t.d);
    let x = encoding::f32_bytes(t.tx);
    let y = encoding::f32_bytes(t.ty);
    assert(encoding::transform_bytes(t) + rest =~= a + (b + (c + (d + (x + (y + rest))))));
    lemma_f32(t.a, b + (c + (d + (x + (y + rest)))));
    lemma_f32(t.b, c + (d + (x + (y + rest))));
    lemma_f32(t.c, d + (x + (y + rest)));
    lemma_f32(t.d, x + (y + rest));
    lemma_f32(t.tx, y + rest);
    lemma_f32(t.ty, rest);
}

proof fn lemma_point(p: StrokePoint, rest: Seq<u8>)
    ensures
        encoding::read_point(encoding::point_bytes(p) + rest) == Some((p, rest)),
{
    let x = encoding::f32_bytes(p.x);
    let y = encoding::f32_bytes(p.y);
    let z = encoding::f32_bytes(p.pressure);
    assert(encoding::point_bytes(p) + rest =~= x + (y + (z + rest)));
    lemma_f32(p.x, y + (z + rest));
    lemma_f32(p.y, z + rest);
    lemma_f32(p.pressure, rest);
}

proof fn lemma_points(read: Seq<StrokePoint>, points: Seq<StrokePoint>, rest: Seq<u8>)
    ensures
        encoding::read_points(read, encoding::points_bytes(points) + rest, points.len()) == Some(
            (read + points, rest),
        ),
    decreases points.len(),
{
    if points.len() == 0 {
        assert(encoding::points_bytes(points) + rest =~= rest);
        assert(read + points =~= read);
    } else {
        let tail = points.drop_first();
        let b = encoding::points_bytes(tail);
        assert(encoding::points_bytes(points) + rest =~= encoding::point_bytes(points[0]) + (b + rest));
        lemma_point(points[0], b + rest);
        lemma_points(read.push(points[0]), tail, rest);
        assert(read.push(points[0]) + tail =~= read + points);
    }
}

/// A path that can be sent: it has no more points than the limit.
pub open spec fn sendable(data: StrokeDataView) -> bool {
    data.points.len() <= document::MAX_POINTS_PER_STROKE
}

/// A path as it is read back: its bounds are not sent, and are computed anew.
pub open spec fn reread_data(data: StrokeDataView) -> StrokeDataView {
    stroke::stroke_data(data.points, data.tool)
}

/// An operation as it is read back.
pub open spec fn reread(op: OperationView) -> OperationView {
    match op {
        OperationView::InsertStroke { id, origin_left, origin_right, data, properties } => OperationView::InsertStroke {
            id,
            origin_left,
            origin_right,
            data: reread_data(data),
            properties,
        },
        _ => op,
    }
}

/// Operations as they are read back.
pub open spec fn reread_all(ops: Seq<OperationView>) -> Seq<OperationView> {
    ops.map_values(|op: OperationView| reread(op))
}

proof fn lemma_stroke_data(data: StrokeDataView, rest: Seq<u8>)
    requires
        sendable(data),
    ensures
        encoding::read_stroke_data(encoding::stroke_data_bytes(data) + rest) == Some(
            (reread_data(data), rest),
        ),
{
    reveal(encoding::stroke_data_bytes);
    reveal(encoding::read_stroke_data);
    let s = encoding::stroke_data_bytes(data) + rest;
    let n = wire::varint(data.points.len());
    let b = encoding::points_bytes(data.points);
    assert(s[0] == data.tool.code());
    assert(s.skip(1) =~= n + (b + rest));
    wire::lemma_varint_round_trip(data.points.len() as u64, b + rest);
    lemma_points(seq![], data.points, rest);
    assert(Seq::<StrokePoint>::empty() + data.points =~= data.points);
    stroke::law_tool_code_round_trip(data.tool);
}

proof fn lemma_properties(p: StrokeProperties, rest: Seq<u8>)
    ensures
        encoding::read_properties(encoding::properties_bytes(p) + rest) == Some((p, rest)),
{
    reveal(encoding::properties_bytes);
    reveal(encoding::read_properties);
    let a = encoding::op_id_bytes(p.color.timestamp);
    let b = wire::le(p.color.value as nat, 4);
    let c = encoding::op_id_bytes(p.stroke_width.timestamp);
    let d = encoding::f32_bytes(p.stroke_width.value);
    let e = encoding::op_id_bytes(p.opacity.timestamp);
    let f = encoding::f32_bytes(p.opacity.value);
    let g = encoding::op_id_bytes(p.transform.timestamp);
    let h = encoding::transform_bytes(p.transform.value);
    let r7 = h + rest;
    let r6 = g + r7;
    let r5 = f + r6;
    let r4 = e + r5;
    let r3 = d + r4;
    let r2 = c + r3;
    let r1 = b + r2;
    assert(encoding::properties_bytes(p) + rest =~= a + r1);
    lemma_op_id(p.color.timestamp, r1);
    lemma_u32(p.color.value, r2);
    lemma_op_id(p.stroke_width.timestamp, r3);
    lemma_f32(p.stroke_width.value, r4);
    lemma_op_id(p.opacity.timestamp, r5);
    lemma_f32(p.opacity.value, r6);
    lemma_op_id(p.transform.timestamp, r7);
    lemma_transform(p.transform.value, rest);
}

proof fn lemma_update(u: PropertyUpdate, rest: Seq<u8>)
    ensures
        encoding::read_update(encoding::update_bytes(u) + rest) == Some((u, rest)),
{
    let s = encoding::update_bytes(u) + rest;
    match u {
        PropertyUpdate::Color(v) => {
            assert(s.skip(1) =~= wire::le(v as nat, 4) + rest);
            lemma_u32(v, rest);
        },
        PropertyUpdate::StrokeWidth(v) => {
            assert(s.skip(1) =~= encoding::f32_bytes(v) + rest);
            lemma_f32(v, rest);
        },
        PropertyUpdate::Opacity(v) => {
            assert(s.skip(1) =~= encoding::f32_bytes(v) + rest);
            lemma_f32(v, rest);
        },
        PropertyUpdate::Transform(v) => {
            assert(s.skip(1) =~= encoding::transform_bytes(v) + rest);
            lemma_transform(v, rest);
        },
    }
}

/// A text short enough for its length to be sent.
pub open spec fn sendable_text(t: Seq<char>) -> bool {
    vstd::utf8::encode_utf8(t).len() <= u64::MAX
}

proof fn lemma_key(key: MetadataKeyView, rest: Seq<u8>)
    requires
        key matches MetadataKeyView::Custom(name) ==> sendable_text(name),
    ensures
        encoding::read_key(encoding::key_bytes(key) + rest) == Some((key, rest)),
{
    let s = encoding::key_bytes(key) + rest;
    match key {
        MetadataKeyView::Custom(name) => {
            assert(s.skip(1) =~= wire::prefixed(vstd::utf8::encode_utf8(name)) + rest);
            wire::lemma_text_round_trip(name, rest);
        },
        _ => {
            assert(s.skip(1) =~= rest);
        },
    }
}

proof fn lemma_value(value: MetadataValueView, rest: Seq<u8>)
    requires
        value matches MetadataValueView::String(v) ==> sendable_text(v),
    ensures
        encoding::read_value(encoding::value_bytes(value) + rest) == Some((value, rest)),
{
    let s = encoding::value_bytes(value) + rest;
    match value {
        MetadataValueView::F64(v) => {
            assert(s.skip(1) =~= wire::le(v.bits as nat, 8) + rest);
            wire::lemma_spans();
            wire::lemma_le_round_trip(v.bits as nat, 8, rest);
        },
        MetadataValueView::Bool(v) => {
            assert(s.skip(2) =~= rest);
        },
        MetadataValueView::U32(v) => {
            assert(s.skip(1) =~= wire::le(v as nat, 4) + rest);
            lemma_u32(v, rest);
        },
        MetadataValueView::String(v) => {
            assert(s.skip(1) =~= wire::prefixed(vstd::utf8::encode_utf8(v)) + rest);
            wire::lemma_text_round_trip(v, rest);
        },
    }
}

/// An operation whose path and texts can be sent.
pub open spec fn sendable_op(op: OperationView) -> bool {
    match op {
        OperationView::InsertStroke { data, .. } => sendable(data),
        OperationView::UpdateMetadata { key, value, .. } => {
            &&& key matches MetadataKeyView::Custom(name) ==> sendable_text(name)
            &&& value matches Some(MetadataValueView::String(v)) ==> sendable_text(v)
        },
        _ => true,
    }
}

proof fn lemma_insert(
    id: OpId,
    origin_left: OpId,
    origin_right: OpId,
    data: StrokeDataView,
    properties: StrokeProperties,
    rest: Seq<u8>,
)
    requires
        sendable(data),
    ensures
        encoding::read_insert(
            encoding::op_id_bytes(id) + (encoding::op_id_bytes(origin_left) + (encoding::op_id_bytes(origin_right) + (
            encoding::stroke_data_bytes(data) + (encoding::properties_bytes(properties) + rest)))),
        ) == Some(
            (reread(OperationView::InsertStroke { id, origin_left, origin_right, data, properties }), rest),
        ),
{
    reveal(encoding::read_insert);
    let r4 = encoding::properties_bytes(properties) + rest;
    let r3 = encoding::stroke_data_bytes(data) + r4;
    let r2 = encoding::op_id_bytes(origin_right) + r3;
    let r1 = encoding::op_id_bytes(origin_left) + r2;
    lemma_op_id(id, r1);
    lemma_op_id(origin_left, r2);
    lemma_op_id(origin_right, r3);
    lemma_stroke_data(data, r4);
    lemma_properties(properties, rest);
}

proof fn lemma_optional_value(value: Option<MetadataValueView>, rest: Seq<u8>)
    requires
        value matches Some(MetadataValueView::String(v)) ==> sendable_text(v),
    ensures
        encoding::read_optional_value(encoding::optional_value_bytes(value) + rest) == Some((value, rest)),
{
    let t = encoding::optional_value_bytes(value) + rest;
    match value {
        Some(v) => {
            assert(t.skip(1) =~= encoding::value_bytes(v) + rest);
            lemma_value(v, rest);
        },
        None => {
            assert(t.skip(1) =~= rest);
        },
    }
}

proof fn lemma_delete_op(id: OpId, target: OpId, rest: Seq<u8>)
    ensures
        encoding::read_delete(encoding::op_id_bytes(id) + (encoding::op_id_bytes(target) + rest)) == Some(
            (OperationView::DeleteStroke { id, target }, rest),
        ),
{
    reveal(encoding::read_delete);
    lemma_op_id(id, encoding::op_id_bytes(target) + rest);
    lemma_op_id(target, rest);
}

proof fn lemma_property_op(id: OpId, target: OpId, update: PropertyUpdate, rest: Seq<u8>)
    ensures
        encoding::read_property_change(
            encoding::op_id_bytes(id) + (encoding::op_id_bytes(target) + (encoding::update_bytes(update) + rest)),
        ) == Some((OperationView::UpdateProperty { id, target, update }, rest)),
{
    reveal(encoding::read_property_change);
    let c = encoding::update_bytes(update) + rest;
    lemma_op_id(id, encoding::op_id_bytes(target) + c);
    lemma_op_id(target, c);
    lemma_update(update, rest);
}

proof fn lemma_metadata_op(id: OpId, key: MetadataKeyView, value: Option<MetadataValueView>, rest: Seq<u8>)
    requires
        sendable_op(OperationView::UpdateMetadata { id, key, value }),
    ensures
        encoding::read_metadata_change(
            encoding::op_id_bytes(id) + (encoding::key_bytes(key) + (encoding::optional_value_bytes(value) + rest)),
        ) == Some((OperationView::UpdateMetadata { id, key, value }, rest)),
{
    reveal(encoding::read_metadata_change);
    let t = encoding::optional_value_bytes(value) + rest;
    lemma_op_id(id, encoding::key_bytes(key) + t);
    lemma_key(key, t);
    lemma_optional_value(value, rest);
}

/// An operation is read back, the bounds of its path computed anew, and what
/// follows it is left.
pub proof fn law_operation_round_trip(op: OperationView, rest: Seq<u8>)
    requires
        sendable_op(op),
    ensures
        encoding::read_operation(encoding::operation_bytes(op) + rest) == Some((reread(op), rest)),
{
    let s = encoding::operation_bytes(op) + rest;
    match op {
        OperationView::InsertStroke { id, origin_left, origin_right, data, properties } => {
            let a = encoding::op_id_bytes(id);
            let b = encoding::op_id_bytes(origin_left);
            let c = encoding::op_id_bytes(origin_right);
            let d = encoding::stroke_data_bytes(data);
            let e = encoding::properties_bytes(properties);
            assert(s[0] == 1);
            assert(s.skip(1) =~= a + (b + (c + (d + (e + rest)))));
            lemma_insert(id, origin_left, origin_right, data, properties, rest);
        },
        OperationView::DeleteStroke { id, target } => {
            assert(s[0] == 2);
            assert(s.skip(1) =~= encoding::op_id_bytes(id) + (encoding::op_id_bytes(target) + rest));
            lemma_delete_op(id, target, rest);
        },
        OperationView::UpdateProperty { id, target, update } => {
            assert(s[0] == 3);
            assert(s.skip(1) =~= encoding::op_id_bytes(id) + (encoding::op_id_bytes(target) + (encoding::update_bytes(
                update,
            ) + rest)));
            lemma_property_op(id, target, update, rest);
        },
        OperationView::UpdateMetadata { id, key, value } => {
            assert(s[0] == 4);
            assert(s.skip(1) =~= encoding::op_id_bytes(id) + (encoding::key_bytes(key) + (
            encoding::optional_value_bytes(value) + rest)));
            lemma_metadata_op(id, key, value, rest);
        },
    }
}

proof fn lemma_operations(read: Seq<OperationView>, ops: Seq<OperationView>, count: nat, total: nat, rest: Seq<u8>)
    requires
        forall|i: int| 0 <= i < ops.len() ==> sendable_op(#[trigger] ops[i]),
    ensures
        encoding::parse_operations(
            read,
            encoding::operations_bytes(ops) + rest,
            ops.len(),
            count,
            total,
        ) == Ok::<Seq<OperationView>, crate::error::VectisErrorView>(read + reread_all(ops)),
    decreases ops.len(),
{
    if ops.len() == 0 {
        assert(read + reread_all(ops) =~= read);
    } else {
        let tail = ops.drop_first();
        let b = encoding::operations_bytes(tail);
        assert(encoding::operations_bytes(ops) + rest =~= encoding::operation_bytes(ops[0]) + (b + rest));
        law_operation_round_trip(ops[0], b + rest);
        assert forall|i: int| 0 <= i < tail.len() implies sendable_op(#[trigger] tail[i]) by {
            assert(tail[i] == ops[i + 1]);
        }
        lemma_operations(read.push(reread(ops[0])), tail, count, total, rest);
        assert(read.push(reread(ops[0])) + reread_all(tail) =~= read + reread_all(ops));
    }
}

/// An update of at most [`document::MAX_STROKES`] operations is decoded to
/// what was encoded, with the bounds of the paths computed anew.
pub proof fn law_update_round_trip(ops: Seq<OperationView>)
    requires
        ops.len() <= document::MAX_STROKES,
        forall|i: int| 0 <= i < ops.len() ==> sendable_op(#[trigger] ops[i]),
    ensures
        encoding::parse_update(encoding::update_blob(ops)) == Ok::<
            Seq<OperationView>,
            crate::error::VectisErrorView,
        >(reread_all(ops)),
{
    let b = encoding::operations_bytes(ops);
    wire::lemma_varint_round_trip(ops.len() as u64, b);
    lemma_operations(seq![], ops, ops.len(), encoding::update_blob(ops).len(), seq![]);
    assert(b + Seq::<u8>::empty() =~= b);
    assert(Seq::<OperationView>::empty() + reread_all(ops) =~= reread_all(ops));
}

/// The fixed form of an identifier has sixteen bytes and is decoded again.
pub proof fn law_fixed_id_round_trip(id: OpId)
    ensures
        encoding::fixed_id(id).len() == 16,
        encoding::parse_fixed_id(encoding::fixed_id(id)) == id,
{
    wire::lemma_spans();
    let a = wire::le(id.lamport.0 as nat, 8);
    let b = wire::le(id.actor.0 as nat, 8);
    wire::lemma_le_round_trip(id.lamport.0 as nat, 8, b);
    wire::lemma_le_round_trip(id.actor.0 as nat, 8, seq![]);
    wire::lemma_concat(a, b);
    assert(b + Seq::<u8>::empty() =~= b);
    assert(b.take(8) =~= b);
    assert((a + b).skip(8).take(8) =~= b);
}

proof fn lemma_pairs(m: Map<u64, u64>, pairs: Seq<(ActorId, u64)>, rest: Seq<u8>)
    ensures
        encoding::read_entries(m, encoding::pairs_bytes(pairs) + rest, pairs.len()) == types::advanced_all(m, pairs),
    decreases pairs.len(),
{
    if pairs.len() == 0 {
        assert(encoding::pairs_bytes(pairs) + rest =~= rest);
    } else {
        let tail = pairs.drop_first();
        let (actor, ts) = pairs[0];
        let a = wire::varint(actor.0 as nat);
        let b = wire::varint(ts as nat);
        let c = encoding::pairs_bytes(tail);
        assert(encoding::pairs_bytes(pairs) + rest =~= a + (b + (c + rest)));
        wire::lemma_varint_round_trip(actor.0, b + (c + rest));
        wire::lemma_varint_round_trip(ts, c + rest);
        lemma_pairs(types::advanced(m, actor.0, ts), tail, rest);
        lemma_advanced_first(m, pairs);
    }
}

proof fn lemma_advanced_first(m: Map<u64, u64>, pairs: Seq<(ActorId, u64)>)
    requires
        pairs.len() > 0,
    ensures
        types::advanced_all(types::advanced(m, pairs[0].0.0, pairs[0].1), pairs.drop_first()) == types::advanced_all(
            m,
            pairs,
        ),
    decreases pairs.len(),
{
    let tail = pairs.drop_first();
    if pairs.len() == 1 {
        assert(pairs.drop_last() =~= seq![]);
        assert(tail =~= seq![]);
        assert(types::advanced_all(m, pairs.drop_last()) == m);
    } else {
        lemma_advanced_first(m, pairs.drop_last());
        assert(pairs.drop_last().drop_first() =~= tail.drop_last());
        assert(tail.last() == pairs.last());
    }
}

/// A state vector of at most [`document::MAX_ACTORS`] actors is decoded to the
/// clock that was encoded.
pub proof fn law_state_vector_round_trip(m: Map<u64, u64>)
    requires
        m.dom().finite(),
        types::entries(m).len() <= document::MAX_ACTORS,
    ensures
        encoding::parse_state_vector(encoding::state_vector(m)) == m,
{
    let pairs = types::entries(m);
    let b = encoding::pairs_bytes(pairs);
    types::lemma_entries_exist(m);
    wire::lemma_varint_round_trip(pairs.len() as u64, b);
    lemma_pairs(Map::empty(), pairs, seq![]);
    assert(b + Seq::<u8>::empty() =~= b);
    types::lemma_advanced_all(Map::empty(), m, pairs);
    assert(types::merged(Map::empty(), m) =~= m);
}

/// A state vector takes at most twenty bytes to an entry, and ten more.
pub proof fn lemma_state_vector_short(m: Map<u64, u64>)
    requires
        types::entries(m).len() <= document::MAX_ACTORS,
    ensures
        encoding::state_vector(m).len() <= 20 * types::entries(m).len() + 10,
{
    let pairs = types::entries(m);
    wire::lemma_varint_round_trip(pairs.len() as u64, seq![]);
    lemma_pairs_short(pairs);
}

proof fn lemma_pairs_short(pairs: Seq<(ActorId, u64)>)
    ensures
        encoding::pairs_bytes(pairs).len() <= 20 * pairs.len(),
    decreases pairs.len(),
{
    if pairs.len() > 0 {
        lemma_pairs_short(pairs.drop_first());
        wire::lemma_varint_round_trip(pairs[0].0.0, seq![]);
        wire::lemma_varint_round_trip(pairs[0].1, seq![]);
    }
}

/// An identifier is sent with its time first and its actor second. In the fixed
/// form each takes eight bytes; fewer than sixteen bytes stand for no identifier,
/// and what follows the sixteenth is not looked at.
pub proof fn law_identifier_layout(id: OpId, s: Seq<u8>)
    ensures
        encoding::op_id_bytes(id) == wire::varint(id.lamport.0 as nat) + wire::varint(id.actor.0 as nat),
        encoding::fixed_id(id) == wire::le(id.lamport.0 as nat, 8) + wire::le(id.actor.0 as nat, 8),
        s.len() < 16 ==> encoding::parse_fixed_id(s).lamport.0 == 0 && encoding::parse_fixed_id(s).actor.0 == 0,
        s.len() >= 16 ==> encoding::fixed_id(encoding::parse_fixed_id(s)) == s.take(16),
{
    if s.len() >= 16 {
        let a = s.take(8);
        let b = s.skip(8).take(8);
        wire::law_fixed_width_numbers_are_bytes(a, 0, 0);
        wire::law_fixed_width_numbers_are_bytes(b, 0, 0);
        lemma_eight_bytes(a);
        lemma_eight_bytes(b);
        assert(a + b =~= s.take(16));
    }
}

/// Eight bytes hold a number of 64 bits.
proof fn lemma_eight_bytes(s: Seq<u8>)
    requires
        s.len() == 8,
    ensures
        wire::le_value(s) <= u64::MAX,
{
    reveal_with_fuel(wire::le_value, 9);
}

/// Identifiers in the fixed form stand one after another, sixteen bytes each.
pub proof fn law_identifier_lists(ids: Seq<OpId>, i: int)
    ensures
        encoding::fixed_ids(ids).len() == 16 * ids.len(),
        0 <= i < ids.len() ==> encoding::fixed_ids(ids).subrange(16 * i, 16 * i + 16) == encoding::fixed_id(ids[i]),
    decreases ids.len(),
{
    if ids.len() > 0 {
        let less = ids.drop_last();
        let n = less.len() as int;
        law_identifier_lists(less, i);
        law_fixed_id_round_trip(ids.last());
        let all = encoding::fixed_ids(ids);
        if i == n {
            assert(all.subrange(16 * i, 16 * i + 16) =~= encoding::fixed_id(ids.last()));
        } else if 0 <= i < n {
            assert(all.subrange(16 * i, 16 * i + 16) =~= encoding::fixed_ids(less).subrange(16 * i, 16 * i + 16));
        }
    }
}

/// Points stand one after another, twelve bytes each: x, y and pressure.
pub proof fn law_points_layout(points: Seq<StrokePoint>, i: int)
    ensures
        encoding::points_bytes(points).len() == 12 * points.len(),
        0 <= i < points.len() ==> {
            let s = encoding::points_bytes(points);
            &&& s.subrange(12 * i, 12 * i + 4) == wire::le(points[i].x.bits as nat, 4)
            &&& s.subrange(12 * i + 4, 12 * i + 8) == wire::le(points[i].y.bits as nat, 4)
            &&& s.subrange(12 * i + 8, 12 * i + 12) == wire::le(points[i].pressure.bits as nat, 4)
        },
    decreases points.len(),
{
    if points.len() > 0 {
        let rest = points.drop_first();
        let p = points[0];
        let s = encoding::points_bytes(points);
        let t = encoding::points_bytes(rest);
        wire::law_lowest_byte_first(p.x.bits as nat, 4, 0);
        wire::law_lowest_byte_first(p.y.bits as nat, 4, 0);
        wire::law_lowest_byte_first(p.pressure.bits as nat, 4, 0);
        law_points_layout(rest, i - 1);
        assert(s =~= encoding::point_bytes(p) + t);
        if i == 0 {
            assert(s.subrange(0, 4) =~= wire::le(p.x.bits as nat, 4));
            assert(s.subrange(4, 8) =~= wire::le(p.y.bits as nat, 4));
            assert(s.subrange(8, 12) =~= wire::le(p.pressure.bits as nat, 4));
        } else if 0 < i < points.len() {
            assert(rest[i - 1] == points[i]);
            assert(s.subrange(12 * i, 12 * i + 4) =~= t.subrange(12 * (i - 1), 12 * (i - 1) + 4));
            assert(s.subrange(12 * i + 4, 12 * i + 8) =~= t.subrange(12 * (i - 1) + 4, 12 * (i - 1) + 8));
            assert(s.subrange(12 * i + 8, 12 * i + 12) =~= t.subrange(12 * (i - 1) + 8, 12 * (i - 1) + 12));
        }
    }
}

/// A transform is sent as its six entries, the factors before the
/// offsets.
pub open spec fn six(t: Transform2D) -> Seq<u8> {
    wire::le(t.a.bits as nat, 4) + wire::le(t.b.bits as nat, 4) + wire::le(t.c.bits as nat, 4) + wire::le(
        t.d.bits as nat,
        4,
    ) + wire::le(t.tx.bits as nat, 4) + wire::le(t.ty.bits as nat, 4)
}

/// How operations are laid out: a byte for what it is, its identifier, and its
/// fields, each property behind the identifier of its last change.
pub proof fn law_operation_layout(op: OperationView)
    ensures
        match op {
            OperationView::InsertStroke { id, origin_left, origin_right, data, properties: p } => {
                let tool: u8 = match data.tool {
                    ToolKind::Pen => 0,
                    ToolKind::Eraser => 1,
                    ToolKind::Marker => 2,
                    ToolKind::Laser => 3,
                    ToolKind::Shape => 4,
                    ToolKind::Arrow => 5,
                };
                encoding::operation_bytes(op) == seq![1u8] + encoding::op_id_bytes(id) + encoding::op_id_bytes(origin_left)
                    + encoding::op_id_bytes(origin_right) + (seq![tool] + wire::varint(data.points.len())
                    + encoding::points_bytes(data.points)) + (encoding::op_id_bytes(p.color.timestamp) + wire::le(
                    p.color.value as nat,
                    4,
                ) + encoding::op_id_bytes(p.stroke_width.timestamp) + wire::le(p.stroke_width.value.bits as nat, 4)
                    + encoding::op_id_bytes(p.opacity.timestamp) + wire::le(p.opacity.value.bits as nat, 4)
                    + encoding::op_id_bytes(p.transform.timestamp) + six(p.transform.value))
            },
            OperationView::DeleteStroke { id, target } => encoding::operation_bytes(op) == seq![2u8]
                + encoding::op_id_bytes(id) + encoding::op_id_bytes(target),
            OperationView::UpdateProperty { id, target, update } => encoding::operation_bytes(op) == seq![3u8]
                + encoding::op_id_bytes(id) + encoding::op_id_bytes(target) + match update {
                PropertyUpdate::Color(v) => seq![0u8] + wire::le(v as nat, 4),
                PropertyUpdate::StrokeWidth(v) => seq![1u8] + wire::le(v.bits as nat, 4),
                PropertyUpdate::Opacity(v) => seq![2u8] + wire::le(v.bits as nat, 4),
                PropertyUpdate::Transform(t) => seq![3u8] + six(t),
            },
            OperationView::UpdateMetadata { id, key, value } => {
                let name = match key {
                    MetadataKeyView::ViewportX => seq![0u8],
                    MetadataKeyView::ViewportY => seq![1u8],
                    MetadataKeyView::ViewportZoom => seq![2u8],
                    MetadataKeyView::BackgroundColor => seq![3u8],
                    MetadataKeyView::GridEnabled => seq![4u8],
                    MetadataKeyView::GridSpacing => seq![5u8],
                    MetadataKeyView::Custom(name) => seq![255u8] + wire::prefixed(vstd::utf8::encode_utf8(name)),
                };
                let held = match value {
                    None => seq![0u8],
                    Some(MetadataValueView::F64(v)) => seq![1u8, 0u8] + wire::le(v.bits as nat, 8),
                    Some(MetadataValueView::Bool(true)) => seq![1u8, 1u8, 1u8],
                    Some(MetadataValueView::Bool(false)) => seq![1u8, 1u8, 0u8],
                    Some(MetadataValueView::U32(v)) => seq![1u8, 2u8] + wire::le(v as nat, 4),
                    Some(MetadataValueView::String(v)) => seq![1u8, 3u8] + wire::prefixed(vstd::utf8::encode_utf8(v)),
                };
                encoding::operation_bytes(op) == seq![4u8] + encoding::op_id_bytes(id) + name + held
            },
        },
{
    reveal(encoding::operation_bytes);
    reveal(encoding::stroke_data_bytes);
    reveal(encoding::properties_bytes);
    match op {
        OperationView::UpdateMetadata { id, key, value } => {
            if let Some(v) = value {
                let held = encoding::optional_value_bytes(value);
                match v {
                    MetadataValueView::F64(x) => {
                        assert(held =~= seq![1u8, 0u8] + wire::le(x.bits as nat, 8));
                    },
                    MetadataValueView::Bool(x) => {
                        assert(held =~= seq![1u8, 1u8, if x {
                            1u8
                        } else {
                            0u8
                        }]);
                    },
                    MetadataValueView::U32(x) => {
                        assert(held =~= seq![1u8, 2u8] + wire::le(x as nat, 4));
                    },
                    MetadataValueView::String(x) => {
                        assert(held =~= seq![1u8, 3u8] + wire::prefixed(vstd::utf8::encode_utf8(x)));
                    },
                }
            }
        },
        _ => {},
    }
}

/// Nothing is read behind a leading byte that is none of those in use.
pub proof fn law_unknown_kinds_are_not_read(s: Seq<u8>)
    ensures
        s.len() == 0 || s[0] == 0 || s[0] > 4 ==> encoding::read_operation(s) is None,
        s.len() == 0 || s[0] > 3 ==> encoding::read_update(s) is None && encoding::read_value(s) is None,
        s.len() == 0 || 5 < s[0] < 255 ==> encoding::read_key(s) is None,
{
    reveal(encoding::read_operation);
    reveal(encoding::read_update);
    reveal(encoding::read_value);
    reveal(encoding::read_key);
}

/// An update is the number of its operations, and then these one after another.
pub proof fn law_update_layout(a: Seq<OperationView>, b: Seq<OperationView>, op: OperationView)
    ensures
        encoding::update_blob(a) == wire::varint(a.len()) + encoding::operations_bytes(a),
        encoding::operations_bytes(seq![]) == Seq::<u8>::empty(),
        encoding::operations_bytes(seq![op]) == encoding::operation_bytes(op),
        encoding::operations_bytes(a + b) == encoding::operations_bytes(a) + encoding::operations_bytes(b),
    decreases a.len(),
{
    assert(seq![op].drop_first() =~= Seq::<OperationView>::empty());
    assert(encoding::operations_bytes(seq![op].drop_first()) =~= Seq::<u8>::empty());
    assert(encoding::operations_bytes(seq![op]) =~= encoding::operation_bytes(op));
    if a.len() == 0 {
        assert(a + b =~= b);
        assert(encoding::operations_bytes(a + b) =~= encoding::operations_bytes(a) + encoding::operations_bytes(b));
    } else {
        law_update_layout(a.drop_first(), b, op);
        assert((a + b).drop_first() =~= a.drop_first() + b);
        assert(encoding::operations_bytes(a + b) =~= encoding::operations_bytes(a) + encoding::operations_bytes(b));
    }
}

/// An update of more than a hundred thousand operations is refused, whatever
/// they are; one without a count as well.
pub proof fn law_long_updates_are_refused(n: u64, rest: Seq<u8>)
    requires
        n > 100_000,
    ensures
        ({
            let found = encoding::parse_update(wire::varint(n as nat) + rest);
            &&& found is Err && found->Err_0 is LimitExceeded
            &&& found->Err_0->what == "ops_per_update"@
            &&& found->Err_0->limit == 100_000
            &&& n <= usize::MAX ==> found->Err_0->actual == n
        }),
        encoding::parse_update(seq![]) is Err,
{
    wire::lemma_varint_round_trip(n, rest);
}

/// A path of more than fifty thousand points is not read.
pub proof fn law_long_paths_are_not_read(tool: u8, n: u64, rest: Seq<u8>)
    requires
        n > 50_000,
    ensures
        encoding::read_stroke_data(seq![tool] + wire::varint(n as nat) + rest) is None,
{
    reveal(encoding::read_stroke_data);
    let s = seq![tool] + wire::varint(n as nat) + rest;
    assert(s.skip(1) =~= wire::varint(n as nat) + rest);
    wire::lemma_varint_round_trip(n, rest);
}

/// Where an update breaks off, or goes on with what is no operation, it is
/// refused as a whole, and the error counts the operations up to the first that
/// cannot be read and gives the place where that one begins.
pub proof fn law_broken_updates_are_refused(ops: Seq<OperationView>, n: nat, rest: Seq<u8>)
    requires
        ops.len() < n <= 100_000,
        forall|i: int| 0 <= i < ops.len() ==> sendable_op(#[trigger] ops[i]),
        encoding::read_operation(rest) is None,
    ensures
        ({
            let head = wire::varint(n) + encoding::operations_bytes(ops);
            encoding::parse_update(head + rest) == Err::<Seq<OperationView>, crate::error::VectisErrorView>(
                crate::error::VectisErrorView::DecodingError(
                    encoding::malformed((ops.len() + 1) as nat, n, head.len()),
                ),
            )
        }),
{
    let b = encoding::operations_bytes(ops);
    let s = wire::varint(n) + b + rest;
    assert(s =~= wire::varint(n) + (b + rest));
    wire::lemma_varint_round_trip(n as u64, b + rest);
    lemma_broken(seq![], ops, n, n, s.len(), rest);
}

proof fn lemma_broken(
    read: Seq<OperationView>,
    ops: Seq<OperationView>,
    n: nat,
    count: nat,
    total: nat,
    rest: Seq<u8>,
)
    requires
        ops.len() < n,
        forall|i: int| 0 <= i < ops.len() ==> sendable_op(#[trigger] ops[i]),
        encoding::read_operation(rest) is None,
    ensures
        encoding::parse_operations(read, encoding::operations_bytes(ops) + rest, n, count, total) == Err::<
            Seq<OperationView>,
            crate::error::VectisErrorView,
        >(
            crate::error::VectisErrorView::DecodingError(
                encoding::malformed((read.len() + ops.len() + 1) as nat, count, (total - rest.len()) as nat),
            ),
        ),
    decreases ops.len(),
{
    if ops.len() == 0 {
        assert(encoding::operations_bytes(ops) + rest =~= rest);
    } else {
        let tail = ops.drop_first();
        let b = encoding::operations_bytes(tail);
        assert(encoding::operations_bytes(ops) + rest =~= encoding::operation_bytes(ops[0]) + (b + rest));
        law_operation_round_trip(ops[0], b + rest);
        assert forall|i: int| 0 <= i < tail.len() implies sendable_op(#[trigger] tail[i]) by {
            assert(tail[i] == ops[i + 1]);
        }
        lemma_broken(read.push(reread(ops[0])), tail, (n - 1) as nat, count, total, rest);
    }
}

/// A state vector is the number of its actors, and then each actor with its
/// time, in ascending order of actors.
pub proof fn law_state_vector_layout(m: Map<u64, u64>, pairs: Seq<(ActorId, u64)>)
    requires
        forall|i: int, j: int| 0 <= i < j < pairs.len() ==> (#[trigger] pairs[i]).0.0 < (#[trigger] pairs[j]).0.0,
        forall|i: int|
            0 <= i < pairs.len() ==> m.contains_key((#[trigger] pairs[i]).0.0) && m[pairs[i].0.0] == pairs[i].1,
        forall|k: u64| #[trigger]
            m.contains_key(k) ==> exists|i: int| 0 <= i < pairs.len() && (#[trigger] pairs[i]).0.0 == k,
    ensures
        encoding::state_vector(m) == wire::varint(pairs.len()) + encoding::pairs_bytes(pairs),
        pairs.len() > 0 ==> encoding::pairs_bytes(pairs) == wire::varint(pairs[0].0.0 as nat) + wire::varint(
            pairs[0].1 as nat,
        ) + encoding::pairs_bytes(pairs.drop_first()),
        encoding::pairs_bytes(seq![]) == Seq::<u8>::empty(),
{
    types::lemma_entries(m, pairs);
}

} // verus!
