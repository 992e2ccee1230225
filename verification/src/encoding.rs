//! The binary form of operations and updates.
//!
//! Integers are LEB128, floating-point numbers their little-endian bit
//! patterns.
//!
//! | Tag    | Operation        | Tag    | Property    | Tag    | Metadata value |
//! |--------|------------------|--------|-------------|--------|----------------|
//! | `0x01` | `InsertStroke`   | `0x00` | color       | `0x00` | number         |
//! | `0x02` | `DeleteStroke`   | `0x01` | width       | `0x01` | flag           |
//! | `0x03` | `UpdateProperty` | `0x02` | opacity     | `0x02` | integer        |
//! | `0x04` | `UpdateMetadata` | `0x03` | transform   | `0x03` | text           |

use crate::document;
use crate::error::{VectisError, VectisErrorView, VectisResult};
use crate::float::{F32, F64};
use crate::metadata;
use crate::metadata::{MetadataKey, MetadataKeyView, MetadataValue, MetadataValueView};
use crate::operation;
use crate::operation::{Operation, OperationView, PropertyUpdate};
use crate::rga::StrokeId;
use crate::stroke;
use crate::stroke::{
    LwwRegister, StrokeData, StrokeDataView, StrokePoint, StrokeProperties, ToolKind, Transform2D,
};
use crate::text;
use crate::types;
use crate::types::{ActorId, LamportTs, OpId, VectorClock};
use crate::wire;
use vstd::prelude::*;

pub use crate::snapshot::{decode_snapshot, encode_snapshot, SNAPSHOT_VERSION};
pub use crate::wire::{decode_varint, encode_varint};

verus! {

/// The bytes of an identifier within an update.
pub open spec fn op_id_bytes(id: OpId) -> Seq<u8> {
    wire::varint(id.lamport.0 as nat) + wire::varint(id.actor.0 as nat)
}

pub open spec fn read_op_id(s: Seq<u8>) -> Option<(OpId, Seq<u8>)> {
    match wire::read_varint(s) {
        Some((lamport, s)) => match wire::read_varint(s) {
            Some((actor, s)) => Some((OpId { lamport: LamportTs(lamport), actor: ActorId(actor) }, s)),
            None => None,
        },
        None => None,
    }
}

pub open spec fn f32_bytes(v: F32) -> Seq<u8> {
    wire::le(v.bits as nat, 4)
}

pub open spec fn read_u32(s: Seq<u8>) -> Option<(u32, Seq<u8>)> {
    match wire::read_le(s, 4) {
        Some((v, s)) => Some((v as u32, s)),
        None => None,
    }
}

pub open spec fn read_f32(s: Seq<u8>) -> Option<(F32, Seq<u8>)> {
    match wire::read_le(s, 4) {
        Some((v, s)) => Some((F32 { bits: v as u32 }, s)),
        None => None,
    }
}

pub open spec fn transform_bytes(t: Transform2D) -> Seq<u8> {
    f32_bytes(t.a) + f32_bytes(t.b) + f32_bytes(t.c) + f32_bytes(t.d) + f32_bytes(t.tx) + f32_bytes(t.ty)
}

pub open spec fn read_transform(s: Seq<u8>) -> Option<(Transform2D, Seq<u8>)> {
    match read_f32(s) {
        Some((a, s)) => match read_f32(s) {
            Some((b, s)) => match read_f32(s) {
                Some((c, s)) => match read_f32(s) {
                    Some((d, s)) => match read_f32(s) {
                        Some((tx, s)) => match read_f32(s) {
                            Some((ty, s)) => Some((Transform2D { a, b, c, d, tx, ty }, s)),
                            None => None,
                        },
                        None => None,
                    },
                    None => None,
                },
                None => None,
            },
            None => None,
        },
        None => None,
    }
}

pub open spec fn point_bytes(p: StrokePoint) -> Seq<u8> {
    f32_bytes(p.x) + f32_bytes(p.y) + f32_bytes(p.pressure)
}

pub open spec fn read_point(s: Seq<u8>) -> Option<(StrokePoint, Seq<u8>)> {
    match read_f32(s) {
        Some((x, s)) => match read_f32(s) {
            Some((y, s)) => match read_f32(s) {
                Some((pressure, s)) => Some((StrokePoint { x, y, pressure }, s)),
                None => None,
            },
            None => None,
        },
        None => None,
    }
}

pub open spec fn points_bytes(points: Seq<StrokePoint>) -> Seq<u8>
    decreases points.len(),
{
    if points.len() == 0 {
        seq![]
    } else {
        point_bytes(points[0]) + points_bytes(points.drop_first())
    }
}

/// `n` more points, behind those already read.
pub open spec fn read_points(read: Seq<StrokePoint>, s: Seq<u8>, n: nat) -> Option<(Seq<StrokePoint>, Seq<u8>)>
    decreases n,
{
    if n == 0 {
        Some((read, s))
    } else {
        match read_point(s) {
            Some((p, s)) => read_points(read.push(p), s, (n - 1) as nat),
            None => None,
        }
    }
}

/// The bytes of a stroke path; its bounds are not sent.
#[verifier::opaque]
pub open spec fn stroke_data_bytes(data: StrokeDataView) -> Seq<u8> {
    seq![data.tool.code()] + wire::varint(data.points.len()) + points_bytes(data.points)
}

/// A stroke path of at most [`document::MAX_POINTS_PER_STROKE`] points.
#[verifier::opaque]
pub open spec fn read_stroke_data(s: Seq<u8>) -> Option<(StrokeDataView, Seq<u8>)> {
    if s.len() == 0 {
        None
    } else {
        match wire::read_varint(s.skip(1)) {
            Some((n, rest)) => if n > document::MAX_POINTS_PER_STROKE {
                None
            } else {
                match read_points(seq![], rest, n as nat) {
                    Some((points, rest)) => Some((stroke::stroke_data(points, ToolKind::of_code(s[0])), rest)),
                    None => None,
                }
            },
            None => None,
        }
    }
}

#[verifier::opaque]
pub open spec fn properties_bytes(p: StrokeProperties) -> Seq<u8> {
    op_id_bytes(p.color.timestamp) + wire::le(p.color.value as nat, 4) + op_id_bytes(p.stroke_width.timestamp)
        + f32_bytes(p.stroke_width.value) + op_id_bytes(p.opacity.timestamp) + f32_bytes(p.opacity.value)
        + op_id_bytes(p.transform.timestamp) + transform_bytes(p.transform.value)
}

#[verifier::opaque]
pub open spec fn read_properties(s: Seq<u8>) -> Option<(StrokeProperties, Seq<u8>)> {
    match read_op_id(s) {
        Some((t1, s)) => match read_u32(s) {
            Some((color, s)) => match read_op_id(s) {
                Some((t2, s)) => match read_f32(s) {
                    Some((width, s)) => match read_op_id(s) {
                        Some((t3, s)) => match read_f32(s) {
                            Some((opacity, s)) => match read_op_id(s) {
                                Some((t4, s)) => match read_transform(s) {
                                    Some((transform, s)) => Some(
                                        (
                                            StrokeProperties {
                                                color: LwwRegister { value: color, timestamp: t1 },
                                                stroke_width: LwwRegister { value: width, timestamp: t2 },
                                                opacity: LwwRegister { value: opacity, timestamp: t3 },
                                                transform: LwwRegister { value: transform, timestamp: t4 },
                                            },
                                            s,
                                        ),
                                    ),
                                    None => None,
                                },
                                None => None,
                            },
                            None => None,
                        },
                        None => None,
                    },
                    None => None,
                },
                None => None,
            },
            None => None,
        },
        None => None,
    }
}

pub open spec fn key_bytes(key: MetadataKeyView) -> Seq<u8> {
    match key {
        MetadataKeyView::ViewportX => seq![0u8],
        MetadataKeyView::ViewportY => seq![1u8],
        MetadataKeyView::ViewportZoom => seq![2u8],
        MetadataKeyView::BackgroundColor => seq![3u8],
        MetadataKeyView::GridEnabled => seq![4u8],
        MetadataKeyView::GridSpacing => seq![5u8],
        MetadataKeyView::Custom(name) => seq![255u8] + wire::prefixed(vstd::utf8::encode_utf8(name)),
    }
}

pub open spec fn read_key(s: Seq<u8>) -> Option<(MetadataKeyView, Seq<u8>)> {
    if s.len() == 0 {
        None
    } else if s[0] == 0 {
        Some((MetadataKeyView::ViewportX, s.skip(1)))
    } else if s[0] == 1 {
        Some((MetadataKeyView::ViewportY, s.skip(1)))
    } else if s[0] == 2 {
        Some((MetadataKeyView::ViewportZoom, s.skip(1)))
    } else if s[0] == 3 {
        Some((MetadataKeyView::BackgroundColor, s.skip(1)))
    } else if s[0] == 4 {
        Some((MetadataKeyView::GridEnabled, s.skip(1)))
    } else if s[0] == 5 {
        Some((MetadataKeyView::GridSpacing, s.skip(1)))
    } else if s[0] == 255 {
        match wire::read_text(s.skip(1)) {
            Some((name, rest)) => Some((MetadataKeyView::Custom(name), rest)),
            None => None,
        }
    } else {
        None
    }
}

pub open spec fn value_bytes(value: MetadataValueView) -> Seq<u8> {
    match value {
        MetadataValueView::F64(v) => seq![0u8] + wire::le(v.bits as nat, 8),
        MetadataValueView::Bool(v) => seq![1u8, if v {
            1u8
        } else {
            0u8
        }],
        MetadataValueView::U32(v) => seq![2u8] + wire::le(v as nat, 4),
        MetadataValueView::String(v) => seq![3u8] + wire::prefixed(vstd::utf8::encode_utf8(v)),
    }
}

pub open spec fn read_value(s: Seq<u8>) -> Option<(MetadataValueView, Seq<u8>)> {
    if s.len() == 0 {
        None
    } else if s[0] == 0 {
        match wire::read_le(s.skip(1), 8) {
            Some((v, rest)) => Some((MetadataValueView::F64(F64 { bits: v as u64 }), rest)),
            None => None,
        }
    } else if s[0] == 1 {
        if s.len() < 2 {
            None
        } else {
            Some((MetadataValueView::Bool(s[1] != 0), s.skip(2)))
        }
    } else if s[0] == 2 {
        match read_u32(s.skip(1)) {
            Some((v, rest)) => Some((MetadataValueView::U32(v), rest)),
            None => None,
        }
    } else if s[0] == 3 {
        match wire::read_text(s.skip(1)) {
            Some((v, rest)) => Some((MetadataValueView::String(v), rest)),
            None => None,
        }
    } else {
        None
    }
}

pub open spec fn update_bytes(update: PropertyUpdate) -> Seq<u8> {
    match update {
        PropertyUpdate::Color(v) => seq![0u8] + wire::le(v as nat, 4),
        PropertyUpdate::StrokeWidth(v) => seq![1u8] + f32_bytes(v),
        PropertyUpdate::Opacity(v) => seq![2u8] + f32_bytes(v),
        PropertyUpdate::Transform(v) => seq![3u8] + transform_bytes(v),
    }
}

pub open spec fn read_update(s: Seq<u8>) -> Option<(PropertyUpdate, Seq<u8>)> {
    if s.len() == 0 {
        None
    } else if s[0] == 0 {
        match read_u32(s.skip(1)) {
            Some((v, rest)) => Some((PropertyUpdate::Color(v), rest)),
            None => None,
        }
    } else if s[0] == 1 {
        match read_f32(s.skip(1)) {
            Some((v, rest)) => Some((PropertyUpdate::StrokeWidth(v), rest)),
            None => None,
        }
    } else if s[0] == 2 {
        match read_f32(s.skip(1)) {
            Some((v, rest)) => Some((PropertyUpdate::Opacity(v), rest)),
            None => None,
        }
    } else if s[0] == 3 {
        match read_transform(s.skip(1)) {
            Some((v, rest)) => Some((PropertyUpdate::Transform(v), rest)),
            None => None,
        }
    } else {
        None
    }
}

pub open spec fn optional_value_bytes(value: Option<MetadataValueView>) -> Seq<u8> {
    match value {
        Some(v) => seq![1u8] + value_bytes(v),
        None => seq![0u8],
    }
}

pub open spec fn read_optional_value(s: Seq<u8>) -> Option<(Option<MetadataValueView>, Seq<u8>)> {
    if s.len() == 0 {
        None
    } else if s[0] == 0 {
        Some((None, s.skip(1)))
    } else {
        match read_value(s.skip(1)) {
            Some((v, rest)) => Some((Some(v), rest)),
            None => None,
        }
    }
}

/// The bytes of an operation.
pub open spec fn operation_bytes(op: OperationView) -> Seq<u8> {
    match op {
        OperationView::InsertStroke { id, origin_left, origin_right, data, properties } => seq![1u8] + op_id_bytes(id)
            + op_id_bytes(origin_left) + op_id_bytes(origin_right) + stroke_data_bytes(data) + properties_bytes(
            properties,
        ),
        OperationView::DeleteStroke { id, target } => seq![2u8] + op_id_bytes(id) + op_id_bytes(target),
        OperationView::UpdateProperty { id, target, update } => seq![3u8] + op_id_bytes(id) + op_id_bytes(target)
            + update_bytes(update),
        OperationView::UpdateMetadata { id, key, value } => seq![4u8] + op_id_bytes(id) + key_bytes(key)
            + optional_value_bytes(value),
    }
}

#[verifier::opaque]
pub open spec fn read_insert(s: Seq<u8>) -> Option<(OperationView, Seq<u8>)> {
    match read_op_id(s) {
        Some((id, s)) => match read_op_id(s) {
            Some((origin_left, s)) => match read_op_id(s) {
                Some((origin_right, s)) => match read_stroke_data(s) {
                    Some((data, s)) => match read_properties(s) {
                        Some((properties, s)) => Some(
                            (OperationView::InsertStroke { id, origin_left, origin_right, data, properties }, s),
                        ),
                        None => None,
                    },
                    None => None,
                },
                None => None,
            },
            None => None,
        },
        None => None,
    }
}

#[verifier::opaque]
pub open spec fn read_delete(s: Seq<u8>) -> Option<(OperationView, Seq<u8>)> {
    match read_op_id(s) {
        Some((id, s)) => match read_op_id(s) {
            Some((target, s)) => Some((OperationView::DeleteStroke { id, target }, s)),
            None => None,
        },
        None => None,
    }
}

#[verifier::opaque]
pub open spec fn read_property_change(s: Seq<u8>) -> Option<(OperationView, Seq<u8>)> {
    match read_op_id(s) {
        Some((id, s)) => match read_op_id(s) {
            Some((target, s)) => match read_update(s) {
                Some((update, s)) => Some((OperationView::UpdateProperty { id, target, update }, s)),
                None => None,
            },
            None => None,
        },
        None => None,
    }
}

#[verifier::opaque]
pub open spec fn read_metadata_change(s: Seq<u8>) -> Option<(OperationView, Seq<u8>)> {
    match read_op_id(s) {
        Some((id, s)) => match read_key(s) {
            Some((key, s)) => match read_optional_value(s) {
                Some((value, s)) => Some((OperationView::UpdateMetadata { id, key, value }, s)),
                None => None,
            },
            None => None,
        },
        None => None,
    }
}

/// An operation at the head of `s`.
pub open spec fn read_operation(s: Seq<u8>) -> Option<(OperationView, Seq<u8>)> {
    if s.len() == 0 {
        None
    } else if s[0] == 1 {
        read_insert(s.skip(1))
    } else if s[0] == 2 {
        read_delete(s.skip(1))
    } else if s[0] == 3 {
        read_property_change(s.skip(1))
    } else if s[0] == 4 {
        read_metadata_change(s.skip(1))
    } else {
        None
    }
}

pub open spec fn operations_bytes(ops: Seq<OperationView>) -> Seq<u8>
    decreases ops.len(),
{
    if ops.len() == 0 {
        seq![]
    } else {
        operation_bytes(ops[0]) + operations_bytes(ops.drop_first())
    }
}

/// The bytes of an update: the number of operations, then the operations.
pub open spec fn update_blob(ops: Seq<OperationView>) -> Seq<u8> {
    wire::varint(ops.len()) + operations_bytes(ops)
}

/// The message for a malformed operation.
pub open spec fn malformed(which: nat, count: nat, at: nat) -> Seq<char> {
    "malformed operation "@ + text::decimal(which) + " of "@ + text::decimal(count) + " at byte "@ + text::decimal(at)
}

/// `n` more of `count` operations, behind those already read, at the head of
/// the last `s.len()` of `total` bytes.
pub open spec fn parse_operations(
    read: Seq<OperationView>,
    s: Seq<u8>,
    n: nat,
    count: nat,
    total: nat,
) -> Result<Seq<OperationView>, VectisErrorView>
    decreases n,
{
    if n == 0 {
        Ok(read)
    } else {
        match read_operation(s) {
            Some((op, rest)) => parse_operations(read.push(op), rest, (n - 1) as nat, count, total),
            None => Err(
                VectisErrorView::DecodingError(malformed(read.len() + 1, count, (total - s.len()) as nat)),
            ),
        }
    }
}

/// What an update holds, or why it cannot be read. Bytes behind the last
/// operation are ignored.
pub open spec fn parse_update(s: Seq<u8>) -> Result<Seq<OperationView>, VectisErrorView> {
    match wire::read_varint(s) {
        None => Err(VectisErrorView::DecodingError("empty or truncated update"@)),
        Some((count, rest)) => if count > document::MAX_STROKES {
            Err(
                VectisErrorView::LimitExceeded {
                    what: "ops_per_update"@,
                    limit: document::MAX_STROKES,
                    actual: count as usize,
                },
            )
        } else {
            parse_operations(seq![], rest, count as nat, count as nat, s.len())
        },
    }
}

fn encode_op_id_into(id: &OpId, out: &mut Vec<u8>)
    ensures
        final(out)@ == old(out)@ + op_id_bytes(*id),
{
    wire::encode_varint(id.lamport.0, out);
    wire::encode_varint(id.actor.0, out);
    proof {
        assert(out@ =~= old(out)@ + op_id_bytes(*id));
    }
}

fn decode_op_id_at(bytes: &[u8], cursor: usize) -> (found: Option<(OpId, usize)>)
    requires
        cursor <= bytes@.len(),
    ensures
        wire::reads(found, read_op_id(bytes@.skip(cursor as int)), bytes@, cursor),
{
    let (lamport, c): (u64, usize) = wire::decode_varint_at(bytes, cursor)?;
    let (actor, c): (u64, usize) = wire::decode_varint_at(bytes, c)?;
    Some((OpId { lamport: LamportTs(lamport), actor: ActorId(actor) }, c))
}

fn encode_f32(v: F32, out: &mut Vec<u8>)
    ensures
        final(out)@ == old(out)@ + f32_bytes(v),
{
    wire::encode_u32(v.bits, out);
}

fn decode_u32_at(bytes: &[u8], cursor: usize) -> (found: Option<(u32, usize)>)
    requires
        cursor <= bytes@.len(),
    ensures
        wire::reads(found, read_u32(bytes@.skip(cursor as int)), bytes@, cursor),
{
    wire::decode_u32_at(bytes, cursor)
}

fn decode_f32_at(bytes: &[u8], cursor: usize) -> (found: Option<(F32, usize)>)
    requires
        cursor <= bytes@.len(),
    ensures
        wire::reads(found, read_f32(bytes@.skip(cursor as int)), bytes@, cursor),
{
    let (bits, c): (u32, usize) = wire::decode_u32_at(bytes, cursor)?;
    Some((F32 { bits }, c))
}

fn encode_transform(t: &Transform2D, out: &mut Vec<u8>)
    ensures
        final(out)@ == old(out)@ + transform_bytes(*t),
{
    encode_f32(t.a, out);
    encode_f32(t.b, out);
    encode_f32(t.c, out);
    encode_f32(t.d, out);
    encode_f32(t.tx, out);
    encode_f32(t.ty, out);
    proof {
        assert(out@ =~= old(out)@ + transform_bytes(*t));
    }
}

fn decode_transform_at(bytes: &[u8], cursor: usize) -> (found: Option<(Transform2D, usize)>)
    requires
        cursor <= bytes@.len(),
    ensures
        wire::reads(found, read_transform(bytes@.skip(cursor as int)), bytes@, cursor),
{
    let (a, at): (F32, usize) = decode_f32_at(bytes, cursor)?;
    let (b, at): (F32, usize) = decode_f32_at(bytes, at)?;
    let (c, at): (F32, usize) = decode_f32_at(bytes, at)?;
    let (d, at): (F32, usize) = decode_f32_at(bytes, at)?;
    let (tx, at): (F32, usize) = decode_f32_at(bytes, at)?;
    let (ty, at): (F32, usize) = decode_f32_at(bytes, at)?;
    Some((Transform2D { a, b, c, d, tx, ty }, at))
}

fn encode_stroke_data(data: &StrokeData, out: &mut Vec<u8>)
    ensures
        final(out)@ == old(out)@ + stroke_data_bytes(data@),
{
    proof {
        reveal(stroke_data_bytes);
    }
    out.push(data.tool.to_u8());
    wire::encode_varint(data.points.len() as u64, out);
    let ghost head = out@;
    let ghost all = data@.points;
    let mut i: usize = 0;
    proof {
        assert(all.skip(0) =~= all);
    }
    while i < data.points.len()
        invariant
            i <= all.len(),
            all == data@.points,
            out@ + points_bytes(all.skip(i as int)) == head + points_bytes(all),
        decreases all.len() - i,
    {
        let p = data.points[i];
        let ghost before = out@;
        encode_f32(p.x, out);
        encode_f32(p.y, out);
        encode_f32(p.pressure, out);
        proof {
            assert(all.skip(i as int).drop_first() =~= all.skip(i + 1));
            assert(all.skip(i as int)[0] == p);
            assert(out@ =~= before + point_bytes(p));
            assert(before + points_bytes(all.skip(i as int)) =~= out@ + points_bytes(all.skip(i + 1)));
        }
        i += 1;
    }
    proof {
        assert(out@ =~= out@ + points_bytes(all.skip(all.len() as int)));
        assert(out@ =~= old(out)@ + stroke_data_bytes(data@));
    }
}

fn decode_point_at(bytes: &[u8], cursor: usize) -> (found: Option<(StrokePoint, usize)>)
    requires
        cursor <= bytes@.len(),
    ensures
        wire::reads(found, read_point(bytes@.skip(cursor as int)), bytes@, cursor),
{
    let (x, c): (F32, usize) = decode_f32_at(bytes, cursor)?;
    let (y, c): (F32, usize) = decode_f32_at(bytes, c)?;
    let (pressure, c): (F32, usize) = decode_f32_at(bytes, c)?;
    Some((StrokePoint::new(x, y, pressure), c))
}

fn decode_stroke_data_at(bytes: &[u8], cursor: usize) -> (found: Option<(StrokeData, usize)>)
    requires
        cursor <= bytes@.len(),
    ensures
        wire::reads_view(found, read_stroke_data(bytes@.skip(cursor as int)), bytes@, cursor),
{
    proof {
        reveal(read_stroke_data);
    }
    let ghost s = bytes@.skip(cursor as int);
    if cursor >= bytes.len() {
        return None;
    }
    let tool = ToolKind::from_u8(bytes[cursor]);
    proof {
        assert(s.skip(1) =~= bytes@.skip(cursor + 1));
    }
    let (count, start): (u64, usize) = wire::decode_varint_at(bytes, cursor + 1)?;
    if count > document::MAX_POINTS_PER_STROKE as u64 {
        return None;
    }
    let ghost expected = read_points(seq![], bytes@.skip(start as int), count as nat);
    let mut points: Vec<StrokePoint> = Vec::new();
    let mut at: usize = start;
    let mut left: u64 = count;
    while left > 0
        invariant
            cursor < start <= at <= bytes@.len(),
            s == bytes@.skip(cursor as int),
            s.len() > 0,
            wire::read_varint(s.skip(1)) == Some((count, bytes@.skip(start as int))),
            count <= document::MAX_POINTS_PER_STROKE,
            expected == read_points(seq![], bytes@.skip(start as int), count as nat),
            read_points(points@, bytes@.skip(at as int), left as nat) == expected,
        decreases left,
    {
        proof {
            reveal(read_stroke_data);
        }
        let (p, next): (StrokePoint, usize) = decode_point_at(bytes, at)?;
        points.push(p);
        at = next;
        left = left - 1;
    }
    Some((StrokeData::new(points, tool), at))
}

fn encode_stroke_properties(props: &StrokeProperties, out: &mut Vec<u8>)
    ensures
        final(out)@ == old(out)@ + properties_bytes(*props),
{
    proof {
        reveal(properties_bytes);
    }
    encode_op_id_into(&props.color.timestamp, out);
    wire::encode_u32(props.color.value, out);
    encode_op_id_into(&props.stroke_width.timestamp, out);
    encode_f32(props.stroke_width.value, out);
    encode_op_id_into(&props.opacity.timestamp, out);
    encode_f32(props.opacity.value, out);
    encode_op_id_into(&props.transform.timestamp, out);
    encode_transform(&props.transform.value, out);
    proof {
        assert(out@ =~= old(out)@ + properties_bytes(*props));
    }
}

fn decode_stroke_properties_at(bytes: &[u8], cursor: usize) -> (found: Option<(StrokeProperties, usize)>)
    requires
        cursor <= bytes@.len(),
    ensures
        wire::reads(found, read_properties(bytes@.skip(cursor as int)), bytes@, cursor),
{
    proof {
        reveal(read_properties);
    }
    let (t1, c): (OpId, usize) = decode_op_id_at(bytes, cursor)?;
    let (color, c): (u32, usize) = decode_u32_at(bytes, c)?;
    let (t2, c): (OpId, usize) = decode_op_id_at(bytes, c)?;
    let (width, c): (F32, usize) = decode_f32_at(bytes, c)?;
    let (t3, c): (OpId, usize) = decode_op_id_at(bytes, c)?;
    let (opacity, c): (F32, usize) = decode_f32_at(bytes, c)?;
    let (t4, c): (OpId, usize) = decode_op_id_at(bytes, c)?;
    let (transform, c): (Transform2D, usize) = decode_transform_at(bytes, c)?;
    Some(
        (
            StrokeProperties {
                color: LwwRegister::new(color, t1),
                stroke_width: LwwRegister::new(width, t2),
                opacity: LwwRegister::new(opacity, t3),
                transform: LwwRegister::new(transform, t4),
            },
            c,
        ),
    )
}

fn encode_metadata_key(key: &MetadataKey, out: &mut Vec<u8>)
    ensures
        final(out)@ == old(out)@ + key_bytes(key@),
{
    match key {
        MetadataKey::ViewportX => out.push(0),
        MetadataKey::ViewportY => out.push(1),
        MetadataKey::ViewportZoom => out.push(2),
        MetadataKey::BackgroundColor => out.push(3),
        MetadataKey::GridEnabled => out.push(4),
        MetadataKey::GridSpacing => out.push(5),
        MetadataKey::Custom(name) => {
            out.push(255);
            wire::encode_string(name.as_str(), out);
        },
    }
    proof {
        assert(out@ =~= old(out)@ + key_bytes(key@));
    }
}

fn decode_metadata_key_at(bytes: &[u8], cursor: usize) -> (found: Option<(MetadataKey, usize)>)
    requires
        cursor <= bytes@.len(),
    ensures
        wire::reads_view(found, read_key(bytes@.skip(cursor as int)), bytes@, cursor),
{
    if cursor >= bytes.len() {
        return None;
    }
    let next: usize = cursor + 1;
    proof {
        assert(bytes@.skip(cursor as int).skip(1) =~= bytes@.skip(cursor + 1));
    }
    match bytes[cursor] {
        0 => Some((MetadataKey::ViewportX, next)),
        1 => Some((MetadataKey::ViewportY, next)),
        2 => Some((MetadataKey::ViewportZoom, next)),
        3 => Some((MetadataKey::BackgroundColor, next)),
        4 => Some((MetadataKey::GridEnabled, next)),
        5 => Some((MetadataKey::GridSpacing, next)),
        255 => {
            let (name, c): (String, usize) = wire::decode_string_at(bytes, next)?;
            Some((MetadataKey::Custom(name), c))
        },
        _ => None,
    }
}

fn encode_metadata_value(value: &MetadataValue, out: &mut Vec<u8>)
    ensures
        final(out)@ == old(out)@ + value_bytes(value@),
{
    match value {
        MetadataValue::F64(v) => {
            out.push(0);
            wire::encode_u64(v.bits, out);
        },
        MetadataValue::Bool(v) => {
            out.push(1);
            out.push(if *v { 1 } else { 0 });
        },
        MetadataValue::U32(v) => {
            out.push(2);
            wire::encode_u32(*v, out);
        },
        MetadataValue::String(v) => {
            out.push(3);
            wire::encode_string(v.as_str(), out);
        },
    }
    proof {
        assert(out@ =~= old(out)@ + value_bytes(value@));
    }
}

fn decode_metadata_value_at(bytes: &[u8], cursor: usize) -> (found: Option<(MetadataValue, usize)>)
    requires
        cursor <= bytes@.len(),
    ensures
        wire::reads_view(found, read_value(bytes@.skip(cursor as int)), bytes@, cursor),
{
    if cursor >= bytes.len() {
        return None;
    }
    let next: usize = cursor + 1;
    proof {
        assert(bytes@.skip(cursor as int).skip(1) =~= bytes@.skip(cursor + 1));
    }
    match bytes[cursor] {
        0 => {
            let (bits, c): (u64, usize) = wire::decode_u64_at(bytes, next)?;
            Some((MetadataValue::F64(F64 { bits }), c))
        },
        1 => {
            if next >= bytes.len() {
                return None;
            }
            proof {
                assert(bytes@.skip(cursor as int).skip(2) =~= bytes@.skip(cursor + 2));
            }
            Some((MetadataValue::Bool(bytes[next] != 0), next + 1))
        },
        2 => {
            let (v, c): (u32, usize) = decode_u32_at(bytes, next)?;
            Some((MetadataValue::U32(v), c))
        },
        3 => {
            let (v, c): (String, usize) = wire::decode_string_at(bytes, next)?;
            Some((MetadataValue::String(v), c))
        },
        _ => None,
    }
}

fn encode_property_update(update: &PropertyUpdate, out: &mut Vec<u8>)
    ensures
        final(out)@ == old(out)@ + update_bytes(*update),
{
    match update {
        PropertyUpdate::Color(v) => {
            out.push(0);
            wire::encode_u32(*v, out);
        },
        PropertyUpdate::StrokeWidth(v) => {
            out.push(1);
            encode_f32(*v, out);
        },
        PropertyUpdate::Opacity(v) => {
            out.push(2);
            encode_f32(*v, out);
        },
        PropertyUpdate::Transform(v) => {
            out.push(3);
            encode_transform(v, out);
        },
    }
    proof {
        assert(out@ =~= old(out)@ + update_bytes(*update));
    }
}

fn decode_property_update_at(bytes: &[u8], cursor: usize) -> (found: Option<(PropertyUpdate, usize)>)
    requires
        cursor <= bytes@.len(),
    ensures
        wire::reads(found, read_update(bytes@.skip(cursor as int)), bytes@, cursor),
{
    if cursor >= bytes.len() {
        return None;
    }
    let next: usize = cursor + 1;
    proof {
        assert(bytes@.skip(cursor as int).skip(1) =~= bytes@.skip(cursor + 1));
    }
    match bytes[cursor] {
        0 => {
            let (v, c): (u32, usize) = decode_u32_at(bytes, next)?;
            Some((PropertyUpdate::Color(v), c))
        },
        1 => {
            let (v, c): (F32, usize) = decode_f32_at(bytes, next)?;
            Some((PropertyUpdate::StrokeWidth(v), c))
        },
        2 => {
            let (v, c): (F32, usize) = decode_f32_at(bytes, next)?;
            Some((PropertyUpdate::Opacity(v), c))
        },
        3 => {
            let (v, c): (Transform2D, usize) = decode_transform_at(bytes, next)?;
            Some((PropertyUpdate::Transform(v), c))
        },
        _ => None,
    }
}

fn encode_operation(op: &Operation, out: &mut Vec<u8>)
    ensures
        final(out)@ == old(out)@ + operation_bytes(op@),
{
    match op {
        Operation::InsertStroke { id, origin_left, origin_right, data, properties } => {
            out.push(1);
            encode_op_id_into(id, out);
            encode_op_id_into(origin_left, out);
            encode_op_id_into(origin_right, out);
            encode_stroke_data(data, out);
            encode_stroke_properties(properties, out);
        },
        Operation::DeleteStroke { id, target } => {
            out.push(2);
            encode_op_id_into(id, out);
            encode_op_id_into(target, out);
        },
        Operation::UpdateProperty { id, target, update } => {
            out.push(3);
            encode_op_id_into(id, out);
            encode_op_id_into(target, out);
            encode_property_update(update, out);
        },
        Operation::UpdateMetadata { id, key, value } => {
            out.push(4);
            encode_op_id_into(id, out);
            encode_metadata_key(key, out);
            match value {
                Some(v) => {
                    out.push(1);
                    encode_metadata_value(v, out);
                },
                None => out.push(0),
            }
        },
    }
    proof {
        assert(out@ =~= old(out)@ + operation_bytes(op@));
    }
}

fn decode_optional_value_at(bytes: &[u8], cursor: usize) -> (found: Option<(Option<MetadataValue>, usize)>)
    requires
        cursor <= bytes@.len(),
    ensures
        match read_optional_value(bytes@.skip(cursor as int)) {
            Some((v, rest)) => {
                &&& found matches Some((value, next))
                &&& metadata::option_view(value) == v
                &&& cursor < next <= bytes@.len()
                &&& bytes@.skip(next as int) == rest
            },
            None => found is None,
        },
{
    if cursor >= bytes.len() {
        return None;
    }
    proof {
        assert(bytes@.skip(cursor as int).skip(1) =~= bytes@.skip(cursor + 1));
    }
    if bytes[cursor] == 0 {
        return Some((None, cursor + 1));
    }
    let (v, c): (MetadataValue, usize) = decode_metadata_value_at(bytes, cursor + 1)?;
    Some((Some(v), c))
}

fn decode_insert_at(bytes: &[u8], cursor: usize) -> (found: Option<(Operation, usize)>)
    requires
        cursor <= bytes@.len(),
    ensures
        wire::reads_view(found, read_insert(bytes@.skip(cursor as int)), bytes@, cursor),
{
    proof {
        reveal(read_insert);
    }
    let (id, c): (OpId, usize) = decode_op_id_at(bytes, cursor)?;
    let (origin_left, c): (OpId, usize) = decode_op_id_at(bytes, c)?;
    let (origin_right, c): (OpId, usize) = decode_op_id_at(bytes, c)?;
    let (data, c): (StrokeData, usize) = decode_stroke_data_at(bytes, c)?;
    let (properties, c): (StrokeProperties, usize) = decode_stroke_properties_at(bytes, c)?;
    Some((Operation::InsertStroke { id, origin_left, origin_right, data, properties }, c))
}

fn decode_delete_at(bytes: &[u8], cursor: usize) -> (found: Option<(Operation, usize)>)
    requires
        cursor <= bytes@.len(),
    ensures
        wire::reads_view(found, read_delete(bytes@.skip(cursor as int)), bytes@, cursor),
{
    proof {
        reveal(read_delete);
    }
    let (id, c): (OpId, usize) = decode_op_id_at(bytes, cursor)?;
    let (target, c): (OpId, usize) = decode_op_id_at(bytes, c)?;
    Some((Operation::DeleteStroke { id, target }, c))
}

fn decode_property_change_at(bytes: &[u8], cursor: usize) -> (found: Option<(Operation, usize)>)
    requires
        cursor <= bytes@.len(),
    ensures
        wire::reads_view(found, read_property_change(bytes@.skip(cursor as int)), bytes@, cursor),
{
    proof {
        reveal(read_property_change);
    }
    let (id, c): (OpId, usize) = decode_op_id_at(bytes, cursor)?;
    let (target, c): (OpId, usize) = decode_op_id_at(bytes, c)?;
    let (update, c): (PropertyUpdate, usize) = decode_property_update_at(bytes, c)?;
    Some((Operation::UpdateProperty { id, target, update }, c))
}

fn decode_metadata_change_at(bytes: &[u8], cursor: usize) -> (found: Option<(Operation, usize)>)
    requires
        cursor <= bytes@.len(),
    ensures
        wire::reads_view(found, read_metadata_change(bytes@.skip(cursor as int)), bytes@, cursor),
{
    proof {
        reveal(read_metadata_change);
    }
    let (id, c): (OpId, usize) = decode_op_id_at(bytes, cursor)?;
    let (key, c): (MetadataKey, usize) = decode_metadata_key_at(bytes, c)?;
    let (value, c): (Option<MetadataValue>, usize) = decode_optional_value_at(bytes, c)?;
    Some((Operation::UpdateMetadata { id, key, value }, c))
}

fn decode_operation_at(bytes: &[u8], cursor: usize) -> (found: Option<(Operation, usize)>)
    requires
        cursor <= bytes@.len(),
    ensures
        wire::reads_view(found, read_operation(bytes@.skip(cursor as int)), bytes@, cursor),
{
    if cursor >= bytes.len() {
        return None;
    }
    proof {
        assert(bytes@.skip(cursor as int).skip(1) =~= bytes@.skip(cursor + 1));
    }
    match bytes[cursor] {
        1 => decode_insert_at(bytes, cursor + 1),
        2 => decode_delete_at(bytes, cursor + 1),
        3 => decode_property_change_at(bytes, cursor + 1),
        4 => decode_metadata_change_at(bytes, cursor + 1),
        _ => None,
    }
}

/// Encodes a batch of operations.
pub fn encode_update(ops: &[Operation]) -> (out: Vec<u8>)
    ensures
        out@ == update_blob(operation::views(ops@)),
{
    let ghost all = operation::views(ops@);
    let mut out: Vec<u8> = Vec::new();
    wire::encode_varint(ops.len() as u64, &mut out);
    let ghost head = out@;
    let mut i: usize = 0;
    proof {
        assert(all.skip(0) =~= all);
    }
    while i < ops.len()
        invariant
            i <= ops@.len(),
            all == operation::views(ops@),
            out@ + operations_bytes(all.skip(i as int)) == head + operations_bytes(all),
        decreases ops@.len() - i,
    {
        let ghost before = out@;
        encode_operation(&ops[i], &mut out);
        proof {
            assert(all.skip(i as int).drop_first() =~= all.skip(i + 1));
            assert(all.skip(i as int)[0] == ops@[i as int]@);
            assert(before + operations_bytes(all.skip(i as int)) =~= out@ + operations_bytes(all.skip(i + 1)));
        }
        i += 1;
    }
    proof {
        assert(out@ =~= out@ + operations_bytes(all.skip(all.len() as int)));
        assert(head =~= wire::varint(all.len()));
    }
    out
}

fn malformed_text(which: u64, count: u64, at: usize) -> (message: String)
    ensures
        message@ == malformed(which as nat, count as nat, at as nat),
{
    let mut message = String::new();
    message.append("malformed operation ");
    text::push_decimal(&mut message, which);
    message.append(" of ");
    text::push_decimal(&mut message, count);
    message.append(" at byte ");
    text::push_decimal(&mut message, at as u64);
    proof {
        assert(message@ =~= malformed(which as nat, count as nat, at as nat));
    }
    message
}

/// A result agrees with what it should be, seen through views.
pub open spec fn same_ops(result: VectisResult<Vec<Operation>>, expected: Result<Seq<OperationView>, VectisErrorView>) -> bool {
    match expected {
        Ok(ops) => result matches Ok(list) && operation::views(list@) == ops,
        Err(e) => result matches Err(x) && x@ == e,
    }
}

/// Decodes a batch of operations.
///
/// Fails where the bytes are truncated or malformed, where a stroke has more
/// than [`document::MAX_POINTS_PER_STROKE`] points, and where there are more
/// than [`document::MAX_STROKES`] operations.
pub fn decode_update(bytes: &[u8]) -> (result: VectisResult<Vec<Operation>>)
    ensures
        same_ops(result, parse_update(bytes@)),
{
    proof {
        assert(bytes@.skip(0) =~= bytes@);
    }
    let (count, start): (u64, usize) = match wire::decode_varint_at(bytes, 0) {
        Some(found) => found,
        None => {
            return Err(VectisError::DecodingError("empty or truncated update".to_string()));
        },
    };
    if count > document::MAX_STROKES as u64 {
        return Err(
            VectisError::LimitExceeded {
                what: "ops_per_update",
                limit: document::MAX_STROKES,
                actual: count as usize,
            },
        );
    }
    let ghost expected = parse_update(bytes@);
    let mut ops: Vec<Operation> = Vec::new();
    let mut at: usize = start;
    let mut done: u64 = 0;
    proof {
        assert(operation::views(ops@) =~= seq![]);
    }
    while done < count
        invariant
            at <= bytes@.len(),
            done <= count,
            ops@.len() == done,
            expected == parse_update(bytes@),
            parse_operations(
                operation::views(ops@),
                bytes@.skip(at as int),
                (count - done) as nat,
                count as nat,
                bytes@.len(),
            ) == expected,
        decreases count - done,
    {
        match decode_operation_at(bytes, at) {
            Some((op, next)) => {
                proof {
                    assert(operation::views(ops@.push(op)) =~= operation::views(ops@).push(op@));
                }
                ops.push(op);
                at = next;
            },
            None => {
                return Err(VectisError::DecodingError(malformed_text(done + 1, count, at)));
            },
        }
        done = done + 1;
    }
    Ok(ops)
}

pub open spec fn pairs_bytes(pairs: Seq<(ActorId, u64)>) -> Seq<u8>
    decreases pairs.len(),
{
    if pairs.len() == 0 {
        seq![]
    } else {
        wire::varint(pairs[0].0.0 as nat) + wire::varint(pairs[0].1 as nat) + pairs_bytes(pairs.drop_first())
    }
}

/// The bytes of a state vector: the number of entries, then the entries in
/// actor order.
pub open spec fn state_vector(m: Map<u64, u64>) -> Seq<u8> {
    wire::varint(types::entries(m).len()) + pairs_bytes(types::entries(m))
}

/// At most `n` entries at the head of `s`, added to a clock. Reading stops at
/// the first entry that is truncated.
pub open spec fn read_entries(m: Map<u64, u64>, s: Seq<u8>, n: nat) -> Map<u64, u64>
    decreases n,
{
    if n == 0 {
        m
    } else {
        match wire::read_varint(s) {
            Some((actor, s)) => match wire::read_varint(s) {
                Some((ts, s)) => read_entries(types::advanced(m, actor, ts), s, (n - 1) as nat),
                None => m,
            },
            None => m,
        }
    }
}

/// What a state vector says. Entries beyond [`document::MAX_ACTORS`] are not
/// read.
pub open spec fn parse_state_vector(s: Seq<u8>) -> Map<u64, u64> {
    match wire::read_varint(s) {
        Some((count, rest)) => read_entries(
            Map::empty(),
            rest,
            if count < document::MAX_ACTORS {
                count as nat
            } else {
                document::MAX_ACTORS as nat
            },
        ),
        None => Map::empty(),
    }
}

/// Encodes a vector clock, as a peer sends it to ask for what it lacks.
pub fn encode_state_vector(vc: &VectorClock) -> (out: Vec<u8>)
    ensures
        out@ == state_vector(vc@),
{
    let list = vc.iter();
    let ghost all = list@;
    let mut out: Vec<u8> = Vec::new();
    wire::encode_varint(list.len() as u64, &mut out);
    let ghost head = out@;
    let mut i: usize = 0;
    proof {
        assert(all.skip(0) =~= all);
    }
    while i < list.len()
        invariant
            i <= list@.len(),
            all == list@,
            out@ + pairs_bytes(all.skip(i as int)) == head + pairs_bytes(all),
        decreases list@.len() - i,
    {
        let ghost before = out@;
        wire::encode_varint(list[i].0.0, &mut out);
        wire::encode_varint(list[i].1, &mut out);
        proof {
            assert(all.skip(i as int).drop_first() =~= all.skip(i + 1));
            assert(all.skip(i as int)[0] == all[i as int]);
            assert(before + pairs_bytes(all.skip(i as int)) =~= out@ + pairs_bytes(all.skip(i + 1)));
        }
        i += 1;
    }
    proof {
        assert(out@ =~= out@ + pairs_bytes(all.skip(all.len() as int)));
        assert(head =~= wire::varint(all.len()));
    }
    out
}

/// Decodes a vector clock. What is truncated or beyond the limit is left out.
pub fn decode_vector_clock(bytes: &[u8]) -> (vc: VectorClock)
    ensures
        vc@ == parse_state_vector(bytes@),
{
    proof {
        assert(bytes@.skip(0) =~= bytes@);
    }
    let mut vc = VectorClock::new();
    let (count, start): (u64, usize) = match wire::decode_varint_at(bytes, 0) {
        Some(found) => found,
        None => {
            return vc;
        },
    };
    let ghost expected = parse_state_vector(bytes@);
    let mut left: u64 = if count < document::MAX_ACTORS as u64 {
        count
    } else {
        document::MAX_ACTORS as u64
    };
    let mut at: usize = start;
    while left > 0
        invariant
            at <= bytes@.len(),
            expected == parse_state_vector(bytes@),
            read_entries(vc@, bytes@.skip(at as int), left as nat) == expected,
        decreases left,
    {
        match wire::decode_varint_at(bytes, at) {
            Some((actor, next)) => {
                match wire::decode_varint_at(bytes, next) {
                    Some((ts, after)) => {
                        vc.advance(ActorId(actor), ts);
                        at = after;
                    },
                    None => {
                        return vc;
                    },
                }
            },
            None => {
                return vc;
            },
        }
        left = left - 1;
    }
    vc
}

/// The fixed form of an identifier: sixteen bytes.
pub open spec fn fixed_id(id: OpId) -> Seq<u8> {
    wire::le(id.lamport.0 as nat, 8) + wire::le(id.actor.0 as nat, 8)
}

/// The identifier in the first sixteen bytes; zero where there are fewer.
pub open spec fn parse_fixed_id(s: Seq<u8>) -> OpId {
    if s.len() < 16 {
        OpId::zero()
    } else {
        OpId {
            lamport: LamportTs(wire::le_value(s.take(8)) as u64),
            actor: ActorId(wire::le_value(s.skip(8).take(8)) as u64),
        }
    }
}

/// The fixed forms of identifiers, one after another.
pub open spec fn fixed_ids(ids: Seq<OpId>) -> Seq<u8>
    decreases ids.len(),
{
    if ids.len() == 0 {
        seq![]
    } else {
        fixed_ids(ids.drop_last()) + fixed_id(ids.last())
    }
}

/// Encodes an identifier in its fixed form.
pub fn encode_op_id(id: &OpId) -> (out: Vec<u8>)
    ensures
        out@ == fixed_id(*id),
{
    let mut out: Vec<u8> = Vec::new();
    wire::encode_u64(id.lamport.0, &mut out);
    wire::encode_u64(id.actor.0, &mut out);
    proof {
        assert(out@ =~= fixed_id(*id));
    }
    out
}

/// Decodes an identifier from its fixed form.
pub fn decode_op_id(bytes: &[u8]) -> (id: OpId)
    ensures
        id == parse_fixed_id(bytes@),
{
    if bytes.len() < 16 {
        return OpId::zero();
    }
    proof {
        assert(bytes@.skip(0) =~= bytes@);
    }
    match (wire::decode_u64_at(bytes, 0), wire::decode_u64_at(bytes, 8)) {
        (Some((lamport, _)), Some((actor, _))) => OpId { lamport: LamportTs(lamport), actor: ActorId(actor) },
        _ => OpId::zero(),
    }
}

/// Encodes a list of stroke identifiers, sixteen bytes each.
pub fn encode_stroke_ids(ids: &[StrokeId]) -> (out: Vec<u8>)
    ensures
        out@ == fixed_ids(ids@),
{
    let mut out: Vec<u8> = Vec::new();
    let mut i: usize = 0;
    while i < ids.len()
        invariant
            i <= ids@.len(),
            out@ == fixed_ids(ids@.take(i as int)),
        decreases ids@.len() - i,
    {
        proof {
            assert(ids@.take(i + 1).drop_last() =~= ids@.take(i as int));
        }
        let part = encode_op_id(&ids[i]);
        wire::put_bytes(part.as_slice(), &mut out);
        i += 1;
    }
    proof {
        assert(ids@.take(ids@.len() as int) =~= ids@);
    }
    out
}

} // verus!
