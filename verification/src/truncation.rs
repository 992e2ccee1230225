//! What is cut short is refused, and so is a frame with something behind it.
//!
//! A reader looks at no more bytes than it takes: where it finds a value, it
//! finds the same value whatever follows.

use crate::document;
use crate::document::DocumentView;
use crate::encoding;
use crate::metadata::{MetadataKeyView, MetadataValueView};
use crate::operation::OperationView;
use crate::protocol;
use crate::protocol::{MessageView, ProtocolError};
use crate::round_trip;
use crate::snapshot;
use crate::stroke::{LwwRegister, StrokePoint};
use crate::types::ActorId;
use crate::wire;
use vstd::prelude::*;

verus! {

/// Where a value was found, it is found with `tail` behind the bytes too, and
/// the tail is left.
spec fn extends<T>(found: Option<(T, Seq<u8>)>, longer: Option<(T, Seq<u8>)>, tail: Seq<u8>) -> bool {
    found matches Some((v, rest)) ==> longer == Some((v, rest + tail))
}

/// As [`extends`]; an error other than that of missing bytes stays as well.
spec fn persists<T>(
    found: Result<(T, Seq<u8>), ProtocolError>,
    longer: Result<(T, Seq<u8>), ProtocolError>,
    tail: Seq<u8>,
) -> bool {
    match found {
        Ok((v, rest)) => longer == Ok::<(T, Seq<u8>), ProtocolError>((v, rest + tail)),
        Err(e) => e == ProtocolError::Truncated || longer == Err::<(T, Seq<u8>), ProtocolError>(e),
    }
}

proof fn lemma_split(s: Seq<u8>, n: int, t: Seq<u8>)
    requires
        0 <= n <= s.len(),
    ensures
        (s + t).take(n) == s.take(n),
        (s + t).skip(n) == s.skip(n) + t,
{
    assert((s + t).take(n) =~= s.take(n));
    assert((s + t).skip(n) =~= s.skip(n) + t);
}

proof fn lemma_le(s: Seq<u8>, width: nat, t: Seq<u8>)
    ensures
        extends(wire::read_le(s, width), wire::read_le(s + t, width), t),
{
    if s.len() >= width {
        lemma_split(s, width as int, t);
    }
}

proof fn lemma_continued(s: Seq<u8>, t: Seq<u8>)
    requires
        wire::continued(s) < s.len(),
    ensures
        wire::continued(s + t) == wire::continued(s),
    decreases s.len(),
{
    if s[0] >= 128 {
        lemma_continued(s.drop_first(), t);
        assert((s + t).drop_first() =~= s.drop_first() + t);
    }
}

proof fn lemma_varint(s: Seq<u8>, t: Seq<u8>)
    ensures
        extends(wire::read_varint(s), wire::read_varint(s + t), t),
{
    if wire::continued(s) < s.len() {
        lemma_continued(s, t);
        lemma_split(s, wire::continued(s) as int + 1, t);
    }
}

proof fn lemma_prefixed(s: Seq<u8>, t: Seq<u8>)
    ensures
        extends(wire::read_prefixed(s), wire::read_prefixed(s + t), t),
{
    lemma_varint(s, t);
    match wire::read_varint(s) {
        Some((len, rest)) => {
            if len <= rest.len() {
                lemma_split(rest, len as int, t);
            }
        },
        None => {},
    }
}

proof fn lemma_text(s: Seq<u8>, t: Seq<u8>)
    ensures
        extends(wire::read_text(s), wire::read_text(s + t), t),
{
    lemma_prefixed(s, t);
}

proof fn lemma_blob(s: Seq<u8>, t: Seq<u8>)
    ensures
        persists(protocol::read_blob(s), protocol::read_blob(s + t), t),
{
    lemma_prefixed(s, t);
}

proof fn lemma_string(s: Seq<u8>, t: Seq<u8>)
    ensures
        persists(protocol::read_string(s), protocol::read_string(s + t), t),
{
    lemma_blob(s, t);
}

proof fn lemma_hello(s: Seq<u8>, t: Seq<u8>)
    ensures
        persists(protocol::read_hello(s), protocol::read_hello(s + t), t),
{
    lemma_string(s, t);
    if let Ok((_, r)) = protocol::read_string(s) {
        lemma_string(r, t);
        if let Ok((_, r)) = protocol::read_string(r) {
            lemma_blob(r, t);
        }
    }
}

proof fn lemma_welcome(s: Seq<u8>, t: Seq<u8>)
    ensures
        persists(protocol::read_welcome(s), protocol::read_welcome(s + t), t),
{
    lemma_varint(s, t);
    if let Some((_, r)) = wire::read_varint(s) {
        lemma_le(r, 4, t);
        if let Some((_, r)) = wire::read_le(r, 4) {
            lemma_string(r, t);
        }
    }
}

proof fn lemma_fields(tag: u8, s: Seq<u8>, t: Seq<u8>)
    ensures
        persists(protocol::read_fields(tag, s), protocol::read_fields(tag, s + t), t),
{
    lemma_hello(s, t);
    lemma_welcome(s, t);
    lemma_string(s, t);
    lemma_blob(s, t);
}

/// A frame that breaks off is refused: as empty where nothing is left of it,
/// and as truncated otherwise.
pub proof fn law_cut_frames_are_refused(m: MessageView, n: int)
    requires
        protocol::fits(m),
        0 <= n < protocol::frame_bytes(m).len(),
    ensures
        protocol::parse_message(protocol::frame_bytes(m).take(n)) == Err::<MessageView, ProtocolError>(
            if n == 0 {
                ProtocolError::Empty
            } else {
                ProtocolError::Truncated
            },
        ),
{
    let f = protocol::frame_bytes(m);
    let p = f.take(n);
    let t = f.skip(n);
    protocol::law_message_round_trip(m);
    assert(f[0] == protocol::PROTOCOL_VERSION);
    if n >= 2 {
        assert(p.skip(2) + t =~= f.skip(2));
        lemma_fields(f[1], p.skip(2), t);
        if let Ok((_, rest)) = protocol::read_fields(f[1], p.skip(2)) {
            assert((rest + t).len() > 0);
        }
    }
}

/// A frame with bytes behind it is refused.
pub proof fn law_trailing_bytes_are_refused(m: MessageView, t: Seq<u8>)
    requires
        protocol::fits(m),
        t.len() > 0,
    ensures
        protocol::parse_message(protocol::frame_bytes(m) + t) == Err::<MessageView, ProtocolError>(
            ProtocolError::TrailingBytes,
        ),
{
    let f = protocol::frame_bytes(m);
    protocol::law_message_round_trip(m);
    assert(f.len() >= 2);
    assert((f + t).skip(2) =~= f.skip(2) + t);
    lemma_fields(f[1], f.skip(2), t);
}

proof fn lemma_op_id(s: Seq<u8>, t: Seq<u8>)
    ensures
        extends(encoding::read_op_id(s), encoding::read_op_id(s + t), t),
{
    lemma_varint(s, t);
    if let Some((_, r)) = wire::read_varint(s) {
        lemma_varint(r, t);
    }
}

proof fn lemma_u32(s: Seq<u8>, t: Seq<u8>)
    ensures
        extends(encoding::read_u32(s), encoding::read_u32(s + t), t),
{
    lemma_le(s, 4, t);
}

proof fn lemma_f32(s: Seq<u8>, t: Seq<u8>)
    ensures
        extends(encoding::read_f32(s), encoding::read_f32(s + t), t),
{
    lemma_le(s, 4, t);
}

proof fn lemma_transform(s: Seq<u8>, t: Seq<u8>)
    ensures
        extends(encoding::read_transform(s), encoding::read_transform(s + t), t),
{
    lemma_f32(s, t);
    if let Some((_, r)) = encoding::read_f32(s) {
        lemma_f32(r, t);
        if let Some((_, r)) = encoding::read_f32(r) {
            lemma_f32(r, t);
            if let Some((_, r)) = encoding::read_f32(r) {
                lemma_f32(r, t);
                if let Some((_, r)) = encoding::read_f32(r) {
                    lemma_f32(r, t);
                    if let Some((_, r)) = encoding::read_f32(r) {
                        lemma_f32(r, t);
                    }
                }
            }
        }
    }
}

proof fn lemma_point(s: Seq<u8>, t: Seq<u8>)
    ensures
        extends(encoding::read_point(s), encoding::read_point(s + t), t),
{
    lemma_f32(s, t);
    if let Some((_, r)) = encoding::read_f32(s) {
        lemma_f32(r, t);
        if let Some((_, r)) = encoding::read_f32(r) {
            lemma_f32(r, t);
        }
    }
}

proof fn lemma_points(read: Seq<StrokePoint>, s: Seq<u8>, n: nat, t: Seq<u8>)
    ensures
        extends(encoding::read_points(read, s, n), encoding::read_points(read, s + t, n), t),
    decreases n,
{
    if n > 0 {
        lemma_point(s, t);
        if let Some((p, r)) = encoding::read_point(s) {
            lemma_points(read.push(p), r, (n - 1) as nat, t);
        }
    }
}

proof fn lemma_stroke_data(s: Seq<u8>, t: Seq<u8>)
    ensures
        extends(encoding::read_stroke_data(s), encoding::read_stroke_data(s + t), t),
{
    reveal(encoding::read_stroke_data);
    if s.len() > 0 {
        lemma_split(s, 1, t);
        lemma_varint(s.skip(1), t);
        if let Some((n, r)) = wire::read_varint(s.skip(1)) {
            lemma_points(seq![], r, n as nat, t);
        }
    }
}

proof fn lemma_properties(s: Seq<u8>, t: Seq<u8>)
    ensures
        extends(encoding::read_properties(s), encoding::read_properties(s + t), t),
{
    reveal(encoding::read_properties);
    lemma_op_id(s, t);
    if let Some((_, r)) = encoding::read_op_id(s) {
        lemma_u32(r, t);
        if let Some((_, r)) = encoding::read_u32(r) {
            lemma_op_id(r, t);
            if let Some((_, r)) = encoding::read_op_id(r) {
                lemma_f32(r, t);
                if let Some((_, r)) = encoding::read_f32(r) {
                    lemma_op_id(r, t);
                    if let Some((_, r)) = encoding::read_op_id(r) {
                        lemma_f32(r, t);
                        if let Some((_, r)) = encoding::read_f32(r) {
                            lemma_op_id(r, t);
                            if let Some((_, r)) = encoding::read_op_id(r) {
                                lemma_transform(r, t);
                            }
                        }
                    }
                }
            }
        }
    }
}

proof fn lemma_key(s: Seq<u8>, t: Seq<u8>)
    ensures
        extends(encoding::read_key(s), encoding::read_key(s + t), t),
{
    if s.len() > 0 {
        lemma_split(s, 1, t);
        lemma_text(s.skip(1), t);
    }
}

proof fn lemma_value(s: Seq<u8>, t: Seq<u8>)
    ensures
        extends(encoding::read_value(s), encoding::read_value(s + t), t),
{
    if s.len() > 0 {
        lemma_split(s, 1, t);
        lemma_le(s.skip(1), 8, t);
        lemma_u32(s.skip(1), t);
        lemma_text(s.skip(1), t);
    }
    if s.len() > 1 {
        lemma_split(s, 2, t);
    }
}

proof fn lemma_update(s: Seq<u8>, t: Seq<u8>)
    ensures
        extends(encoding::read_update(s), encoding::read_update(s + t), t),
{
    if s.len() > 0 {
        lemma_split(s, 1, t);
        lemma_u32(s.skip(1), t);
        lemma_f32(s.skip(1), t);
        lemma_transform(s.skip(1), t);
    }
}

proof fn lemma_optional_value(s: Seq<u8>, t: Seq<u8>)
    ensures
        extends(encoding::read_optional_value(s), encoding::read_optional_value(s + t), t),
{
    if s.len() > 0 {
        lemma_split(s, 1, t);
        lemma_value(s.skip(1), t);
    }
}

proof fn lemma_insert(s: Seq<u8>, t: Seq<u8>)
    ensures
        extends(encoding::read_insert(s), encoding::read_insert(s + t), t),
{
    reveal(encoding::read_insert);
    lemma_op_id(s, t);
    if let Some((_, r)) = encoding::read_op_id(s) {
        lemma_op_id(r, t);
        if let Some((_, r)) = encoding::read_op_id(r) {
            lemma_op_id(r, t);
            if let Some((_, r)) = encoding::read_op_id(r) {
                lemma_stroke_data(r, t);
                if let Some((_, r)) = encoding::read_stroke_data(r) {
                    lemma_properties(r, t);
                }
            }
        }
    }
}

proof fn lemma_delete(s: Seq<u8>, t: Seq<u8>)
    ensures
        extends(encoding::read_delete(s), encoding::read_delete(s + t), t),
{
    reveal(encoding::read_delete);
    lemma_op_id(s, t);
    if let Some((_, r)) = encoding::read_op_id(s) {
        lemma_op_id(r, t);
    }
}

proof fn lemma_property_change(s: Seq<u8>, t: Seq<u8>)
    ensures
        extends(encoding::read_property_change(s), encoding::read_property_change(s + t), t),
{
    reveal(encoding::read_property_change);
    lemma_op_id(s, t);
    if let Some((_, r)) = encoding::read_op_id(s) {
        lemma_op_id(r, t);
        if let Some((_, r)) = encoding::read_op_id(r) {
            lemma_update(r, t);
        }
    }
}

proof fn lemma_metadata_change(s: Seq<u8>, t: Seq<u8>)
    ensures
        extends(encoding::read_metadata_change(s), encoding::read_metadata_change(s + t), t),
{
    reveal(encoding::read_metadata_change);
    lemma_op_id(s, t);
    if let Some((_, r)) = encoding::read_op_id(s) {
        lemma_key(r, t);
        if let Some((_, r)) = encoding::read_key(r) {
            lemma_optional_value(r, t);
        }
    }
}

proof fn lemma_operation(s: Seq<u8>, t: Seq<u8>)
    ensures
        extends(encoding::read_operation(s), encoding::read_operation(s + t), t),
{
    if s.len() > 0 {
        lemma_split(s, 1, t);
        lemma_insert(s.skip(1), t);
        lemma_delete(s.skip(1), t);
        lemma_property_change(s.skip(1), t);
        lemma_metadata_change(s.skip(1), t);
    }
}

/// What follows `n` operations, where there are so many.
spec fn behind(s: Seq<u8>, n: nat) -> Option<Seq<u8>>
    decreases n,
{
    if n == 0 {
        Some(s)
    } else {
        match encoding::read_operation(s) {
            Some((_, rest)) => behind(rest, (n - 1) as nat),
            None => None,
        }
    }
}

/// Operations are found where something follows them.
proof fn lemma_found(read: Seq<OperationView>, s: Seq<u8>, n: nat, count: nat, total: nat)
    ensures
        encoding::parse_operations(read, s, n, count, total) is Ok <==> behind(s, n) is Some,
    decreases n,
{
    if n > 0 {
        if let Some((op, rest)) = encoding::read_operation(s) {
            lemma_found(read.push(op), rest, (n - 1) as nat, count, total);
        }
    }
}

proof fn lemma_behind_longer(s: Seq<u8>, n: nat, t: Seq<u8>)
    ensures
        behind(s, n) matches Some(rest) ==> behind(s + t, n) == Some(rest + t),
    decreases n,
{
    if n > 0 {
        lemma_operation(s, t);
        if let Some((_, rest)) = encoding::read_operation(s) {
            lemma_behind_longer(rest, (n - 1) as nat, t);
        }
    }
}

/// Operations take up all of their bytes.
proof fn lemma_behind_all(ops: Seq<OperationView>)
    requires
        forall|i: int| 0 <= i < ops.len() ==> round_trip::sendable_op(#[trigger] ops[i]),
    ensures
        behind(encoding::operations_bytes(ops), ops.len()) == Some(Seq::<u8>::empty()),
    decreases ops.len(),
{
    if ops.len() > 0 {
        let tail = ops.drop_first();
        assert forall|i: int| 0 <= i < tail.len() implies round_trip::sendable_op(#[trigger] tail[i]) by {
            assert(tail[i] == ops[i + 1]);
        }
        lemma_behind_all(tail);
        round_trip::law_operation_round_trip(ops[0], encoding::operations_bytes(tail));
    }
}

/// An update that breaks off is refused.
pub proof fn law_cut_updates_are_refused(ops: Seq<OperationView>, n: int)
    requires
        ops.len() <= document::MAX_STROKES,
        forall|i: int| 0 <= i < ops.len() ==> round_trip::sendable_op(#[trigger] ops[i]),
        0 <= n < encoding::update_blob(ops).len(),
    ensures
        encoding::parse_update(encoding::update_blob(ops).take(n)) is Err,
{
    let f = encoding::update_blob(ops);
    let b = encoding::operations_bytes(ops);
    let p = f.take(n);
    let t = f.skip(n);
    assert(p + t =~= f);
    lemma_varint(p, t);
    wire::lemma_varint_round_trip(ops.len() as u64, b);
    if let Some((count, rest)) = wire::read_varint(p) {
        assert(rest + t == b);
        lemma_found(seq![], rest, count as nat, count as nat, p.len());
        lemma_behind_longer(rest, count as nat, t);
        lemma_behind_all(ops);
        if let Some(left) = behind(rest, count as nat) {
            assert((left + t).len() > 0);
        }
    }
}

/// A snapshot that breaks off is refused.
pub proof fn law_cut_snapshots_are_refused(
    s: DocumentView,
    pairs: Seq<(MetadataKeyView, LwwRegister<Option<MetadataValueView>>)>,
    actor: ActorId,
    n: int,
)
    requires
        snapshot::storable(s, pairs),
        0 <= n < snapshot::snapshot_bytes(s, pairs).len(),
    ensures
        snapshot::parse_snapshot(snapshot::snapshot_bytes(s, pairs).take(n), actor) is Err,
{
    let f = snapshot::snapshot_bytes(s, pairs);
    let ops = snapshot::snapshot_ops(s, pairs);
    let sv = encoding::state_vector(s.version);
    let blob = encoding::update_blob(ops);
    let p = f.take(n);
    let t = f.skip(n);
    round_trip::lemma_state_vector_short(s.version);
    snapshot::lemma_header(s, sv, blob);
    if n > 0 {
        assert(p[0] == f[0]);
        assert(p.skip(1) + t =~= f.skip(1));
        lemma_varint(p.skip(1), t);
        if let Some((_, r)) = wire::read_varint(p.skip(1)) {
            lemma_varint(r, t);
            if let Some((_, r)) = wire::read_varint(r) {
                lemma_varint(r, t);
                if let Some((len, r)) = wire::read_varint(r) {
                    assert(r + t == sv + blob);
                    if len <= r.len() {
                        let m = r.len() - len;
                        assert((sv + blob).len() == r.len() + t.len());
                        assert(r.skip(len as int) =~= blob.take(m)) by {
                            assert forall|i: int| 0 <= i < m implies r.skip(len as int)[i] == blob.take(m)[i] by {
                                assert((r + t)[len + i] == (sv + blob)[len + i]);
                            }
                        }
                        snapshot::lemma_ops_sendable(s, pairs);
                        law_cut_updates_are_refused(ops, m);
                    }
                }
            }
        }
    }
}

} // verus!
