//! Snapshots: the binary form of a whole document.
//!
//! Layout: version byte, actor, clock, length-prefixed state vector, and an
//! update with the strokes from bottom to top, tombstones included, and with
//! the metadata. The strokes are stacked again as they come, so that their order
//! does not depend on items that have been collected; a metadata entry carries
//! the time of its last write, so that older writes still lose to it.

use crate::document;
use crate::document::{Document, DocumentView};
use crate::encoding;
use crate::error::{VectisError, VectisErrorView, VectisResult};
use crate::metadata;
use crate::metadata::{MetadataKey, MetadataKeyView, MetadataValue, MetadataValueView};
use crate::operation;
use crate::operation::{Operation, OperationView};
use crate::rga;
use crate::rga::{ItemState, RgaItem};
use crate::round_trip;
use crate::stroke::{LwwRegister, StrokeView};
use crate::types;
use crate::types::{ActorId, LamportTs, OpId};
use crate::wire;
use vstd::prelude::*;

verus! {

/// The version of the snapshot format.
pub const SNAPSHOT_VERSION: u8 = 1;

/// The metadata entries, in the order in which their keys came: what was
/// written last under each key, and when. A deleted key has no value.
pub open spec fn registers(entries: Seq<(MetadataKey, LwwRegister<Option<MetadataValue>>)>) -> Seq<
    (MetadataKeyView, LwwRegister<Option<MetadataValueView>>),
> {
    entries.map_values(
        |entry: (MetadataKey, LwwRegister<Option<MetadataValue>>)| (entry.0@, metadata::register_view(entry.1)),
    )
}

/// The operations that rebuild one item.
pub open spec fn item_ops(strokes: Map<OpId, StrokeView>, item: RgaItem) -> Seq<OperationView> {
    let made = if strokes.contains_key(item.content) {
        seq![
            OperationView::InsertStroke {
                id: item.id,
                origin_left: item.origin_left,
                origin_right: item.origin_right,
                data: strokes[item.content].data,
                properties: strokes[item.content].properties,
            },
        ]
    } else {
        seq![]
    };
    match item.state {
        ItemState::Active => made,
        ItemState::Tombstone { deleted_at } => made.push(
            OperationView::DeleteStroke { id: deleted_at, target: item.id },
        ),
    }
}

/// The operations that rebuild the first `n` items.
pub open spec fn items_ops(s: DocumentView, n: int) -> Seq<OperationView>
    decreases n,
{
    if n <= 0 {
        seq![]
    } else {
        items_ops(s, n - 1) + item_ops(s.strokes, s.items[n - 1])
    }
}

/// The operation that rebuilds a metadata entry.
pub open spec fn pair_op(pair: (MetadataKeyView, LwwRegister<Option<MetadataValueView>>)) -> OperationView {
    OperationView::UpdateMetadata { id: pair.1.timestamp, key: pair.0, value: pair.1.value }
}

/// The operations that rebuild the metadata.
pub open spec fn pairs_ops(pairs: Seq<(MetadataKeyView, LwwRegister<Option<MetadataValueView>>)>) -> Seq<
    OperationView,
> {
    pairs.map_values(|pair: (MetadataKeyView, LwwRegister<Option<MetadataValueView>>)| pair_op(pair))
}

/// The operations that rebuild the document.
pub open spec fn snapshot_ops(
    s: DocumentView,
    pairs: Seq<(MetadataKeyView, LwwRegister<Option<MetadataValueView>>)>,
) -> Seq<OperationView> {
    items_ops(s, s.items.len() as int) + pairs_ops(pairs)
}

/// The bytes of a snapshot.
pub open spec fn snapshot_bytes(
    s: DocumentView,
    pairs: Seq<(MetadataKeyView, LwwRegister<Option<MetadataValueView>>)>,
) -> Seq<u8> {
    seq![SNAPSHOT_VERSION] + wire::varint(s.actor.0 as nat) + wire::varint(s.clock as nat) + wire::prefixed(
        encoding::state_vector(s.version),
    ) + encoding::update_blob(snapshot_ops(s, pairs))
}

/// The document that the operations of a snapshot are loaded into.
pub open spec fn groundwork(actor: ActorId, clock: u64, version: Map<u64, u64>) -> DocumentView {
    DocumentView { clock, version, ..document::blank(actor) }
}

/// What a snapshot holds, as a document of `actor`, or why it cannot be read.
pub open spec fn parse_snapshot(s: Seq<u8>, actor: ActorId) -> Result<DocumentView, VectisErrorView> {
    if s.len() == 0 {
        Err(VectisErrorView::DecodingError("empty snapshot"@))
    } else if s[0] != SNAPSHOT_VERSION {
        Err(VectisErrorView::SnapshotVersionMismatch { expected: SNAPSHOT_VERSION, got: s[0] })
    } else {
        match wire::read_varint(s.skip(1)) {
            None => Err(VectisErrorView::DecodingError("failed to read actor"@)),
            Some((_, s)) => match wire::read_varint(s) {
                None => Err(VectisErrorView::DecodingError("failed to read lamport"@)),
                Some((clock, s)) => match wire::read_varint(s) {
                    None => Err(VectisErrorView::DecodingError("failed to read sv_len"@)),
                    Some((len, s)) => if len > s.len() {
                        Err(VectisErrorView::DecodingError("state vector truncated"@))
                    } else {
                        let version = encoding::parse_state_vector(s.take(len as int));
                        match encoding::parse_update(s.skip(len as int)) {
                            Err(e) => Err(VectisErrorView::DecodingError(e.message())),
                            Ok(ops) => Ok(document::loaded_all(groundwork(actor, clock, version), ops)),
                        }
                    },
                },
            },
        }
    }
}

proof fn lemma_views_concat(a: Seq<Operation>, op: Operation)
    ensures
        operation::views(a.push(op)) == operation::views(a).push(op@),
{
    assert(operation::views(a.push(op)) =~= operation::views(a).push(op@));
}

/// The operations that rebuild the strokes of a document.
fn collect_item_ops(doc: &Document) -> (ops: Vec<Operation>)
    ensures
        operation::views(ops@) == items_ops(doc@, doc@.items.len() as int),
{
    let mut ops: Vec<Operation> = Vec::new();
    let mut i: usize = 0;
    proof {
        assert(operation::views(ops@) =~= seq![]);
    }
    while i < doc.stroke_order.items.len()
        invariant
            i <= doc@.items.len(),
            operation::views(ops@) == items_ops(doc@, i as int),
        decreases doc@.items.len() - i,
    {
        let item = doc.stroke_order.items[i];
        let ghost before = operation::views(ops@);
        match doc.stroke_store.get(&item.content) {
            Some((data, properties)) => {
                let op = Operation::InsertStroke {
                    id: item.id,
                    origin_left: item.origin_left,
                    origin_right: item.origin_right,
                    data: data.clone(),
                    properties: *properties,
                };
                proof {
                    lemma_views_concat(ops@, op);
                }
                ops.push(op);
            },
            None => {},
        }
        match item.state {
            ItemState::Active => {},
            ItemState::Tombstone { deleted_at } => {
                let op = Operation::DeleteStroke { id: deleted_at, target: item.id };
                proof {
                    lemma_views_concat(ops@, op);
                }
                ops.push(op);
            },
        }
        proof {
            assert(operation::views(ops@) =~= before + item_ops(doc@.strokes, item));
        }
        i += 1;
    }
    ops
}

/// The operations that rebuild the metadata of a document.
fn collect_metadata_ops(doc: &Document) -> (ops: Vec<Operation>)
    ensures
        operation::views(ops@) == pairs_ops(registers(doc.metadata.entries@)),
{
    let mut ops: Vec<Operation> = Vec::new();
    let ghost pairs = registers(doc.metadata.entries@);
    let mut i: usize = 0;
    proof {
        assert(operation::views(ops@) =~= pairs_ops(pairs.take(0)));
    }
    while i < doc.metadata.entries.len()
        invariant
            i <= doc.metadata.entries@.len(),
            pairs == registers(doc.metadata.entries@),
            operation::views(ops@) == pairs_ops(pairs.take(i as int)),
        decreases doc.metadata.entries@.len() - i,
    {
        let entry = &doc.metadata.entries[i];
        let value = match &entry.1.value {
            Some(v) => Some(v.clone()),
            None => None,
        };
        let op = Operation::UpdateMetadata { id: entry.1.timestamp, key: entry.0.clone(), value };
        proof {
            lemma_views_concat(ops@, op);
            assert(op@ == pair_op(pairs[i as int]));
            assert(pairs_ops(pairs.take(i + 1)) =~= pairs_ops(pairs.take(i as int)).push(op@));
        }
        ops.push(op);
        i += 1;
    }
    proof {
        assert(pairs.take(pairs.len() as int) =~= pairs);
    }
    ops
}

/// Encodes a whole document.
pub fn encode_snapshot(doc: &Document) -> (out: Vec<u8>)
    ensures
        out@ == snapshot_bytes(doc@, registers(doc.metadata.entries@)),
{
    let mut out: Vec<u8> = Vec::new();
    out.push(SNAPSHOT_VERSION);
    wire::encode_varint(doc.local_actor.0, &mut out);
    wire::encode_varint(doc.clock.0, &mut out);
    let sv = encoding::encode_state_vector(&doc.version);
    wire::encode_prefixed(sv.as_slice(), &mut out);
    let mut ops = collect_item_ops(doc);
    let ghost strokes = ops@;
    let mut settings = collect_metadata_ops(doc);
    let ghost pairs = registers(doc.metadata.entries@);
    proof {
        assert(operation::views(strokes + settings@) =~= snapshot_ops(doc@, pairs));
    }
    ops.append(&mut settings);
    let blob = encoding::encode_update(ops.as_slice());
    wire::put_bytes(blob.as_slice(), &mut out);
    proof {
        assert(out@ =~= snapshot_bytes(doc@, pairs));
    }
    out
}

/// A result agrees with what it should be, seen through views.
pub open spec fn same_document(result: VectisResult<Document>, expected: Result<DocumentView, VectisErrorView>) -> bool {
    match expected {
        Ok(s) => result matches Ok(doc) && doc.wf() && doc@ == s,
        Err(e) => result matches Err(x) && x@ == e,
    }
}

fn decoding_error(message: &str) -> (e: VectisError)
    ensures
        e@ == VectisErrorView::DecodingError(message@),
{
    VectisError::DecodingError(message.to_string())
}

/// Decodes a snapshot into a new document of `actor`.
pub fn decode_snapshot(bytes: &[u8], actor: ActorId) -> (result: VectisResult<Document>)
    ensures
        same_document(result, parse_snapshot(bytes@, actor)),
{
    if bytes.len() == 0 {
        return Err(decoding_error("empty snapshot"));
    }
    if bytes[0] != SNAPSHOT_VERSION {
        return Err(VectisError::SnapshotVersionMismatch { expected: SNAPSHOT_VERSION, got: bytes[0] });
    }
    let (_, at): (u64, usize) = match wire::decode_varint_at(bytes, 1) {
        Some(found) => found,
        None => {
            return Err(decoding_error("failed to read actor"));
        },
    };
    let (clock, at): (u64, usize) = match wire::decode_varint_at(bytes, at) {
        Some(found) => found,
        None => {
            return Err(decoding_error("failed to read lamport"));
        },
    };
    let (len, at): (u64, usize) = match wire::decode_varint_at(bytes, at) {
        Some(found) => found,
        None => {
            return Err(decoding_error("failed to read sv_len"));
        },
    };
    if len > (bytes.len() - at) as u64 {
        return Err(decoding_error("state vector truncated"));
    }
    let end: usize = at + len as usize;
    let sv = wire::copy_range(bytes, at, end);
    let blob = wire::copy_range(bytes, end, bytes.len());
    proof {
        assert(sv@ =~= bytes@.skip(at as int).take(len as int));
        assert(blob@ =~= bytes@.skip(at as int).skip(len as int));
    }
    let mut doc = Document::new(actor);
    doc.clock = LamportTs(clock);
    doc.version = encoding::decode_vector_clock(sv.as_slice());
    proof {
        assert(doc@ =~= groundwork(actor, clock, doc.version@));
    }
    match encoding::decode_update(blob.as_slice()) {
        Ok(ops) => {
            doc.load_all(ops);
            Ok(doc)
        },
        Err(e) => {
            let message = e.to_string();
            Err(VectisError::DecodingError(message))
        },
    }
}

/// The pairs are the entries of the metadata, each key once.
pub open spec fn lists(
    m: Map<MetadataKeyView, LwwRegister<Option<MetadataValueView>>>,
    pairs: Seq<(MetadataKeyView, LwwRegister<Option<MetadataValueView>>)>,
) -> bool {
    &&& forall|i: int, j: int| 0 <= i < j < pairs.len() ==> (#[trigger] pairs[i]).0 != (#[trigger] pairs[j]).0
    &&& forall|i: int|
        0 <= i < pairs.len() ==> m.contains_key((#[trigger] pairs[i]).0) && m[pairs[i].0] == pairs[i].1
    &&& forall|k: MetadataKeyView| #[trigger]
        m.contains_key(k) ==> exists|i: int| 0 <= i < pairs.len() && (#[trigger] pairs[i]).0 == k
}

/// A document whose snapshot restores it: its paths and texts can be sent, and
/// the limits on operations and actors are kept.
pub open spec fn storable(
    s: DocumentView,
    pairs: Seq<(MetadataKeyView, LwwRegister<Option<MetadataValueView>>)>,
) -> bool {
    &&& document::consistent(s)
    &&& forall|id: OpId| #[trigger] s.strokes.contains_key(id) ==> round_trip::sendable(s.strokes[id].data)
    &&& forall|i: int| 0 <= i < pairs.len() ==> round_trip::sendable_op(pair_op(#[trigger] pairs[i]))
    &&& lists(s.metadata, pairs)
    &&& snapshot_ops(s, pairs).len() <= document::MAX_STROKES
    &&& s.version.dom().finite()
    &&& types::entries(s.version).len() <= document::MAX_ACTORS
}

/// The strokes as they are read back: the bounds of their paths are not
/// stored, and are computed anew.
pub open spec fn reread_strokes(strokes: Map<OpId, StrokeView>) -> Map<OpId, StrokeView> {
    Map::new(
        |id: OpId| strokes.contains_key(id),
        |id: OpId| StrokeView { data: round_trip::reread_data(strokes[id].data), ..strokes[id] },
    )
}

/// The document of `actor` that a snapshot restores: the items in their order,
/// tombstones included, the strokes with paths and properties, the metadata
/// with the time of each write, the clock, and what has been seen of each
/// actor. Nothing can be undone in it and nothing waits to be sent.
pub open spec fn restored(s: DocumentView, actor: ActorId) -> DocumentView {
    DocumentView {
        clock: s.clock,
        version: s.version,
        items: s.items,
        strokes: reread_strokes(s.strokes),
        metadata: s.metadata,
        ..document::blank(actor)
    }
}

/// The metadata of a valid document is written out in full.
pub proof fn law_metadata_is_listed(doc: Document)
    requires
        doc.wf(),
    ensures
        lists(doc@.metadata, registers(doc.metadata.entries@)),
{
    let entries = doc.metadata.entries@;
    let pairs = registers(entries);
    let m = doc.metadata@;
    assert forall|i: int| 0 <= i < pairs.len() implies m.contains_key((#[trigger] pairs[i]).0) && m[pairs[i].0]
        == pairs[i].1 by {
        assert(entries[i].0@ == pairs[i].0);
        assert(metadata::has_key(entries, pairs[i].0));
        assert(metadata::entry_of(entries, pairs[i].0) == i);
    }
    assert forall|i: int, j: int| 0 <= i < j < pairs.len() implies (#[trigger] pairs[i]).0 != (#[trigger] pairs[j]).0 by {
        if pairs[i].0 == pairs[j].0 {
            assert(entries[i].0@ == entries[j].0@);
        }
    }
    assert forall|k: MetadataKeyView| #[trigger] m.contains_key(k) implies exists|i: int|
        0 <= i < pairs.len() && (#[trigger] pairs[i]).0 == k by {
        let e = metadata::entry_of(entries, k);
        assert(entries[e].0@ == k);
        assert(pairs[e].0 == k);
    }
}

/// Operations are loaded one after another.
proof fn lemma_loaded_concat(s: DocumentView, a: Seq<OperationView>, b: Seq<OperationView>)
    ensures
        document::loaded_all(s, a + b) == document::loaded_all(document::loaded_all(s, a), b),
    decreases b.len(),
{
    if b.len() == 0 {
        assert(a + b =~= a);
    } else {
        lemma_loaded_concat(s, a, b.drop_last());
        assert((a + b).drop_last() =~= a + b.drop_last());
        assert((a + b).last() == b.last());
    }
}

proof fn lemma_load_one(s: DocumentView, op: OperationView)
    ensures
        document::loaded_all(s, seq![op]) == document::loaded(s, op),
{
    assert(seq![op].drop_last() =~= seq![]);
    assert(document::loaded_all(s, seq![op].drop_last()) == s);
}

/// What loading leaves alone.
proof fn lemma_loading_leaves(s: DocumentView, ops: Seq<OperationView>)
    ensures
        ({
            let t = document::loaded_all(s, ops);
            &&& t.actor == s.actor
            &&& t.pending == s.pending
            &&& t.min_version == s.min_version
            &&& t.gc_generation == s.gc_generation
            &&& t.undo == s.undo
            &&& t.simplify_epsilon == s.simplify_epsilon
        }),
    decreases ops.len(),
{
    if ops.len() > 0 {
        lemma_loading_leaves(s, ops.drop_last());
    }
}

/// After the operations of the first `n` items, the document has those items.
proof fn lemma_items_restored(s: DocumentView, g: DocumentView, n: int)
    requires
        document::consistent(s),
        s.items.len() <= document::MAX_STROKES,
        g == groundwork(g.actor, s.clock, s.version),
        0 <= n <= s.items.len(),
    ensures
        ({
            let t = document::loaded_all(g, items_ops(s, n));
            &&& t.items == s.items.take(n)
            &&& forall|id: OpId| #[trigger] t.strokes.contains_key(id) <==> rga::has_id(s.items.take(n), id)
            &&& forall|id: OpId| #[trigger] t.strokes.contains_key(id) ==> t.strokes[id] == s.strokes[id]
            &&& t.clock == s.clock
            &&& t.version == s.version
            &&& t.metadata == g.metadata
        }),
    decreases n,
{
    if n == 0 {
        assert(s.items.take(0) =~= seq![]);
    } else {
        lemma_items_restored(s, g, n - 1);
        let item = s.items[n - 1];
        let before = document::loaded_all(g, items_ops(s, n - 1));
        let fresh = document::fresh_item(item.id, item.origin_left, item.origin_right);
        assert(document::settled(s, item));
        assert(rga::has_id(s.items, item.id));
        assert(s.strokes.contains_key(item.id));
        assert(!rga::has_id(s.items.take(n - 1), item.id)) by {
            if rga::has_id(s.items.take(n - 1), item.id) {
                let j = rga::position(s.items.take(n - 1), item.id);
                assert(s.items[j].id == s.items[n - 1].id);
            }
        }
        let make = OperationView::InsertStroke {
            id: item.id,
            origin_left: item.origin_left,
            origin_right: item.origin_right,
            data: s.strokes[item.id].data,
            properties: s.strokes[item.id].properties,
        };
        let made = document::loaded(before, make);
        assert(types::advanced(s.version, item.id.actor.0, item.id.lamport.0) =~= s.version);
        assert(!before.strokes.contains_key(item.id));
        assert(made.items == s.items.take(n - 1).push(fresh));
        lemma_loaded_concat(g, items_ops(s, n - 1), item_ops(s.strokes, item));
        let now = document::loaded_all(g, items_ops(s, n));
        let whole = s.items.take(n);
        match item.state {
            ItemState::Active => {
                assert(item_ops(s.strokes, item) =~= seq![make]);
                lemma_load_one(before, make);
                assert(now.items =~= whole);
            },
            ItemState::Tombstone { deleted_at } => {
                let kill = OperationView::DeleteStroke { id: deleted_at, target: item.id };
                assert(item_ops(s.strokes, item) =~= seq![make] + seq![kill]);
                lemma_loaded_concat(before, seq![make], seq![kill]);
                lemma_load_one(before, make);
                lemma_load_one(made, kill);
                assert(types::advanced(s.version, deleted_at.actor.0, deleted_at.lamport.0) =~= s.version);
                assert(made.items[n - 1] == fresh);
                assert(rga::has_id(made.items, item.id));
                let at = rga::position(made.items, item.id);
                if at < n - 1 {
                    assert(s.items[at] == made.items[at]);
                    assert(s.items[at].id == s.items[n - 1].id);
                }
                assert(at == n - 1);
                assert(now.items =~= whole);
            },
        }
        assert forall|id: OpId| #[trigger] now.strokes.contains_key(id) <==> rga::has_id(whole, id) by {
            let part = s.items.take(n - 1);
            assert(before.strokes.contains_key(id) <==> rga::has_id(part, id));
            if rga::has_id(part, id) {
                let i = rga::position(part, id);
                assert(whole[i] == part[i]);
            }
            if rga::has_id(whole, id) {
                let i = rga::position(whole, id);
                if i < n - 1 {
                    assert(part[i] == whole[i]);
                }
            }
            assert(whole[n - 1] == item);
        }
    }
}

/// After the operations of the first `n` pairs, the metadata has those pairs.
proof fn lemma_pairs_restored(
    t: DocumentView,
    pairs: Seq<(MetadataKeyView, LwwRegister<Option<MetadataValueView>>)>,
    n: int,
)
    requires
        t.metadata == Map::<MetadataKeyView, LwwRegister<Option<MetadataValueView>>>::empty(),
        forall|i: int, j: int| 0 <= i < j < pairs.len() ==> (#[trigger] pairs[i]).0 != (#[trigger] pairs[j]).0,
        forall|i: int| 0 <= i < pairs.len() ==> document::known(t, (#[trigger] pairs[i]).1.timestamp),
        0 <= n <= pairs.len(),
    ensures
        ({
            let u = document::loaded_all(t, pairs_ops(pairs.take(n)));
            &&& u.items == t.items
            &&& u.strokes == t.strokes
            &&& u.clock == t.clock
            &&& u.version == t.version
            &&& forall|k: MetadataKeyView| #[trigger]
                u.metadata.contains_key(k) <==> exists|i: int| 0 <= i < n && (#[trigger] pairs[i]).0 == k
            &&& forall|i: int|
                0 <= i < n ==> u.metadata.contains_key((#[trigger] pairs[i]).0) && u.metadata[pairs[i].0] == pairs[i].1
        }),
    decreases n,
{
    let ops = pairs_ops(pairs.take(n));
    if n == 0 {
        assert(ops =~= seq![]);
    } else {
        lemma_pairs_restored(t, pairs, n - 1);
        let less = pairs_ops(pairs.take(n - 1));
        assert(ops.drop_last() =~= less);
        assert(ops.last() == pair_op(pairs[n - 1]));
        let v = document::loaded_all(t, less);
        let u = document::loaded_all(t, ops);
        let key = pairs[n - 1].0;
        let at = pairs[n - 1].1.timestamp;
        assert(types::advanced(t.version, at.actor.0, at.lamport.0) =~= t.version);
        assert(!v.metadata.contains_key(key)) by {
            if v.metadata.contains_key(key) {
                let i = choose|i: int| 0 <= i < n - 1 && (#[trigger] pairs[i]).0 == key;
                assert(pairs[i].0 != pairs[n - 1].0);
            }
        }
        assert forall|k: MetadataKeyView| #[trigger] u.metadata.contains_key(k) <==> exists|i: int|
            0 <= i < n && (#[trigger] pairs[i]).0 == k by {
            if v.metadata.contains_key(k) {
                let i = choose|i: int| 0 <= i < n - 1 && (#[trigger] pairs[i]).0 == k;
                assert(pairs[i].0 == k);
            }
            if k == key {
                assert(pairs[n - 1].0 == k);
            }
            if exists|i: int| 0 <= i < n && (#[trigger] pairs[i]).0 == k {
                let i = choose|i: int| 0 <= i < n && (#[trigger] pairs[i]).0 == k;
                if i < n - 1 {
                    assert(v.metadata.contains_key(k));
                }
            }
        }
        assert forall|i: int| 0 <= i < n implies u.metadata.contains_key((#[trigger] pairs[i]).0)
            && u.metadata[pairs[i].0] == pairs[i].1 by {
            if i < n - 1 {
                assert(v.metadata.contains_key(pairs[i].0));
                assert(pairs[i].0 != pairs[n - 1].0);
            }
        }
    }
}

proof fn lemma_item_count(s: DocumentView, n: int)
    requires
        document::consistent(s),
        0 <= n <= s.items.len(),
    ensures
        items_ops(s, n).len() >= n,
    decreases n,
{
    if n > 0 {
        lemma_item_count(s, n - 1);
        let item = s.items[n - 1];
        assert(document::settled(s, item));
        assert(rga::has_id(s.items, item.id));
        assert(s.strokes.contains_key(item.id));
        assert(item_ops(s.strokes, item).len() >= 1);
    }
}

proof fn lemma_items_sendable(s: DocumentView, n: int)
    requires
        document::consistent(s),
        forall|id: OpId| #[trigger] s.strokes.contains_key(id) ==> round_trip::sendable(s.strokes[id].data),
        0 <= n <= s.items.len(),
    ensures
        forall|i: int| 0 <= i < items_ops(s, n).len() ==> round_trip::sendable_op(#[trigger] items_ops(s, n)[i]),
    decreases n,
{
    if n > 0 {
        lemma_items_sendable(s, n - 1);
        let less = items_ops(s, n - 1);
        let part = item_ops(s.strokes, s.items[n - 1]);
        assert forall|i: int| 0 <= i < items_ops(s, n).len() implies round_trip::sendable_op(
            #[trigger] items_ops(s, n)[i],
        ) by {
            if i < less.len() {
                assert(items_ops(s, n)[i] == less[i]);
            } else {
                assert(items_ops(s, n)[i] == part[i - less.len()]);
            }
        }
    }
}

/// The operations of a snapshot can be sent.
pub proof fn lemma_ops_sendable(
    s: DocumentView,
    pairs: Seq<(MetadataKeyView, LwwRegister<Option<MetadataValueView>>)>,
)
    requires
        storable(s, pairs),
    ensures
        forall|i: int|
            0 <= i < snapshot_ops(s, pairs).len() ==> round_trip::sendable_op(#[trigger] snapshot_ops(s, pairs)[i]),
{
    let ops = snapshot_ops(s, pairs);
    let n = s.items.len() as int;
    lemma_items_sendable(s, n);
    assert forall|i: int| 0 <= i < ops.len() implies round_trip::sendable_op(#[trigger] ops[i]) by {
        if i < items_ops(s, n).len() {
            assert(ops[i] == items_ops(s, n)[i]);
        } else {
            assert(ops[i] == pair_op(pairs[i - items_ops(s, n).len()]));
        }
    }
}

/// The operations of the items are read back as those of the strokes that are
/// read back.
proof fn lemma_items_reread(s: DocumentView, r: DocumentView, n: int)
    requires
        document::consistent(s),
        r == (DocumentView { strokes: reread_strokes(s.strokes), ..s }),
        0 <= n <= s.items.len(),
    ensures
        round_trip::reread_all(items_ops(s, n)) == items_ops(r, n),
    decreases n,
{
    if n > 0 {
        lemma_items_reread(s, r, n - 1);
        let item = s.items[n - 1];
        assert(document::settled(s, item));
        assert(rga::has_id(s.items, item.id));
        assert(s.strokes.contains_key(item.id));
        let part = item_ops(s.strokes, item);
        assert(round_trip::reread_all(part) =~= item_ops(r.strokes, item));
        assert(round_trip::reread_all(items_ops(s, n - 1) + part) =~= round_trip::reread_all(items_ops(s, n - 1))
            + round_trip::reread_all(part));
    } else {
        assert(round_trip::reread_all(items_ops(s, n)) =~= items_ops(r, n));
    }
}

/// A document that has the pairs has the metadata.
proof fn lemma_metadata_restored(
    s: DocumentView,
    u: DocumentView,
    pairs: Seq<(MetadataKeyView, LwwRegister<Option<MetadataValueView>>)>,
)
    requires
        lists(s.metadata, pairs),
        forall|k: MetadataKeyView| #[trigger]
            u.metadata.contains_key(k) <==> exists|i: int| 0 <= i < pairs.len() && (#[trigger] pairs[i]).0 == k,
        forall|i: int|
            0 <= i < pairs.len() ==> u.metadata.contains_key((#[trigger] pairs[i]).0) && u.metadata[pairs[i].0]
                == pairs[i].1,
    ensures
        u.metadata == s.metadata,
{
    assert forall|k: MetadataKeyView| u.metadata.contains_key(k) <==> #[trigger] s.metadata.contains_key(k) by {
        if u.metadata.contains_key(k) {
            let i = choose|i: int| 0 <= i < pairs.len() && (#[trigger] pairs[i]).0 == k;
            assert(s.metadata.contains_key(pairs[i].0));
        }
    }
    assert forall|k: MetadataKeyView| #[trigger] u.metadata.contains_key(k) implies u.metadata[k] == s.metadata[k] by {
        let i = choose|i: int| 0 <= i < pairs.len() && (#[trigger] pairs[i]).0 == k;
        assert(u.metadata[pairs[i].0] == pairs[i].1);
    }
    assert(u.metadata =~= s.metadata);
}

/// The operations of a snapshot, as they are read back, rebuild the document.
proof fn lemma_restored(
    s: DocumentView,
    pairs: Seq<(MetadataKeyView, LwwRegister<Option<MetadataValueView>>)>,
    actor: ActorId,
)
    requires
        storable(s, pairs),
        s.items.len() <= document::MAX_STROKES,
    ensures
        document::loaded_all(
            groundwork(actor, s.clock, s.version),
            round_trip::reread_all(snapshot_ops(s, pairs)),
        ) == restored(s, actor),
{
    let n = s.items.len() as int;
    let tail = pairs_ops(pairs);
    let g = groundwork(actor, s.clock, s.version);
    let r = DocumentView { strokes: reread_strokes(s.strokes), ..s };
    lemma_items_reread(s, r, n);
    assert(round_trip::reread_all(snapshot_ops(s, pairs)) =~= items_ops(r, n) + tail);
    assert(document::consistent(r)) by {
        assert forall|i: int| 0 <= i < r.items.len() implies document::settled(r, #[trigger] r.items[i]) by {
            assert(document::settled(s, s.items[i]));
        }
    }
    lemma_items_restored(r, g, n);
    assert(s.items.take(n) =~= s.items);
    let t = document::loaded_all(g, items_ops(r, n));
    lemma_loaded_concat(g, items_ops(r, n), tail);
    assert forall|i: int| 0 <= i < pairs.len() implies document::known(t, (#[trigger] pairs[i]).1.timestamp) by {
        assert(s.metadata.contains_key(pairs[i].0));
    }
    lemma_pairs_restored(t, pairs, pairs.len() as int);
    assert(pairs.take(pairs.len() as int) =~= pairs);
    let u = document::loaded_all(t, tail);
    assert(t.strokes =~= r.strokes);
    lemma_loading_leaves(g, items_ops(r, n) + tail);
    lemma_metadata_restored(s, u, pairs);
    assert(u =~= restored(s, actor));
}

/// A snapshot restores the document, collected or not.
pub proof fn law_snapshot_round_trip(
    s: DocumentView,
    pairs: Seq<(MetadataKeyView, LwwRegister<Option<MetadataValueView>>)>,
    actor: ActorId,
)
    requires
        storable(s, pairs),
    ensures
        parse_snapshot(snapshot_bytes(s, pairs), actor) == Ok::<DocumentView, VectisErrorView>(restored(s, actor)),
{
    let ops = snapshot_ops(s, pairs);
    lemma_item_count(s, s.items.len() as int);
    lemma_ops_sendable(s, pairs);
    round_trip::law_update_round_trip(ops);
    round_trip::law_state_vector_round_trip(s.version);
    round_trip::lemma_state_vector_short(s.version);
    let sv = encoding::state_vector(s.version);
    let blob = encoding::update_blob(ops);
    lemma_header(s, sv, blob);
    let r2 = wire::varint(sv.len()) + (sv + blob);
    let r1 = wire::varint(s.clock as nat) + r2;
    lemma_parsed(
        snapshot_bytes(s, pairs),
        r1,
        r2,
        sv + blob,
        s.actor.0,
        s.clock,
        sv.len() as u64,
        round_trip::reread_all(ops),
        actor,
    );
    lemma_restored(s, pairs, actor);
}

/// Whether two documents hold the same, but for the bounds of paths.
pub open spec fn equivalent(s: DocumentView, t: DocumentView) -> bool {
    &&& s.clock == t.clock
    &&& s.version == t.version
    &&& s.items == t.items
    &&& s.metadata == t.metadata
    &&& reread_strokes(s.strokes) == reread_strokes(t.strokes)
}

/// Equivalent documents take in an operation alike.
proof fn lemma_equivalent_step(s: DocumentView, t: DocumentView, op: OperationView)
    requires
        equivalent(s, t),
    ensures
        equivalent(document::applied(s, op), document::applied(t, op)),
{
    let u = document::applied(s, op);
    let v = document::applied(t, op);
    let a = reread_strokes(s.strokes);
    let b = reread_strokes(t.strokes);
    assert forall|id: OpId| s.strokes.contains_key(id) <==> #[trigger] t.strokes.contains_key(id) by {
        assert(a.contains_key(id) <==> b.contains_key(id));
    }
    assert forall|id: OpId| #[trigger] u.strokes.contains_key(id) implies v.strokes.contains_key(id)
        && reread_strokes(u.strokes)[id] == reread_strokes(v.strokes)[id] by {
        assert(s.strokes.contains_key(id) ==> a[id] == b[id] && t.strokes.contains_key(id));
    }
    assert(reread_strokes(u.strokes) =~= reread_strokes(v.strokes));
}

/// A replica that was restored goes on like the one that was stored: whatever
/// operations the two take in afterwards, they hold the same.
pub proof fn law_restored_replica_goes_on(s: DocumentView, actor: ActorId, ops: Seq<OperationView>)
    ensures
        equivalent(document::applied_all(restored(s, actor), ops), document::applied_all(s, ops)),
    decreases ops.len(),
{
    if ops.len() == 0 {
        assert(reread_strokes(reread_strokes(s.strokes)) =~= reread_strokes(s.strokes));
    } else {
        law_restored_replica_goes_on(s, actor, ops.drop_last());
        lemma_equivalent_step(
            document::applied_all(restored(s, actor), ops.drop_last()),
            document::applied_all(s, ops.drop_last()),
            ops.last(),
        );
    }
}

/// A snapshot is read part by part.
proof fn lemma_parsed(
    all: Seq<u8>,
    r1: Seq<u8>,
    r2: Seq<u8>,
    r3: Seq<u8>,
    own: u64,
    clock: u64,
    len: u64,
    ops: Seq<OperationView>,
    actor: ActorId,
)
    requires
        all.len() > 0,
        all[0] == SNAPSHOT_VERSION,
        wire::read_varint(all.skip(1)) == Some((own, r1)),
        wire::read_varint(r1) == Some((clock, r2)),
        wire::read_varint(r2) == Some((len, r3)),
        len <= r3.len(),
        encoding::parse_update(r3.skip(len as int)) == Ok::<Seq<OperationView>, VectisErrorView>(ops),
    ensures
        parse_snapshot(all, actor) is Ok,
        parse_snapshot(all, actor)->Ok_0 == document::loaded_all(
            groundwork(actor, clock, encoding::parse_state_vector(r3.take(len as int))),
            ops,
        ),
{
}

/// The parts of a snapshot are found again.
pub proof fn lemma_header(s: DocumentView, sv: Seq<u8>, blob: Seq<u8>)
    requires
        sv.len() <= u64::MAX,
    ensures
        ({
            let all = seq![SNAPSHOT_VERSION] + wire::varint(s.actor.0 as nat) + wire::varint(s.clock as nat)
                + wire::prefixed(sv) + blob;
            let r1 = wire::varint(s.clock as nat) + (wire::varint(sv.len()) + (sv + blob));
            let r2 = wire::varint(sv.len()) + (sv + blob);
            &&& all.len() > 0
            &&& all[0] == SNAPSHOT_VERSION
            &&& wire::read_varint(all.skip(1)) == Some((s.actor.0, r1))
            &&& wire::read_varint(r1) == Some((s.clock, r2))
            &&& wire::read_varint(r2) == Some((sv.len() as u64, sv + blob))
            &&& (sv + blob).take(sv.len() as int) == sv
            &&& (sv + blob).skip(sv.len() as int) == blob
        }),
{
    let all = seq![SNAPSHOT_VERSION] + wire::varint(s.actor.0 as nat) + wire::varint(s.clock as nat) + wire::prefixed(
        sv,
    ) + blob;
    let r2 = wire::varint(sv.len()) + (sv + blob);
    let r1 = wire::varint(s.clock as nat) + r2;
    assert(all.skip(1) =~= wire::varint(s.actor.0 as nat) + r1);
    wire::lemma_varint_round_trip(s.actor.0, r1);
    wire::lemma_varint_round_trip(s.clock, r2);
    wire::lemma_varint_round_trip(sv.len() as u64, sv + blob);
    wire::lemma_concat(sv, blob);
}

/// A snapshot is its version, the actor, the time of its clock, the version of
/// the document behind its length, and an update that rebuilds the rest.
pub proof fn law_snapshot_layout(
    s: DocumentView,
    pairs: Seq<(MetadataKeyView, LwwRegister<Option<MetadataValueView>>)>,
)
    ensures
        snapshot_bytes(s, pairs) == seq![1u8] + wire::varint(s.actor.0 as nat) + wire::varint(s.clock as nat)
            + wire::prefixed(encoding::state_vector(s.version)) + encoding::update_blob(snapshot_ops(s, pairs)),
{
}

/// Of each item a snapshot has the insertion of its stroke, where that is
/// stored, and behind it the deletion, where it is deleted, in the order of the
/// items; behind these it has one change for each entry of the metadata.
pub proof fn law_snapshots_rebuild_item_by_item(
    s: DocumentView,
    pairs: Seq<(MetadataKeyView, LwwRegister<Option<MetadataValueView>>)>,
    k: int,
)
    requires
        0 <= k < s.items.len(),
    ensures
        ({
            let item = s.items[k];
            let made = if s.strokes.contains_key(item.content) {
                seq![
                    OperationView::InsertStroke {
                        id: item.id,
                        origin_left: item.origin_left,
                        origin_right: item.origin_right,
                        data: s.strokes[item.content].data,
                        properties: s.strokes[item.content].properties,
                    },
                ]
            } else {
                seq![]
            };
            let gone = if item.state is Tombstone {
                seq![OperationView::DeleteStroke { id: item.state->deleted_at, target: item.id }]
            } else {
                seq![]
            };
            items_ops(s, k + 1) == items_ops(s, k) + made + gone
        }),
        items_ops(s, 0) == Seq::<OperationView>::empty(),
        snapshot_ops(s, pairs) == items_ops(s, s.items.len() as int) + Seq::new(
            pairs.len(),
            |i: int|
                OperationView::UpdateMetadata {
                    id: pairs[i].1.timestamp,
                    key: pairs[i].0,
                    value: pairs[i].1.value,
                },
        ),
{
    assert(pairs_ops(pairs) =~= Seq::new(
        pairs.len(),
        |i: int|
            OperationView::UpdateMetadata { id: pairs[i].1.timestamp, key: pairs[i].0, value: pairs[i].1.value },
    ));
    let item = s.items[k];
    if item.state is Active {
        assert(items_ops(s, k + 1) =~= items_ops(s, k) + item_ops(s.strokes, item) + Seq::<OperationView>::empty());
    }
}

/// A snapshot of another version is refused, and so is nothing at all.
pub proof fn law_other_snapshots_are_refused(s: Seq<u8>, actor: ActorId)
    ensures
        s.len() == 0 ==> parse_snapshot(s, actor) == Err::<DocumentView, VectisErrorView>(
            VectisErrorView::DecodingError("empty snapshot"@),
        ),
        s.len() > 0 && s[0] != 1 ==> parse_snapshot(s, actor) == Err::<DocumentView, VectisErrorView>(
            VectisErrorView::SnapshotVersionMismatch { expected: 1, got: s[0] },
        ),
{
}

/// What is restored belongs to the given actor and starts a new session: the
/// order, the strokes, the metadata, the clock and the version are as they were,
/// and nothing waits to be sent or can be undone.
pub proof fn law_restored_document_is_fresh(s: DocumentView, actor: ActorId)
    ensures
        ({
            let t = restored(s, actor);
            &&& t.actor == actor
            &&& t.items == s.items && t.metadata == s.metadata && t.clock == s.clock && t.version == s.version
            &&& t.strokes.dom() == s.strokes.dom()
            &&& forall|id: OpId| #[trigger]
                s.strokes.contains_key(id) ==> {
                    &&& t.strokes[id].data.points == s.strokes[id].data.points
                    &&& t.strokes[id].data.tool == s.strokes[id].data.tool
                    &&& t.strokes[id].properties == s.strokes[id].properties
                }
            &&& t.pending.len() == 0 && t.undo.len() == 0
        }),
{
    assert(restored(s, actor).strokes.dom() =~= s.strokes.dom());
}

} // verus!
