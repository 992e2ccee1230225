//! The document: the full replicated state of one whiteboard.

use crate::float::{F32, F64};
use crate::gc;
use crate::metadata;
use crate::metadata::{MetadataKeyView, MetadataValueView};
use crate::operation;
use crate::operation::OperationView;
use crate::rga;
use crate::rga::{ItemState, RgaArray, RgaItem, StrokeId};
use crate::simplify;
use crate::stroke::{
    LwwRegister, StrokeData, StrokeDataView, StrokePoint, StrokeProperties, StrokeStore, StrokeView, Transform2D,
};
use crate::types;
use crate::types::{ActorId, LamportTs, OpId, VectorClock};
use vstd::prelude::*;

pub use crate::metadata::{LwwMap, MetadataKey, MetadataValue};
pub use crate::operation::{Operation, PropertyUpdate};

verus! {

/// Maximum number of undo steps kept in a session.
pub const MAX_UNDO_DEPTH: usize = 200;

/// Maximum number of points of a stroke on the wire.
pub const MAX_POINTS_PER_STROKE: usize = 50_000;

/// Maximum number of strokes, tombstones included, that remote operations may
/// bring a document to; also the maximum number of operations in an update.
pub const MAX_STROKES: usize = 100_000;

/// Maximum number of actors read from a state vector.
pub const MAX_ACTORS: usize = 10_000;

/// The contents of a [`Document`].
#[verifier::ext_equal]
pub struct DocumentView {
    pub actor: ActorId,
    pub clock: u64,
    pub version: Map<u64, u64>,
    pub items: Seq<RgaItem>,
    pub strokes: Map<OpId, StrokeView>,
    pub metadata: Map<MetadataKeyView, LwwRegister<Option<MetadataValueView>>>,
    pub pending: Seq<OperationView>,
    pub min_version: Map<u64, u64>,
    pub gc_generation: u64,
    pub undo: Seq<OpId>,
    pub simplify_epsilon: F32,
}

/// An empty document of an actor.
pub open spec fn blank(actor: ActorId) -> DocumentView {
    DocumentView {
        actor,
        clock: 0,
        version: Map::empty(),
        items: Seq::empty(),
        strokes: Map::empty(),
        metadata: Map::empty(),
        pending: Seq::empty(),
        min_version: Map::empty(),
        gc_generation: 0,
        undo: Seq::empty(),
        simplify_epsilon: F32::half(),
    }
}

/// Whether the clock and the version have caught up with an operation.
pub open spec fn known(s: DocumentView, id: OpId) -> bool {
    id.lamport.0 <= s.clock && s.version.contains_key(id.actor.0) && id.lamport.0 <= s.version[id.actor.0]
}

/// What holds of an item: it stands for the stroke of its own identifier, and
/// the operations that made and deleted it are known.
pub open spec fn settled(s: DocumentView, item: RgaItem) -> bool {
    &&& item.content == item.id
    &&& known(s, item.id)
    &&& item.state matches ItemState::Tombstone { deleted_at } ==> known(s, deleted_at)
}

/// What holds of every document: each stroke has one item and each item a
/// stroke, and the clock and the version have caught up with all of them and
/// with all that was written to the metadata.
pub open spec fn consistent(s: DocumentView) -> bool {
    &&& forall|id: OpId| rga::has_id(s.items, id) <==> #[trigger] s.strokes.contains_key(id)
    &&& forall|i: int| 0 <= i < s.items.len() ==> settled(s, #[trigger] s.items[i])
    &&& rga::distinct_ids(s.items)
    &&& forall|k: MetadataKeyView| #[trigger]
        s.metadata.contains_key(k) ==> known(s, s.metadata[k].timestamp)
}

/// The identifier of the next local operation.
pub open spec fn next_id(s: DocumentView) -> OpId {
    OpId { lamport: LamportTs((s.clock + 1) as u64), actor: s.actor }
}

/// The document after the next local operation has been given its identifier.
pub open spec fn ticked(s: DocumentView) -> DocumentView {
    DocumentView {
        clock: (s.clock + 1) as u64,
        version: types::advanced(s.version, s.actor.0, (s.clock + 1) as u64),
        ..s
    }
}

/// A new, visible item for the stroke `id`.
pub open spec fn fresh_item(id: OpId, origin_left: OpId, origin_right: OpId) -> RgaItem {
    RgaItem { id, origin_left, origin_right, content: id, state: ItemState::Active }
}

/// The identifier of the topmost visible stroke; zero where there is none.
pub open spec fn top(items: Seq<RgaItem>) -> OpId {
    if rga::visible(items).len() == 0 {
        OpId::zero()
    } else {
        rga::visible(items).last().id
    }
}

/// The document after a clock reading of an operation has been taken over.
pub open spec fn witnessed(s: DocumentView, id: OpId) -> DocumentView {
    DocumentView {
        clock: if id.lamport.0 > s.clock {
            id.lamport.0
        } else {
            s.clock
        },
        version: types::advanced(s.version, id.actor.0, id.lamport.0),
        ..s
    }
}

/// The document after a remote operation.
pub open spec fn applied(s: DocumentView, op: OperationView) -> DocumentView {
    let t = witnessed(s, op.id());
    match op {
        OperationView::InsertStroke { id, origin_left, origin_right, data, properties } => {
            if s.strokes.contains_key(id) || s.items.len() >= MAX_STROKES {
                t
            } else {
                DocumentView {
                    items: rga::integrated(s.items, fresh_item(id, origin_left, origin_right)),
                    strokes: s.strokes.insert(id, StrokeView { data, properties }),
                    ..t
                }
            }
        },
        OperationView::DeleteStroke { id, target } => DocumentView {
            items: rga::tombstoned(s.items, target, id),
            ..t
        },
        OperationView::UpdateProperty { id, target, update } => {
            if s.strokes.contains_key(target) {
                DocumentView { strokes: restyled(s.strokes, target, update, id), ..t }
            } else {
                t
            }
        },
        OperationView::UpdateMetadata { id, key, value } => DocumentView {
            metadata: metadata::entered(s.metadata, key, value, id),
            ..t
        },
    }
}

/// The document after a list of remote operations, in order.
pub open spec fn applied_all(s: DocumentView, ops: Seq<OperationView>) -> DocumentView
    decreases ops.len(),
{
    if ops.len() == 0 {
        s
    } else {
        applied(applied_all(s, ops.drop_last()), ops.last())
    }
}

/// The document after an operation out of a stored copy of it. There the
/// strokes stand in their order, so that each goes on top of those before it.
pub open spec fn loaded(s: DocumentView, op: OperationView) -> DocumentView {
    match op {
        OperationView::InsertStroke { id, origin_left, origin_right, data, properties } => {
            let t = witnessed(s, id);
            if s.strokes.contains_key(id) || s.items.len() >= MAX_STROKES {
                t
            } else {
                DocumentView {
                    items: s.items.push(fresh_item(id, origin_left, origin_right)),
                    strokes: s.strokes.insert(id, StrokeView { data, properties }),
                    ..t
                }
            }
        },
        _ => applied(s, op),
    }
}

/// The document after the operations of a stored copy of it, in order.
pub open spec fn loaded_all(s: DocumentView, ops: Seq<OperationView>) -> DocumentView
    decreases ops.len(),
{
    if ops.len() == 0 {
        s
    } else {
        loaded(loaded_all(s, ops.drop_last()), ops.last())
    }
}

/// The strokes after one property of one of them has been updated.
pub open spec fn restyled(
    strokes: Map<OpId, StrokeView>,
    target: OpId,
    update: PropertyUpdate,
    id: OpId,
) -> Map<OpId, StrokeView> {
    strokes.insert(
        target,
        StrokeView {
            properties: operation::updated(strokes[target].properties, update, id),
            ..strokes[target]
        },
    )
}

/// The path as it is stored when it is drawn.
pub open spec fn tidied(
    data: StrokeDataView,
    d: spec_fn(StrokePoint, StrokePoint, StrokePoint) -> F32,
    epsilon: F32,
) -> StrokeDataView {
    if F32::zero().below(epsilon) && data.points.len() > 2 {
        simplify::simplified_data(data, d, epsilon)
    } else {
        data
    }
}

/// The undo stack after one more stroke: the oldest gives way at the limit.
pub open spec fn remembered(undo: Seq<OpId>, id: OpId) -> Seq<OpId> {
    if undo.len() >= MAX_UNDO_DEPTH {
        undo.remove(0).push(id)
    } else {
        undo.push(id)
    }
}

/// The document after a local stroke with the given, already tidied, path.
pub open spec fn inserted(s: DocumentView, data: StrokeDataView, properties: StrokeProperties) -> DocumentView {
    let id = next_id(s);
    let origin_left = top(s.items);
    DocumentView {
        items: rga::integrated(s.items, fresh_item(id, origin_left, OpId::zero())),
        strokes: s.strokes.insert(id, StrokeView { data, properties }),
        pending: s.pending.push(
            OperationView::InsertStroke { id, origin_left, origin_right: OpId::zero(), data, properties },
        ),
        undo: remembered(s.undo, id),
        ..ticked(s)
    }
}

/// Whether a stroke is there and has not been deleted.
pub open spec fn deletable(s: DocumentView, target: OpId) -> bool {
    s.strokes.contains_key(target) && rga::has_id(s.items, target) && s.items[rga::position(
        s.items,
        target,
    )].visible()
}

/// The document after a local deletion. An unknown stroke changes nothing; one
/// that is deleted already still uses up an identifier.
pub open spec fn deleted(s: DocumentView, target: OpId) -> DocumentView {
    if !s.strokes.contains_key(target) {
        s
    } else if !deletable(s, target) {
        ticked(s)
    } else {
        DocumentView {
            items: rga::tombstoned(s.items, target, next_id(s)),
            pending: s.pending.push(OperationView::DeleteStroke { id: next_id(s), target }),
            ..ticked(s)
        }
    }
}

/// The document after a local property change. One for an unknown stroke
/// still uses up an identifier.
pub open spec fn property_changed(s: DocumentView, target: OpId, update: PropertyUpdate) -> DocumentView {
    if s.strokes.contains_key(target) {
        DocumentView {
            strokes: restyled(s.strokes, target, update, next_id(s)),
            pending: s.pending.push(OperationView::UpdateProperty { id: next_id(s), target, update }),
            ..ticked(s)
        }
    } else {
        ticked(s)
    }
}

/// The document after a local metadata change.
pub open spec fn metadata_changed(s: DocumentView, key: MetadataKeyView, value: MetadataValueView) -> DocumentView {
    DocumentView {
        metadata: metadata::entered(s.metadata, key, Some(value), next_id(s)),
        pending: s.pending.push(OperationView::UpdateMetadata { id: next_id(s), key, value: Some(value) }),
        ..ticked(s)
    }
}

/// The document without the newest entry of its undo stack.
pub open spec fn popped(s: DocumentView) -> DocumentView {
    DocumentView { undo: s.undo.drop_last(), ..s }
}

/// The document after an undo, and the stroke that it deleted: strokes that
/// are gone already are skipped.
pub open spec fn undone(s: DocumentView) -> (DocumentView, Option<OpId>)
    decreases s.undo.len(),
{
    if s.undo.len() == 0 {
        (s, None)
    } else {
        let id = s.undo.last();
        if deletable(popped(s), id) {
            (deleted(popped(s), id), Some(id))
        } else {
            undone(deleted(popped(s), id))
        }
    }
}

/// Whether an undo has identifiers left for all the strokes that it skips.
pub open spec fn undo_fits(s: DocumentView) -> bool
    decreases s.undo.len(),
{
    s.undo.len() == 0 || {
        let id = s.undo.last();
        &&& s.strokes.contains_key(id) ==> s.clock < u64::MAX
        &&& deletable(popped(s), id) || undo_fits(deleted(popped(s), id))
    }
}

/// The document after a stroke of it has been simplified.
pub open spec fn resimplified(
    s: DocumentView,
    target: OpId,
    d: spec_fn(StrokePoint, StrokePoint, StrokePoint) -> F32,
    epsilon: F32,
) -> DocumentView {
    if s.strokes.contains_key(target) {
        DocumentView {
            strokes: s.strokes.insert(
                target,
                StrokeView {
                    data: simplify::simplified_data(s.strokes[target].data, d, epsilon),
                    ..s.strokes[target]
                },
            ),
            ..s
        }
    } else {
        s
    }
}

/// The stroke identifiers, bottom to top.
pub open spec fn visible_ids(items: Seq<RgaItem>) -> Seq<OpId> {
    rga::visible(items).map_values(|item: RgaItem| item.content)
}

/// One replica of a whiteboard.
#[derive(Debug)]
pub struct Document {
    /// The actor of this replica.
    pub local_actor: ActorId,
    /// The Lamport clock.
    pub clock: LamportTs,
    /// What has been seen from each actor.
    pub version: VectorClock,
    /// The z-order of the strokes.
    pub stroke_order: RgaArray,
    /// The strokes.
    pub stroke_store: StrokeStore,
    /// Canvas metadata.
    pub metadata: LwwMap<MetadataKey, MetadataValue>,
    /// Local operations not yet sent.
    pub pending_ops: Vec<Operation>,
    /// What all known peers have confirmed to have seen.
    pub min_version: VectorClock,
    /// The number of garbage collections run.
    pub gc_generation: u64,
    /// The strokes of this session, for undo.
    pub undo_stack: Vec<StrokeId>,
    /// The tolerance at which drawn strokes are simplified; 0 turns that off.
    pub simplify_epsilon: F32,
}

impl View for Document {
    type V = DocumentView;

    open spec fn view(&self) -> DocumentView {
        DocumentView {
            actor: self.local_actor,
            clock: self.clock.0,
            version: self.version@,
            items: self.stroke_order@,
            strokes: self.stroke_store@,
            metadata: self.metadata@,
            pending: operation::views(self.pending_ops@),
            min_version: self.min_version@,
            gc_generation: self.gc_generation,
            undo: self.undo_stack@,
            simplify_epsilon: self.simplify_epsilon,
        }
    }
}

/// Counts of a document.
#[derive(Debug, Clone, Copy, PartialEq, Eq, Structural)]
pub struct DocumentStats {
    pub total_items: usize,
    pub visible_items: usize,
    pub tombstones: usize,
    pub tombstone_ratio: F64,
    pub gc_generation: u64,
    pub pending_ops: usize,
}

proof fn lemma_views_push(ops: Seq<Operation>, op: Operation)
    ensures
        operation::views(ops.push(op)) == operation::views(ops).push(op@),
{
    assert(operation::views(ops.push(op)) =~= operation::views(ops).push(op@));
}

/// A deletion moves no item and changes no identifier or origin.
pub proof fn lemma_tombstoned_ids(items: Seq<RgaItem>, target: OpId, at: OpId)
    ensures
        rga::tombstoned(items, target, at).len() == items.len(),
        forall|i: int|
            0 <= i < items.len() ==> (#[trigger] rga::tombstoned(items, target, at)[i]).id == items[i].id
                && rga::tombstoned(items, target, at)[i].content == items[i].content
                && rga::tombstoned(items, target, at)[i].origin_left == items[i].origin_left,
        forall|id: OpId| rga::has_id(items, id) <==> #[trigger] rga::has_id(rga::tombstoned(items, target, at), id),
{
    let other = rga::tombstoned(items, target, at);
    assert forall|id: OpId| rga::has_id(items, id) <==> #[trigger] rga::has_id(other, id) by {
        if rga::has_id(items, id) {
            assert(other[rga::position(items, id)].id == id);
        }
        if rga::has_id(other, id) {
            assert(items[rga::position(other, id)].id == id);
        }
    }
}

/// Integration adds the identifier of the item and no other.
pub proof fn lemma_integrated_ids(items: Seq<RgaItem>, item: RgaItem)
    requires
        rga::distinct_ids(items),
    ensures
        rga::distinct_ids(rga::integrated(items, item)),
        forall|id: OpId|
            #[trigger] rga::has_id(rga::integrated(items, item), id) <==> rga::has_id(items, id) || id == item.id,
        forall|i: int|
            0 <= i < rga::integrated(items, item).len() ==> (#[trigger] rga::integrated(items, item)[i]) == item
                || items.contains(rga::integrated(items, item)[i]),
{
    let more = rga::integrated(items, item);
    rga::lemma_insert_position(items, item);
    if rga::has_id(items, item.id) {
        assert(more == items);
    } else {
        let at = rga::insert_position(items, item);
        crate::convergence::lemma_insert_keeps_positions(items, at, item);
        assert forall|i: int| 0 <= i < more.len() implies (#[trigger] more[i]) == item || items.contains(more[i]) by {
            if i < at {
                assert(items[i] == more[i]);
            } else if i > at {
                assert(items[i - 1] == more[i]);
            }
        }
    }
}

/// A remote operation keeps a document consistent.
pub proof fn lemma_applied_consistent(s: DocumentView, op: OperationView)
    requires
        consistent(s),
    ensures
        consistent(applied(s, op)),
{
    let t = applied(s, op);
    match op {
        OperationView::InsertStroke { id, origin_left, origin_right, data, properties } => {
            if !s.strokes.contains_key(id) && s.items.len() < MAX_STROKES {
                let item = fresh_item(id, origin_left, origin_right);
                lemma_integrated_ids(s.items, item);
                assert forall|i: int| 0 <= i < t.items.len() implies settled(t, #[trigger] t.items[i]) by {
                    if t.items[i] != item {
                        let j = choose|j: int| 0 <= j < s.items.len() && s.items[j] == t.items[i];
                        assert(settled(s, s.items[j]));
                    }
                }
            }
        },
        OperationView::DeleteStroke { id, target } => {
            lemma_tombstoned_ids(s.items, target, id);
            assert forall|i: int| 0 <= i < t.items.len() implies settled(t, #[trigger] t.items[i]) by {
                assert(settled(s, s.items[i]));
            }
        },
        OperationView::UpdateProperty { id, target, update } => {},
        OperationView::UpdateMetadata { id, key, value } => {},
    }
}

/// An operation out of a stored copy keeps a document consistent.
proof fn lemma_loaded_consistent(s: DocumentView, op: OperationView)
    requires
        consistent(s),
    ensures
        consistent(loaded(s, op)),
{
    let t = loaded(s, op);
    match op {
        OperationView::InsertStroke { id, origin_left, origin_right, data, properties } => {
            if !s.strokes.contains_key(id) && s.items.len() < MAX_STROKES {
                let item = fresh_item(id, origin_left, origin_right);
                assert(!rga::has_id(s.items, id));
                assert forall|i: int| 0 <= i < t.items.len() implies settled(t, #[trigger] t.items[i]) by {
                    if i < s.items.len() {
                        assert(settled(s, s.items[i]));
                    }
                }
                assert forall|x: OpId| rga::has_id(t.items, x) <==> #[trigger] t.strokes.contains_key(x) by {
                    if rga::has_id(s.items, x) {
                        assert(t.items[rga::position(s.items, x)].id == x);
                    }
                    if rga::has_id(t.items, x) && x != id {
                        assert(s.items[rga::position(t.items, x)].id == x);
                    }
                    assert(t.items[s.items.len() as int].id == id);
                }
                assert forall|i: int, j: int|
                    0 <= i < t.items.len() && 0 <= j < t.items.len() && (#[trigger] t.items[i]).id == (
                    #[trigger] t.items[j]).id implies i == j by {
                    if i < s.items.len() && j < s.items.len() {
                        assert(s.items[i].id == s.items[j].id);
                    } else if i < s.items.len() {
                        assert(s.items[i].id == id);
                    } else if j < s.items.len() {
                        assert(s.items[j].id == id);
                    }
                }
            }
        },
        _ => {
            lemma_applied_consistent(s, op);
        },
    }
}

/// A drawn stroke keeps the document consistent and lands on top.
pub proof fn lemma_inserted(s: DocumentView, data: StrokeDataView, properties: StrokeProperties)
    requires
        consistent(s),
        s.clock < u64::MAX,
    ensures
        consistent(inserted(s, data, properties)),
        rga::visible(s.items).len() == 0 || top(s.items) != OpId::zero() ==> visible_ids(
            inserted(s, data, properties).items,
        ) == visible_ids(s.items).push(next_id(s)),
{
    let id = next_id(s);
    let item = fresh_item(id, top(s.items), OpId::zero());
    let t = inserted(s, data, properties);
    assert(!rga::has_id(s.items, id)) by {
        if rga::has_id(s.items, id) {
            let i = rga::position(s.items, id);
            assert(settled(s, s.items[i]));
        }
    }
    lemma_integrated_ids(s.items, item);
    assert forall|i: int| 0 <= i < t.items.len() implies settled(t, #[trigger] t.items[i]) by {
        if t.items[i] != item {
            let j = choose|j: int| 0 <= j < s.items.len() && s.items[j] == t.items[i];
            assert(settled(s, s.items[j]));
        }
    }
    rga::lemma_insert_position(s.items, item);
    let at = rga::insert_position(s.items, item);
    if rga::visible(s.items).len() == 0 || top(s.items) != OpId::zero() {
        rga::lemma_top(s.items, at, item);
        assert(visible_ids(t.items) =~= visible_ids(s.items).push(id));
    }
}

impl Document {
    /// The parts agree with each other.
    pub open spec fn wf(&self) -> bool {
        &&& self.stroke_order.wf()
        &&& self.metadata.wf()
        &&& consistent(self@)
    }

    pub fn new(actor: ActorId) -> (doc: Self)
        ensures
            doc.wf(),
            doc@ == blank(actor),
            doc.metadata.entries@.len() == 0,
    {
        let doc = Document {
            local_actor: actor,
            clock: LamportTs(0),
            version: VectorClock::new(),
            stroke_order: RgaArray::new(),
            stroke_store: StrokeStore::new(),
            metadata: LwwMap::new(),
            pending_ops: Vec::new(),
            min_version: VectorClock::new(),
            gc_generation: 0,
            undo_stack: Vec::new(),
            simplify_epsilon: F32::half(),
        };
        proof {
            assert(doc@ =~= blank(actor));
        }
        doc
    }

    /// Hands over the local operations gathered since the last call.
    pub fn take_pending_ops(&mut self) -> (ops: Vec<Operation>)
        ensures
            operation::views(ops@) == old(self)@.pending,
            final(self)@ == (DocumentView { pending: Seq::empty(), ..old(self)@ }),
            old(self).wf() ==> final(self).wf(),
    {
        let mut ops: Vec<Operation> = Vec::new();
        std::mem::swap(&mut ops, &mut self.pending_ops);
        proof {
            assert(self@ =~= (DocumentView { pending: Seq::empty(), ..old(self)@ }));
        }
        ops
    }

    /// Gives out the identifier of the next local operation.
    pub fn next_op_id(&mut self) -> (id: OpId)
        requires
            old(self).wf(),
            old(self)@.clock < u64::MAX,
        ensures
            final(self).wf(),
            id == next_id(old(self)@),
            final(self)@ == ticked(old(self)@),
            final(self).undo_stack == old(self).undo_stack,
    {
        let ts = self.clock.tick();
        let id = OpId { lamport: ts, actor: self.local_actor };
        self.version.advance(self.local_actor, ts.0);
        proof {
            assert(self@ =~= ticked(old(self)@));
        }
        id
    }

    /// Draws a stroke on top of all others.
    ///
    /// Where `simplify_epsilon` is above 0 the path is simplified first, by
    /// the given distance function, so that memory and updates stay small.
    pub fn insert_stroke<D: Fn(StrokePoint, StrokePoint, StrokePoint) -> F32>(
        &mut self,
        data: StrokeData,
        properties: StrokeProperties,
        distance: &D,
    ) -> (id: StrokeId)
        requires
            old(self).wf(),
            old(self)@.clock < u64::MAX,
            old(self)@.items.len() < usize::MAX,
            simplify::well_defined(*distance),
        ensures
            final(self).wf(),
            id == next_id(old(self)@),
            final(self)@ == inserted(
                old(self)@,
                tidied(data@, simplify::measure(*distance), old(self)@.simplify_epsilon),
                properties,
            ),
            rga::visible(old(self)@.items).len() == 0 || top(old(self)@.items) != OpId::zero() ==> visible_ids(
                final(self)@.items,
            ) == visible_ids(old(self)@.items).push(id),
    {
        let mut data = data;
        let ghost drawn = data@;
        if F32::zero().less(self.simplify_epsilon) && data.points.len() > 2 {
            proof {
                simplify::lemma_halts(data@.points, simplify::measure(*distance), self.simplify_epsilon);
            }
            data.simplify(self.simplify_epsilon, distance);
        }
        let id = self.next_op_id();
        let shown = self.stroke_order.visible_items();
        let origin_left = if shown.len() == 0 {
            OpId::zero()
        } else {
            shown[shown.len() - 1].id
        };
        let item = RgaItem { id, origin_left, origin_right: OpId::zero(), content: id, state: ItemState::Active };
        self.stroke_order.integrate(item);
        self.stroke_store.insert(id, data.clone(), properties);
        let op = Operation::InsertStroke { id, origin_left, origin_right: OpId::zero(), data, properties };
        proof {
            lemma_views_push(self.pending_ops@, op);
        }
        self.pending_ops.push(op);
        if self.undo_stack.len() >= MAX_UNDO_DEPTH {
            self.undo_stack.remove(0);
        }
        self.undo_stack.push(id);
        proof {
            let s = old(self)@;
            assert(self@ =~= inserted(
                s,
                tidied(drawn, simplify::measure(*distance), s.simplify_epsilon),
                properties,
            ));
            lemma_inserted(s, op@->InsertStroke_data, properties);
        }
        id
    }

    /// Deletes a stroke, and says whether it was there and visible.
    pub fn delete_stroke(&mut self, target: StrokeId) -> (changed: bool)
        requires
            old(self).wf(),
            old(self)@.strokes.contains_key(target) ==> old(self)@.clock < u64::MAX,
        ensures
            final(self).wf(),
            final(self)@ == deleted(old(self)@, target),
            changed == deletable(old(self)@, target),
    {
        if !self.stroke_store.contains(&target) {
            return false;
        }
        let id = self.next_op_id();
        let changed = self.stroke_order.mark_deleted(target, id);
        if changed {
            let op = Operation::DeleteStroke { id, target };
            proof {
                lemma_views_push(self.pending_ops@, op);
            }
            self.pending_ops.push(op);
        }
        proof {
            let s = old(self)@;
            lemma_tombstoned_ids(s.items, target, id);
            assert(self@ =~= deleted(s, target));
            assert forall|i: int| 0 <= i < self@.items.len() implies settled(self@, #[trigger] self@.items[i]) by {
                assert(settled(s, s.items[i]));
            }
        }
        changed
    }

    fn update_property(&mut self, target: StrokeId, update: PropertyUpdate) -> (found: bool)
        requires
            old(self).wf(),
            old(self)@.clock < u64::MAX,
        ensures
            final(self).wf(),
            final(self)@ == property_changed(old(self)@, target, update),
            found == old(self)@.strokes.contains_key(target),
    {
        let id = self.next_op_id();
        let found = match self.stroke_store.get_mut(&target) {
            Some((_, properties)) => {
                update.apply_to(properties, id);
                true
            },
            None => false,
        };
        if found {
            let op = Operation::UpdateProperty { id, target, update };
            proof {
                lemma_views_push(self.pending_ops@, op);
            }
            self.pending_ops.push(op);
        }
        proof {
            assert(self@ =~= property_changed(old(self)@, target, update));
        }
        found
    }

    /// Changes the color of a stroke, and says whether it is known.
    pub fn update_color(&mut self, target: StrokeId, color: u32) -> (found: bool)
        requires
            old(self).wf(),
            old(self)@.clock < u64::MAX,
        ensures
            final(self).wf(),
            final(self)@ == property_changed(old(self)@, target, PropertyUpdate::Color(color)),
            found == old(self)@.strokes.contains_key(target),
    {
        self.update_property(target, PropertyUpdate::Color(color))
    }

    /// Changes the width of a stroke, and says whether it is known.
    pub fn update_stroke_width(&mut self, target: StrokeId, width: F32) -> (found: bool)
        requires
            old(self).wf(),
            old(self)@.clock < u64::MAX,
        ensures
            final(self).wf(),
            final(self)@ == property_changed(old(self)@, target, PropertyUpdate::StrokeWidth(width)),
            found == old(self)@.strokes.contains_key(target),
    {
        self.update_property(target, PropertyUpdate::StrokeWidth(width))
    }

    /// Changes the opacity of a stroke, and says whether it is known.
    pub fn update_opacity(&mut self, target: StrokeId, opacity: F32) -> (found: bool)
        requires
            old(self).wf(),
            old(self)@.clock < u64::MAX,
        ensures
            final(self).wf(),
            final(self)@ == property_changed(old(self)@, target, PropertyUpdate::Opacity(opacity)),
            found == old(self)@.strokes.contains_key(target),
    {
        self.update_property(target, PropertyUpdate::Opacity(opacity))
    }

    /// Changes the transform of a stroke, and says whether it is known.
    pub fn update_transform(&mut self, target: StrokeId, transform: Transform2D) -> (found: bool)
        requires
            old(self).wf(),
            old(self)@.clock < u64::MAX,
        ensures
            final(self).wf(),
            final(self)@ == property_changed(old(self)@, target, PropertyUpdate::Transform(transform)),
            found == old(self)@.strokes.contains_key(target),
    {
        self.update_property(target, PropertyUpdate::Transform(transform))
    }

    /// Sets a metadata key.
    pub fn set_metadata(&mut self, key: MetadataKey, value: MetadataValue)
        requires
            old(self).wf(),
            old(self)@.clock < u64::MAX,
        ensures
            final(self).wf(),
            final(self)@ == metadata_changed(old(self)@, key@, value@),
    {
        proof {
            metadata::lemma_key_equality();
        }
        let ghost k = key@;
        let ghost v = value@;
        let id = self.next_op_id();
        self.metadata.set(key.clone(), value.clone(), id);
        let op = Operation::UpdateMetadata { id, key, value: Some(value) };
        proof {
            lemma_views_push(self.pending_ops@, op);
        }
        self.pending_ops.push(op);
        proof {
            assert(self@ =~= metadata_changed(old(self)@, k, v));
        }
    }

    /// Applies a remote operation, and names the stroke that it is about.
    ///
    /// Applying an operation again changes nothing. An insertion beyond
    /// [`MAX_STROKES`] is dropped.
    pub fn apply_remote(&mut self, op: Operation) -> (affected: Option<StrokeId>)
        requires
            old(self).wf(),
        ensures
            final(self).wf(),
            final(self)@ == applied(old(self)@, op@),
            affected == op@.target_stroke(),
    {
        let op_id = op.id();
        let ghost ov = op@;
        self.clock.merge(op_id.lamport);
        self.version.advance(op_id.actor, op_id.lamport.0);
        let affected = op.target_stroke();
        proof {
            metadata::lemma_key_equality();
            lemma_applied_consistent(old(self)@, ov);
        }
        match op {
            Operation::InsertStroke { id, origin_left, origin_right, data, properties } => {
                if !self.stroke_store.contains(&id) && self.stroke_order.total_count < MAX_STROKES {
                    let item = RgaItem { id, origin_left, origin_right, content: id, state: ItemState::Active };
                    self.stroke_order.integrate(item);
                    self.stroke_store.insert(id, data, properties);
                }
            },
            Operation::DeleteStroke { id, target } => {
                self.stroke_order.mark_deleted(target, id);
            },
            Operation::UpdateProperty { id, target, update } => {
                match self.stroke_store.get_mut(&target) {
                    Some((_, properties)) => {
                        update.apply_to(properties, id);
                    },
                    None => {},
                }
            },
            Operation::UpdateMetadata { id, key, value } => {
                match value {
                    Some(v) => self.metadata.set(key, v, id),
                    None => self.metadata.delete(key, id),
                }
            },
        }
        proof {
            assert(self@ =~= applied(old(self)@, ov));
        }
        affected
    }

    /// Applies remote operations in order.
    pub fn apply_all(&mut self, ops: Vec<Operation>)
        requires
            old(self).wf(),
        ensures
            final(self).wf(),
            final(self)@ == applied_all(old(self)@, operation::views(ops@)),
    {
        let ghost all = operation::views(ops@);
        let ghost mut done: int = 0;
        for op in it: ops
            invariant
                self.wf(),
                all == operation::views(it.seq()),
                done == it.index(),
                self@ == applied_all(old(self)@, all.take(done)),
        {
            proof {
                assert(all[done] == op@);
                assert(all.take(done + 1).drop_last() =~= all.take(done));
                assert(all.take(done + 1).last() == op@);
                done = done + 1;
            }
            self.apply_remote(op);
        }
        proof {
            assert(all.take(all.len() as int) =~= all);
        }
    }

    /// Takes in an operation out of a stored copy of a document: a stroke goes
    /// on top of all others.
    fn load(&mut self, op: Operation)
        requires
            old(self).wf(),
        ensures
            final(self).wf(),
            final(self)@ == loaded(old(self)@, op@),
    {
        let ghost ov = op@;
        proof {
            lemma_loaded_consistent(old(self)@, ov);
        }
        match op {
            Operation::InsertStroke { id, origin_left, origin_right, data, properties } => {
                self.clock.merge(id.lamport);
                self.version.advance(id.actor, id.lamport.0);
                if !self.stroke_store.contains(&id) && self.stroke_order.total_count < MAX_STROKES {
                    let item = RgaItem { id, origin_left, origin_right, content: id, state: ItemState::Active };
                    self.stroke_order.append(item);
                    self.stroke_store.insert(id, data, properties);
                }
                proof {
                    assert(self@ =~= loaded(old(self)@, ov));
                }
            },
            other => {
                self.apply_remote(other);
            },
        }
    }

    /// Takes in the operations of a stored copy of a document, in order.
    pub(crate) fn load_all(&mut self, ops: Vec<Operation>)
        requires
            old(self).wf(),
        ensures
            final(self).wf(),
            final(self)@ == loaded_all(old(self)@, operation::views(ops@)),
    {
        let ghost all = operation::views(ops@);
        let ghost mut done: int = 0;
        for op in it: ops
            invariant
                self.wf(),
                all == operation::views(it.seq()),
                done == it.index(),
                self@ == loaded_all(old(self)@, all.take(done)),
        {
            proof {
                assert(all[done] == op@);
                assert(all.take(done + 1).drop_last() =~= all.take(done));
                assert(all.take(done + 1).last() == op@);
                done = done + 1;
            }
            self.load(op);
        }
        proof {
            assert(all.take(all.len() as int) =~= all);
        }
    }

    /// Simplifies the path of a stroke of this replica, and says how many
    /// points were dropped; 0 where the stroke is unknown. No operation is
    /// sent: this saves memory here only.
    pub fn simplify_stroke<D: Fn(StrokePoint, StrokePoint, StrokePoint) -> F32>(
        &mut self,
        target: StrokeId,
        epsilon: F32,
        distance: &D,
    ) -> (removed: usize)
        requires
            old(self).wf(),
            simplify::well_defined(*distance),
            old(self)@.strokes.contains_key(target) ==> simplify::halts(
                old(self)@.strokes[target].data.points,
                simplify::measure(*distance),
                epsilon,
            ),
        ensures
            final(self).wf(),
            final(self)@ == resimplified(old(self)@, target, simplify::measure(*distance), epsilon),
            removed == (if old(self)@.strokes.contains_key(target) {
                old(self)@.strokes[target].data.points.len() - final(self)@.strokes[target].data.points.len()
            } else {
                0
            }),
    {
        let removed: usize = match self.stroke_store.get_data_mut(&target) {
            Some(data) => data.simplify(epsilon, distance),
            None => 0,
        };
        proof {
            assert(self@ =~= resimplified(old(self)@, target, simplify::measure(*distance), epsilon));
        }
        removed
    }

    /// Undoes the last stroke drawn here that is still visible, and names it.
    /// `None` where nothing is left to undo.
    pub fn undo_last_stroke(&mut self) -> (undone_id: Option<StrokeId>)
        requires
            old(self).wf(),
            undo_fits(old(self)@),
        ensures
            final(self).wf(),
            (final(self)@, undone_id) == undone(old(self)@),
    {
        while self.undo_stack.len() > 0
            invariant
                self.wf(),
                undo_fits(self@),
                undone(self@) == undone(old(self)@),
            decreases self@.undo.len(),
        {
            let ghost before = self@;
            let id = self.undo_stack.pop().unwrap();
            proof {
                assert(self@ =~= popped(before));
            }
            if self.delete_stroke(id) {
                return Some(id);
            }
        }
        None
    }

    /// The number of strokes that undo can go back over.
    pub fn undo_depth(&self) -> (n: usize)
        ensures
            n == self@.undo.len(),
    {
        self.undo_stack.len()
    }

    /// The visible strokes, bottom to top.
    pub fn visible_stroke_ids(&self) -> (ids: Vec<StrokeId>)
        ensures
            ids@ == visible_ids(self@.items),
    {
        let shown = self.stroke_order.visible_items();
        let mut ids: Vec<StrokeId> = Vec::new();
        let mut i: usize = 0;
        while i < shown.len()
            invariant
                i <= shown@.len(),
                ids@.len() == i,
                forall|j: int| 0 <= j < i ==> #[trigger] ids@[j] == shown@[j].content,
            decreases shown@.len() - i,
        {
            ids.push(shown[i].content);
            i += 1;
        }
        proof {
            assert(ids@ =~= visible_ids(self@.items));
        }
        ids
    }

    /// The path and the properties of a stroke.
    pub fn get_stroke(&self, id: &StrokeId) -> (stroke: Option<(&StrokeData, &StrokeProperties)>)
        ensures
            match stroke {
                Some((data, props)) => self@.strokes.contains_key(*id) && self@.strokes[*id] == (StrokeView {
                    data: data@,
                    properties: *props,
                }),
                None => !self@.strokes.contains_key(*id),
            },
    {
        self.stroke_store.get(id)
    }

    /// Counts of the document; the share of tombstones by the given division.
    pub fn stats<R: Fn(usize, usize) -> F64>(&self, divide: &R) -> (stats: DocumentStats)
        requires
            self.wf(),
            gc::well_defined(*divide),
        ensures
            stats.total_items == self@.items.len(),
            stats.tombstones == rga::tombstones(self@.items),
            stats.visible_items == rga::visible(self@.items).len(),
            stats.tombstone_ratio == gc::ratio(self@, gc::quotient(*divide)),
            stats.gc_generation == self@.gc_generation,
            stats.pending_ops == self@.pending.len(),
    {
        proof {
            rga::lemma_tombstones_visible(self@.items);
        }
        DocumentStats {
            total_items: self.stroke_order.total_count,
            visible_items: self.stroke_order.total_count - self.stroke_order.tombstone_count,
            tombstones: self.stroke_order.tombstone_count,
            tombstone_ratio: self.stroke_order.tombstone_ratio(divide),
            gc_generation: self.gc_generation,
            pending_ops: self.pending_ops.len(),
        }
    }
}

/// The items that are shown: the places of those that have not been deleted,
/// in order, and the stroke of each.
pub proof fn law_shown_strokes_are_those_not_deleted(items: Seq<RgaItem>) -> (at: Seq<int>)
    ensures
        at.len() == visible_ids(items).len(),
        forall|k: int|
            0 <= k < at.len() ==> 0 <= #[trigger] at[k] < items.len() && items[at[k]].state is Active
                && visible_ids(items)[k] == items[at[k]].content,
        forall|k: int, l: int| 0 <= k < l < at.len() ==> #[trigger] at[k] < #[trigger] at[l],
        forall|i: int| 0 <= i < items.len() && (#[trigger] items[i]).state is Active ==> at.contains(i),
    decreases items.len(),
{
    reveal(Seq::filter);
    if items.len() == 0 {
        seq![]
    } else {
        let less = items.drop_last();
        let before = law_shown_strokes_are_those_not_deleted(less);
        let n = items.len() - 1;
        assert(items[n] == items.last());
        assert forall|i: int| 0 <= i < less.len() implies #[trigger] less[i] == items[i] by {}
        if items.last().visible() {
            let at = before.push(n);
            assert(rga::visible(items) =~= rga::visible(less).push(items.last()));
            assert(visible_ids(items) =~= visible_ids(less).push(items.last().content));
            assert forall|i: int| 0 <= i < items.len() && (#[trigger] items[i]).state is Active implies at.contains(i) by {
                if i < n {
                    assert(less[i] == items[i]);
                    assert(before.contains(i));
                    let k = choose|k: int| 0 <= k < before.len() && before[k] == i;
                    assert(at[k] == i);
                } else {
                    assert(at[before.len() as int] == i);
                }
            }
            assert forall|k: int| 0 <= k < at.len() implies 0 <= #[trigger] at[k] < items.len()
                && items[at[k]].state is Active && visible_ids(items)[k] == items[at[k]].content by {
                if k < before.len() {
                    assert(at[k] == before[k]);
                    assert(less[before[k]] == items[before[k]]);
                }
            }
            at
        } else {
            assert(rga::visible(items) =~= rga::visible(less));
            assert(visible_ids(items) =~= visible_ids(less));
            assert forall|i: int| 0 <= i < items.len() && (#[trigger] items[i]).state is Active implies before.contains(
                i,
            ) by {
                assert(less[i] == items[i]);
            }
            assert forall|k: int| 0 <= k < before.len() implies 0 <= #[trigger] before[k] < items.len()
                && items[before[k]].state is Active && visible_ids(items)[k] == items[before[k]].content by {
                assert(less[before[k]] == items[before[k]]);
            }
            before
        }
    }
}

/// A drawn stroke gets the next identifier of the actor, is stored and sent with
/// its path and properties as given, is put on the topmost stroke that is shown,
/// and can be undone. No other stroke is touched.
pub proof fn law_drawn_strokes_are_stored_and_sent(
    s: DocumentView,
    data: StrokeDataView,
    properties: StrokeProperties,
)
    requires
        consistent(s),
        s.clock < u64::MAX,
    ensures
        ({
            let t = inserted(s, data, properties);
            let id = OpId { lamport: LamportTs((s.clock + 1) as u64), actor: s.actor };
            let below = if exists|i: int| 0 <= i < s.items.len() && (#[trigger] s.items[i]).state is Active {
                s.items[choose|i: int|
                    0 <= i < s.items.len() && (#[trigger] s.items[i]).state is Active && forall|j: int|
                        i < j < s.items.len() ==> !((#[trigger] s.items[j]).state is Active)].id
            } else {
                OpId { lamport: LamportTs(0), actor: ActorId(0) }
            };
            &&& next_id(s) == id
            &&& !s.strokes.contains_key(id)
            &&& t.strokes.contains_key(id) && t.strokes[id].data == data && t.strokes[id].properties == properties
            &&& forall|other: OpId|
                other != id ==> (#[trigger] t.strokes.contains_key(other) <==> s.strokes.contains_key(other))
            &&& forall|other: OpId|
                other != id && #[trigger] t.strokes.contains_key(other) ==> t.strokes[other] == s.strokes[other]
            &&& t.pending.len() == s.pending.len() + 1
            &&& t.pending.drop_last() == s.pending
            &&& t.pending.last() == OperationView::InsertStroke {
                id,
                origin_left: below,
                origin_right: OpId { lamport: LamportTs(0), actor: ActorId(0) },
                data,
                properties,
            }
            &&& t.clock == s.clock + 1
            &&& t.undo.len() > 0 && t.undo.last() == id
            &&& s.undo.len() < 200 ==> t.undo.drop_last() == s.undo
            &&& s.undo.len() == 200 ==> t.undo.drop_last() == s.undo.skip(1)
            &&& t.metadata == s.metadata && t.actor == s.actor && t.min_version == s.min_version
            &&& t.simplify_epsilon == s.simplify_epsilon && t.gc_generation == s.gc_generation
        }),
{
    let t = inserted(s, data, properties);
    let id = next_id(s);
    if s.strokes.contains_key(id) {
        assert(rga::has_id(s.items, id));
        let i = rga::position(s.items, id);
        assert(settled(s, s.items[i]));
    }
    assert(t.pending.drop_last() =~= s.pending);
    if s.undo.len() >= MAX_UNDO_DEPTH {
        assert(t.undo.drop_last() =~= s.undo.skip(1));
    } else {
        assert(t.undo.drop_last() =~= s.undo);
    }
    let at = law_shown_strokes_are_those_not_deleted(s.items);
    rga::lemma_tombstones_visible(s.items);
    lemma_top_is_last(s.items, at);
}

proof fn lemma_top_is_last(items: Seq<RgaItem>, at: Seq<int>)
    requires
        at.len() == visible_ids(items).len(),
        forall|k: int|
            0 <= k < at.len() ==> 0 <= #[trigger] at[k] < items.len() && items[at[k]].state is Active
                && visible_ids(items)[k] == items[at[k]].content,
        forall|k: int, l: int| 0 <= k < l < at.len() ==> #[trigger] at[k] < #[trigger] at[l],
        forall|i: int| 0 <= i < items.len() && (#[trigger] items[i]).state is Active ==> at.contains(i),
    ensures
        top(items) == if exists|i: int| 0 <= i < items.len() && (#[trigger] items[i]).state is Active {
            items[choose|i: int|
                0 <= i < items.len() && (#[trigger] items[i]).state is Active && forall|j: int|
                    i < j < items.len() ==> !((#[trigger] items[j]).state is Active)].id
        } else {
            OpId::zero()
        },
{
    if at.len() == 0 {
        assert forall|i: int| 0 <= i < items.len() implies !((#[trigger] items[i]).state is Active) by {
            if items[i].state is Active {
                assert(at.contains(i));
            }
        }
    } else {
        let last = at[at.len() - 1];
        assert(items[last].state is Active);
        assert forall|j: int| last < j < items.len() implies !((#[trigger] items[j]).state is Active) by {
            if items[j].state is Active {
                assert(at.contains(j));
                let k = choose|k: int| 0 <= k < at.len() && at[k] == j;
                assert(at[k] <= last);
            }
        }
        let i = choose|i: int|
            0 <= i < items.len() && (#[trigger] items[i]).state is Active && forall|j: int|
                i < j < items.len() ==> !((#[trigger] items[j]).state is Active);
        assert(i == last) by {
            if i < last {
                assert(!(items[last].state is Active));
            } else if last < i {
                assert(!(items[i].state is Active));
            }
        }
        lemma_visible_last(items, last);
    }
}

proof fn lemma_visible_last(items: Seq<RgaItem>, last: int)
    requires
        0 <= last < items.len(),
        items[last].state is Active,
        forall|j: int| last < j < items.len() ==> !((#[trigger] items[j]).state is Active),
    ensures
        rga::visible(items).len() > 0,
        rga::visible(items).last() == items[last],
    decreases items.len(),
{
    reveal(Seq::filter);
    if last < items.len() - 1 {
        let less = items.drop_last();
        assert(!(items[items.len() - 1].state is Active));
        assert(less[last] == items[last]);
        assert forall|j: int| last < j < less.len() implies !((#[trigger] less[j]).state is Active) by {
            assert(less[j] == items[j]);
        }
        lemma_visible_last(less, last);
    }
}

/// A path is stored as it is drawn where simplification is off or it has two
/// points or fewer; otherwise it is simplified with the tolerance in force.
pub proof fn law_paths_are_simplified_when_drawn(
    data: StrokeDataView,
    d: spec_fn(StrokePoint, StrokePoint, StrokePoint) -> F32,
    epsilon: F32,
)
    requires
        data.points.len() <= usize::MAX,
    ensures
        !F32::zero().below(epsilon) || data.points.len() <= 2 ==> tidied(data, d, epsilon) == data,
        F32::zero().below(epsilon) ==> tidied(data, d, epsilon).points == simplify::simplified(data.points, d, epsilon),
        tidied(data, d, epsilon).tool == data.tool,
        data.bounds == crate::stroke::bounds_of(data.points) ==> tidied(data, d, epsilon).bounds
            == crate::stroke::bounds_of(tidied(data, d, epsilon).points),
{
    simplify::law_simplified_strokes_keep_their_tool(data, d, epsilon);
    if data.points.len() <= 2 {
        simplify::law_short_paths_stay(data.points, d, epsilon);
    }
}

/// A stroke can be deleted where it is stored and shown.
pub proof fn law_shown_strokes_can_be_deleted(s: DocumentView, target: OpId)
    requires
        consistent(s),
    ensures
        deletable(s, target) <==> s.strokes.contains_key(target) && exists|i: int|
            0 <= i < s.items.len() && (#[trigger] s.items[i]).id == target && s.items[i].state is Active,
{
    if exists|i: int| 0 <= i < s.items.len() && (#[trigger] s.items[i]).id == target && s.items[i].state is Active {
        let i = choose|i: int|
            0 <= i < s.items.len() && (#[trigger] s.items[i]).id == target && s.items[i].state is Active;
        rga::lemma_position(s.items, i);
    }
}

/// A deletion marks the item of the stroke, if it is shown, as deleted by the
/// next operation, and sends that operation. No other item is touched, none is
/// moved, and no stroke is forgotten. An unknown stroke changes nothing.
pub proof fn law_deleting_marks_one_item(s: DocumentView, target: OpId)
    requires
        consistent(s),
        s.clock < u64::MAX,
    ensures
        ({
            let t = deleted(s, target);
            let id = OpId { lamport: LamportTs((s.clock + 1) as u64), actor: s.actor };
            let shown = exists|i: int|
                0 <= i < s.items.len() && (#[trigger] s.items[i]).id == target && s.items[i].state is Active;
            &&& !s.strokes.contains_key(target) ==> t == s
            &&& s.strokes.contains_key(target) ==> t.clock == s.clock + 1
            &&& t.items.len() == s.items.len()
            &&& forall|i: int|
                0 <= i < s.items.len() ==> (#[trigger] t.items[i]) == if s.items[i].id == target
                    && s.items[i].state is Active {
                    RgaItem { state: ItemState::Tombstone { deleted_at: id }, ..s.items[i] }
                } else {
                    s.items[i]
                }
            &&& t.pending == if shown {
                s.pending.push(OperationView::DeleteStroke { id, target })
            } else {
                s.pending
            }
            &&& t.strokes == s.strokes && t.metadata == s.metadata && t.undo == s.undo && t.actor == s.actor
        }),
{
    let t = deleted(s, target);
    law_shown_strokes_can_be_deleted(s, target);
    assert forall|i: int| 0 <= i < s.items.len() && (#[trigger] s.items[i]).id == target implies rga::position(
        s.items,
        target,
    ) == i && s.strokes.contains_key(target) by {
        rga::lemma_position(s.items, i);
        assert(rga::has_id(s.items, target));
    }
}

/// A change of one property of a stroke sets that property, where it is later
/// than what set it last, and is sent. The other properties, the path, the order
/// and the other strokes stay.
pub proof fn law_restyling_sets_one_property(s: DocumentView, target: OpId, update: PropertyUpdate)
    requires
        s.clock < u64::MAX,
        s.strokes.contains_key(target),
    ensures
        ({
            let t = property_changed(s, target, update);
            let id = OpId { lamport: LamportTs((s.clock + 1) as u64), actor: s.actor };
            &&& t.items == s.items && t.metadata == s.metadata && t.undo == s.undo
            &&& t.clock == s.clock + 1
            &&& t.pending == s.pending.push(OperationView::UpdateProperty { id, target, update })
            &&& t.strokes.dom() == s.strokes.dom()
            &&& forall|other: OpId| other != target ==> #[trigger] t.strokes[other] == s.strokes[other]
            &&& t.strokes[target].data == s.strokes[target].data
            &&& sets_one_property(s.strokes[target].properties, t.strokes[target].properties, update, id)
        }),
{
    let t = property_changed(s, target, update);
    assert(t.strokes.dom() =~= s.strokes.dom());
    law_one_property_is_set(s.strokes[target].properties, update, next_id(s));
}

/// Whether an operation is later than another.
pub open spec fn later(a: OpId, b: OpId) -> bool {
    a.lamport.0 > b.lamport.0 || (a.lamport.0 == b.lamport.0 && a.actor.0 > b.actor.0)
}

/// Whether properties have changed in the one that is updated, and in that only
/// if the update is later than what set it last.
pub open spec fn sets_one_property(
    was: StrokeProperties,
    now: StrokeProperties,
    update: PropertyUpdate,
    id: OpId,
) -> bool {
    match update {
        PropertyUpdate::Color(v) => {
            &&& now.stroke_width == was.stroke_width && now.opacity == was.opacity && now.transform == was.transform
            &&& later(id, was.color.timestamp) ==> now.color.value == v && now.color.timestamp == id
            &&& !later(id, was.color.timestamp) ==> now.color == was.color
        },
        PropertyUpdate::StrokeWidth(v) => {
            &&& now.color == was.color && now.opacity == was.opacity && now.transform == was.transform
            &&& later(id, was.stroke_width.timestamp) ==> now.stroke_width.value == v && now.stroke_width.timestamp == id
            &&& !later(id, was.stroke_width.timestamp) ==> now.stroke_width == was.stroke_width
        },
        PropertyUpdate::Opacity(v) => {
            &&& now.color == was.color && now.stroke_width == was.stroke_width && now.transform == was.transform
            &&& later(id, was.opacity.timestamp) ==> now.opacity.value == v && now.opacity.timestamp == id
            &&& !later(id, was.opacity.timestamp) ==> now.opacity == was.opacity
        },
        PropertyUpdate::Transform(v) => {
            &&& now.color == was.color && now.stroke_width == was.stroke_width && now.opacity == was.opacity
            &&& later(id, was.transform.timestamp) ==> now.transform.value == v && now.transform.timestamp == id
            &&& !later(id, was.transform.timestamp) ==> now.transform == was.transform
        },
    }
}

/// An update of properties sets the one that it names, if it is later than what
/// set that one last, and no other.
pub proof fn law_one_property_is_set(properties: StrokeProperties, update: PropertyUpdate, id: OpId)
    ensures
        sets_one_property(properties, operation::updated(properties, update, id), update, id),
{
    crate::stroke::law_later_write_wins(properties.color, 0u32, id);
    crate::stroke::law_later_write_wins(properties.stroke_width, F32::zero(), id);
    crate::stroke::law_later_write_wins(properties.opacity, F32::zero(), id);
    crate::stroke::law_later_write_wins(properties.transform, properties.transform.value, id);
}

/// A local change of metadata is always later than what was written before: the
/// key has the new value afterwards, written by the next operation, which is
/// sent. The other keys stay.
pub proof fn law_describing_sets_one_key(s: DocumentView, key: MetadataKeyView, value: MetadataValueView)
    requires
        consistent(s),
        s.clock < u64::MAX,
    ensures
        ({
            let t = metadata_changed(s, key, value);
            let id = OpId { lamport: LamportTs((s.clock + 1) as u64), actor: s.actor };
            &&& t.metadata.contains_key(key)
            &&& t.metadata[key].value == Some(value) && t.metadata[key].timestamp == id
            &&& forall|other: MetadataKeyView|
                other != key ==> (#[trigger] t.metadata.contains_key(other) <==> s.metadata.contains_key(other))
            &&& forall|other: MetadataKeyView|
                other != key && #[trigger] t.metadata.contains_key(other) ==> t.metadata[other] == s.metadata[other]
            &&& t.pending == s.pending.push(OperationView::UpdateMetadata { id, key, value: Some(value) })
            &&& t.items == s.items && t.strokes == s.strokes && t.undo == s.undo && t.clock == s.clock + 1
        }),
{
    if s.metadata.contains_key(key) {
        assert(known(s, s.metadata[key].timestamp));
        crate::stroke::law_later_write_wins(s.metadata[key], Some(value), next_id(s));
    }
}

/// What a remote insertion does: a stroke that is not there yet comes into the
/// document with its path, properties and origins, shown, and the order of the
/// others stays. One that is there changes nothing, nor does one beyond a
/// hundred thousand.
pub proof fn law_remote_strokes_come_in(
    s: DocumentView,
    id: OpId,
    origin_left: OpId,
    origin_right: OpId,
    data: StrokeDataView,
    properties: StrokeProperties,
) -> (at: int)
    requires
        consistent(s),
    ensures
        ({
            let t = applied(s, OperationView::InsertStroke { id, origin_left, origin_right, data, properties });
            if s.strokes.contains_key(id) || s.items.len() >= 100_000 {
                t.items == s.items && t.strokes == s.strokes
            } else {
                &&& 0 <= at <= s.items.len()
                &&& t.items.len() == s.items.len() + 1
                &&& t.items[at].id == id && t.items[at].content == id && t.items[at].state is Active
                &&& t.items[at].origin_left == origin_left && t.items[at].origin_right == origin_right
                &&& t.items.remove(at) == s.items
                &&& t.strokes.contains_key(id) && t.strokes[id].data == data && t.strokes[id].properties == properties
                &&& t.strokes.remove(id) == s.strokes
            }
        }),
        ({
            let t = applied(s, OperationView::InsertStroke { id, origin_left, origin_right, data, properties });
            t.metadata == s.metadata && t.pending == s.pending && t.undo == s.undo && t.actor == s.actor
                && t.min_version == s.min_version
        }),
{
    let item = fresh_item(id, origin_left, origin_right);
    let t = applied(s, OperationView::InsertStroke { id, origin_left, origin_right, data, properties });
    rga::lemma_insert_position(s.items, item);
    let at = rga::insert_position(s.items, item);
    if !s.strokes.contains_key(id) && s.items.len() < MAX_STROKES {
        assert(!rga::has_id(s.items, id));
        assert(t.items.remove(at) =~= s.items);
        assert(t.strokes.remove(id) =~= s.strokes);
    }
    at
}

/// What a remote deletion does: the item of the stroke is marked as deleted by
/// the operation, or by the earlier of two deletions. No other item is touched,
/// none is moved, and no stroke is forgotten.
pub proof fn law_remote_deletions_mark_one_item(s: DocumentView, id: OpId, target: OpId)
    requires
        consistent(s),
    ensures
        ({
            let t = applied(s, OperationView::DeleteStroke { id, target });
            &&& t.items.len() == s.items.len()
            &&& forall|i: int|
                0 <= i < s.items.len() ==> {
                    let was = s.items[i];
                    let now = #[trigger] t.items[i];
                    &&& was.id != target ==> now == was
                    &&& now == RgaItem { state: now.state, ..was }
                    &&& was.id == target ==> match (was.state, now.state) {
                        (ItemState::Active, ItemState::Tombstone { deleted_at }) => deleted_at == id,
                        (
                            ItemState::Tombstone { deleted_at: first },
                            ItemState::Tombstone { deleted_at },
                        ) => deleted_at == if later(first, id) {
                            id
                        } else {
                            first
                        },
                        _ => false,
                    }
                }
            &&& t.strokes == s.strokes && t.metadata == s.metadata && t.pending == s.pending && t.undo == s.undo
        }),
{
    let t = applied(s, OperationView::DeleteStroke { id, target });
    assert forall|i: int| 0 <= i < s.items.len() && (#[trigger] s.items[i]).id == target implies rga::position(
        s.items,
        target,
    ) == i && rga::has_id(s.items, target) by {
        rga::lemma_position(s.items, i);
    }
    assert forall|a: OpId, b: OpId| #[trigger] later(a, b) <==> a.rank() > b.rank() by {
        types::law_identifiers_are_ordered(a, b);
        types::law_identifiers_are_ordered(b, a);
    }
}

/// What a remote change of a property does: it sets that property of the stroke,
/// if it is later than what set it last. Everything else stays.
pub proof fn law_remote_restyling_sets_one_property(s: DocumentView, id: OpId, target: OpId, update: PropertyUpdate)
    ensures
        ({
            let t = applied(s, OperationView::UpdateProperty { id, target, update });
            &&& t.items == s.items && t.metadata == s.metadata && t.pending == s.pending && t.undo == s.undo
            &&& t.strokes.dom() == s.strokes.dom()
            &&& forall|other: OpId|
                other != target && s.strokes.contains_key(other) ==> #[trigger] t.strokes[other] == s.strokes[other]
            &&& s.strokes.contains_key(target) ==> {
                &&& t.strokes[target].data == s.strokes[target].data
                &&& sets_one_property(s.strokes[target].properties, t.strokes[target].properties, update, id)
            }
        }),
{
    let t = applied(s, OperationView::UpdateProperty { id, target, update });
    assert(t.strokes.dom() =~= s.strokes.dom());
    if s.strokes.contains_key(target) {
        law_one_property_is_set(s.strokes[target].properties, update, id);
    }
}

/// What a remote change of metadata does: the key takes the value, or loses its
/// own, if the change is later than what was written last. Everything else
/// stays.
pub proof fn law_remote_metadata_sets_one_key(
    s: DocumentView,
    id: OpId,
    key: MetadataKeyView,
    value: Option<MetadataValueView>,
)
    ensures
        ({
            let t = applied(s, OperationView::UpdateMetadata { id, key, value });
            &&& t.items == s.items && t.strokes == s.strokes && t.pending == s.pending && t.undo == s.undo
            &&& t.metadata.remove(key) == s.metadata.remove(key)
            &&& t.metadata.contains_key(key)
            &&& !s.metadata.contains_key(key) || later(id, s.metadata[key].timestamp) ==> t.metadata[key].value == value
                && t.metadata[key].timestamp == id
            &&& s.metadata.contains_key(key) && !later(id, s.metadata[key].timestamp) ==> t.metadata[key]
                == s.metadata[key]
        }),
{
    let t = applied(s, OperationView::UpdateMetadata { id, key, value });
    assert(t.metadata.remove(key) =~= s.metadata.remove(key));
    if s.metadata.contains_key(key) {
        crate::stroke::law_later_write_wins(s.metadata[key], value, id);
    }
}

/// Simplifying a stroke changes its path and nothing else, and sends nothing.
pub proof fn law_simplifying_changes_one_path(
    s: DocumentView,
    target: OpId,
    d: spec_fn(StrokePoint, StrokePoint, StrokePoint) -> F32,
    epsilon: F32,
)
    ensures
        ({
            let t = resimplified(s, target, d, epsilon);
            &&& t == DocumentView { strokes: t.strokes, ..s }
            &&& t.strokes.dom() == s.strokes.dom()
            &&& forall|other: OpId|
                other != target && s.strokes.contains_key(other) ==> #[trigger] t.strokes[other] == s.strokes[other]
            &&& s.strokes.contains_key(target) ==> {
                &&& t.strokes[target].properties == s.strokes[target].properties
                &&& t.strokes[target].data == simplify::simplified_data(s.strokes[target].data, d, epsilon)
            }
        }),
{
    let t = resimplified(s, target, d, epsilon);
    assert(t.strokes.dom() =~= s.strokes.dom());
}

/// An operation of a replica raises its own clock by one, and what is known of
/// its own actor to that time. Of other actors nothing more is known.
pub proof fn law_ticking_raises_the_own_clock(s: DocumentView, a: u64)
    requires
        s.clock < u64::MAX,
    ensures
        ({
            let t = ticked(s);
            &&& t.clock == s.clock + 1
            &&& t.version.contains_key(s.actor.0) && t.version[s.actor.0] >= s.clock + 1
            &&& (s.version.contains_key(s.actor.0) ==> s.version[s.actor.0] <= s.clock) ==> t.version[s.actor.0]
                == s.clock + 1
            &&& a != s.actor.0 ==> t.version.contains_key(a) == s.version.contains_key(a)
            &&& a != s.actor.0 && s.version.contains_key(a) ==> t.version[a] == s.version[a]
            &&& t == DocumentView { clock: t.clock, version: t.version, ..s }
        }),
{
}

/// A new document has nothing in it, has seen nothing, and simplifies to half a
/// unit.
pub proof fn law_new_documents_are_empty(actor: ActorId)
    ensures
        ({
            let s = blank(actor);
            &&& s.actor == actor && s.clock == 0
            &&& s.version == Map::<u64, u64>::empty() && s.min_version == Map::<u64, u64>::empty()
            &&& s.items.len() == 0 && s.strokes.dom().len() == 0 && s.metadata.dom().len() == 0
            &&& s.pending.len() == 0 && s.undo.len() == 0 && s.gc_generation == 0
            &&& s.simplify_epsilon.bits == 0x3f00_0000
        }),
        consistent(blank(actor)),
{
}

/// A new stroke goes above the topmost that is not deleted, or to the bottom
/// where there is none, and says so.
pub proof fn law_new_strokes_go_above_the_top(
    s: DocumentView,
    data: StrokeDataView,
    properties: StrokeProperties,
    i: int,
)
    requires
        0 <= i < s.items.len(),
        s.items[i].state is Active,
        forall|j: int| i < j < s.items.len() ==> (#[trigger] s.items[j]).state is Tombstone,
    ensures
        inserted(s, data, properties).pending.last() is InsertStroke,
        inserted(s, data, properties).pending.last()->origin_left == s.items[i].id,
{
    lemma_last_visible(s.items, i);
}

/// The last visible item.
proof fn lemma_last_visible(items: Seq<RgaItem>, i: int)
    requires
        0 <= i < items.len(),
        items[i].state is Active,
        forall|j: int| i < j < items.len() ==> (#[trigger] items[j]).state is Tombstone,
    ensures
        rga::visible(items).len() > 0,
        rga::visible(items).last() == items[i],
    decreases items.len(),
{
    reveal(Seq::filter);
    let n = items.len() - 1;
    if i < n {
        assert(items[n].state is Tombstone);
        assert forall|j: int| i < j < items.drop_last().len() implies (#[trigger] items.drop_last()[j]).state is Tombstone by {
            assert(items[j].state is Tombstone);
        }
        lemma_last_visible(items.drop_last(), i);
    }
}

/// A remote operation moves the clock up to its time, and never back; what has
/// been seen of its actor goes up to its time, and nothing of other actors
/// changes.
pub proof fn law_remote_operations_are_witnessed(s: DocumentView, op: OperationView, actor: u64)
    ensures
        ({
            let t = applied(s, op);
            &&& t.clock >= s.clock && t.clock >= op.id().lamport.0
            &&& t.clock == s.clock || t.clock == op.id().lamport.0
            &&& types::seen(t.version, op.id().actor.0) >= op.id().lamport.0
            &&& types::seen(t.version, op.id().actor.0) == op.id().lamport.0 || types::seen(t.version, op.id().actor.0)
                == types::seen(s.version, op.id().actor.0)
            &&& actor != op.id().actor.0 ==> types::seen(t.version, actor) == types::seen(s.version, actor)
            &&& t.actor == s.actor && t.pending == s.pending && t.undo == s.undo
        }),
{
}

} // verus!
