//! Why replicas that have applied the same operations agree.
//!
//! Every part of a document is a function of the set of operations applied to
//! it: the z-order is the pre-order of the insertions, a stroke is visible
//! unless some operation deletes it, a tombstone remembers the least deletion,
//! and a register holds its latest write.
//! None of this depends on the order of arrival, as long as each operation
//! arrives after those that it builds on.

use crate::causal_buffer;
use crate::convergence;
use crate::document;
use crate::document::DocumentView;
use crate::metadata;
use crate::metadata::MetadataKeyView;
use crate::operation;
use crate::operation::{OperationView, PropertyUpdate};
use crate::rga;
use crate::rga::{ItemState, RgaItem};
use crate::stroke::StrokeProperties;
use crate::types;
use crate::types::{ActorId, OpId};
use vstd::prelude::*;

verus! {

/// What is asked of an operation.
pub enum Sort {
    /// It inserts the stroke `id`.
    Inserts { id: OpId },
    /// It inserts the stroke `id` right of `up`.
    InsertsAt { id: OpId, up: OpId },
    /// It deletes the stroke `target`.
    Deletes { target: OpId },
    /// It writes the property number `slot` of the stroke `target`.
    Updates { target: OpId, slot: int },
    /// It writes the metadata key.
    Sets { key: MetadataKeyView },
    /// It is by this actor.
    By { actor: u64 },
}

/// The number of the property that an update writes.
pub open spec fn slot_of(update: PropertyUpdate) -> int {
    match update {
        PropertyUpdate::Color(_) => 0,
        PropertyUpdate::StrokeWidth(_) => 1,
        PropertyUpdate::Opacity(_) => 2,
        PropertyUpdate::Transform(_) => 3,
    }
}

/// A property as the update that last wrote it, and when.
pub open spec fn slot(properties: StrokeProperties, n: int) -> (PropertyUpdate, OpId) {
    if n == 0 {
        (PropertyUpdate::Color(properties.color.value), properties.color.timestamp)
    } else if n == 1 {
        (PropertyUpdate::StrokeWidth(properties.stroke_width.value), properties.stroke_width.timestamp)
    } else if n == 2 {
        (PropertyUpdate::Opacity(properties.opacity.value), properties.opacity.timestamp)
    } else {
        (PropertyUpdate::Transform(properties.transform.value), properties.transform.timestamp)
    }
}

pub open spec fn is_of(op: OperationView, sort: Sort) -> bool {
    match sort {
        Sort::Inserts { id } => op is InsertStroke && op.id() == id,
        Sort::InsertsAt { id, up } => op is InsertStroke && op.id() == id && op->origin_left == up,
        Sort::Deletes { target } => op is DeleteStroke && op->DeleteStroke_target == target,
        Sort::Updates { target, slot } => op is UpdateProperty && op->UpdateProperty_target == target && slot_of(
            op->update,
        ) == slot,
        Sort::Sets { key } => op is UpdateMetadata && op->key == key,
        Sort::By { actor } => op.id().actor.0 == actor,
    }
}

/// Whether some operation of the log is of a sort.
pub open spec fn some_op(log: Seq<OperationView>, sort: Sort) -> bool {
    exists|k: int| 0 <= k < log.len() && is_of(#[trigger] log[k], sort)
}

proof fn lemma_has_push(log: Seq<OperationView>, op: OperationView, sort: Sort)
    ensures
        some_op(log.push(op), sort) <==> some_op(log, sort) || is_of(op, sort),
{
    let more = log.push(op);
    if some_op(log, sort) {
        let k = choose|k: int| 0 <= k < log.len() && is_of(#[trigger] log[k], sort);
        assert(more[k] == log[k]);
    }
    if some_op(more, sort) {
        let k = choose|k: int| 0 <= k < more.len() && is_of(#[trigger] more[k], sort);
        if k < log.len() {
            assert(more[k] == log[k]);
        }
    }
    assert(more[log.len() as int] == op);
}

/// Whether what an operation builds on is among the earlier ones.
pub open spec fn founded(earlier: Seq<OperationView>, op: OperationView) -> bool {
    match op {
        OperationView::InsertStroke { origin_left, .. } => origin_left == OpId::zero() || some_op(
            earlier,
            Sort::Inserts { id: origin_left },
        ),
        OperationView::DeleteStroke { target, .. } => some_op(earlier, Sort::Inserts { id: target }),
        OperationView::UpdateProperty { target, .. } => some_op(earlier, Sort::Inserts { id: target }),
        OperationView::UpdateMetadata { .. } => true,
    }
}

/// An insertion has an identifier and no right bound, as those made by
/// `Document::insert_stroke` do.
pub open spec fn regular(op: OperationView) -> bool {
    op matches OperationView::InsertStroke { id, origin_right, .. } ==> id != OpId::zero() && origin_right
        == OpId::zero()
}

/// Every operation comes after those that it builds on.
pub open spec fn causal(log: Seq<OperationView>) -> bool {
    forall|k: int| 0 <= k < log.len() ==> founded(log.take(k), #[trigger] log[k]) && regular(log[k])
}

/// An identifier names one operation.
pub open spec fn named_once(log: Seq<OperationView>) -> bool {
    forall|j: int, k: int|
        0 <= j < log.len() && 0 <= k < log.len() && (#[trigger] log[j]).id() == (#[trigger] log[k]).id() ==> log[j]
            == log[k]
}

/// No insertion is dropped because the document is full.
pub open spec fn roomy(s: DocumentView, log: Seq<OperationView>) -> bool {
    forall|k: int|
        0 <= k < log.len() && (#[trigger] log[k]) is InsertStroke ==> document::applied_all(
            s,
            log.take(k),
        ).items.len() < document::MAX_STROKES
}

/// The z-order is the pre-order of the insertions.
pub open spec fn ordered_by(s: DocumentView, log: Seq<OperationView>) -> bool {
    &&& document::consistent(s)
    &&& convergence::canonical(s.items)
    &&& forall|id: OpId, up: OpId| #[trigger]
        convergence::linked(s.items, id, up) <==> some_op(log, Sort::InsertsAt { id, up })
    &&& forall|id: OpId| #[trigger] rga::has_id(s.items, id) <==> some_op(log, Sort::Inserts { id })
}

/// `at` is the least deletion of `target` in the log.
pub open spec fn least_deletion(log: Seq<OperationView>, target: OpId, at: OpId) -> bool {
    &&& log.contains(OperationView::DeleteStroke { id: at, target })
    &&& forall|j: int|
        0 <= j < log.len() && is_of(#[trigger] log[j], Sort::Deletes { target }) ==> at.rank() <= log[j].id().rank()
}

/// The state of an item is what the deletions of the log make it: it is active
/// where there is none, and a tombstone of the least one otherwise.
pub open spec fn state_by(item: RgaItem, log: Seq<OperationView>) -> bool {
    match item.state {
        ItemState::Active => !some_op(log, Sort::Deletes { target: item.id }),
        ItemState::Tombstone { deleted_at } => least_deletion(log, item.id, deleted_at),
    }
}

/// Each item is in the state that the log gives it, and has no right bound.
pub open spec fn shown_by(s: DocumentView, log: Seq<OperationView>) -> bool {
    forall|i: int|
        0 <= i < s.items.len() ==> state_by(#[trigger] s.items[i], log) && s.items[i].origin_right == OpId::zero()
}

/// `r` is the latest of `first` and the writes of the log to a property.
pub open spec fn latest(
    log: Seq<OperationView>,
    target: OpId,
    n: int,
    first: (PropertyUpdate, OpId),
    r: (PropertyUpdate, OpId),
) -> bool {
    &&& r == first || (r.1.rank() > first.1.rank() && slot_of(r.0) == n && log.contains(
        OperationView::UpdateProperty { id: r.1, target, update: r.0 },
    ))
    &&& first.1.rank() <= r.1.rank()
    &&& forall|j: int|
        0 <= j < log.len() && is_of(#[trigger] log[j], Sort::Updates { target, slot: n }) ==> log[j].id().rank()
            <= r.1.rank()
}

/// Each stroke has the path of its insertion, and each property its latest write.
pub open spec fn styled_by(s: DocumentView, log: Seq<OperationView>) -> bool {
    forall|k: int, id: OpId|
        0 <= k < log.len() && is_of(#[trigger] log[k], Sort::Inserts { id }) && #[trigger] s.strokes.contains_key(id)
            ==> {
            &&& s.strokes[id].data == log[k]->data
            &&& forall|n: int|
                0 <= n < 4 ==> latest(log, id, n, slot(log[k]->properties, n), #[trigger] slot(
                    s.strokes[id].properties,
                    n,
                ))
        }
}

/// Each metadata key has its latest write.
pub open spec fn described_by(s: DocumentView, log: Seq<OperationView>) -> bool {
    &&& forall|key: MetadataKeyView| #[trigger] s.metadata.contains_key(key) <==> some_op(log, Sort::Sets { key })
    &&& forall|key: MetadataKeyView| #[trigger]
        s.metadata.contains_key(key) ==> {
            &&& log.contains(
                OperationView::UpdateMetadata {
                    id: s.metadata[key].timestamp,
                    key,
                    value: s.metadata[key].value,
                },
            )
            &&& forall|j: int|
                0 <= j < log.len() && is_of(#[trigger] log[j], Sort::Sets { key }) ==> log[j].id().rank()
                    <= s.metadata[key].timestamp.rank()
        }
}

/// The clock and the version are the latest times of the log.
pub open spec fn timed_by(s: DocumentView, log: Seq<OperationView>) -> bool {
    &&& s.clock == 0 || exists|k: int| 0 <= k < log.len() && (#[trigger] log[k]).id().lamport.0 == s.clock
    &&& forall|k: int| 0 <= k < log.len() ==> (#[trigger] log[k]).id().lamport.0 <= s.clock
    &&& forall|a: u64| #[trigger] s.version.contains_key(a) <==> some_op(log, Sort::By { actor: a })
    &&& forall|a: u64| #[trigger]
        s.version.contains_key(a) ==> {
            &&& exists|k: int|
                0 <= k < log.len() && is_of(#[trigger] log[k], Sort::By { actor: a }) && log[k].id().lamport.0
                    == s.version[a]
            &&& forall|k: int|
                0 <= k < log.len() && is_of(#[trigger] log[k], Sort::By { actor: a }) ==> log[k].id().lamport.0
                    <= s.version[a]
        }
}

/// The order does not depend on what is deleted.
proof fn lemma_shape_path(a: Seq<RgaItem>, b: Seq<RgaItem>, i: int)
    requires
        rga::distinct_ids(a),
        rga::distinct_ids(b),
        convergence::same_order(a, b),
        0 <= i < a.len(),
    ensures
        convergence::path_of(a, i) == convergence::path_of(b, i),
    decreases i,
{
    let up = a[i].origin_left;
    assert(b[i].origin_left == up);
    lemma_shape_position(a, b, up);
    let j = rga::origin_position(a, up);
    if 0 <= j < i {
        lemma_shape_path(a, b, j);
    }
}

proof fn lemma_shape_position(a: Seq<RgaItem>, b: Seq<RgaItem>, id: OpId)
    requires
        rga::distinct_ids(a),
        rga::distinct_ids(b),
        convergence::same_order(a, b),
    ensures
        rga::has_id(a, id) == rga::has_id(b, id),
        rga::position(a, id) == rga::position(b, id),
{
    if rga::has_id(a, id) {
        let k = rga::position(a, id);
        assert(b[k].id == id);
    }
    if rga::has_id(b, id) {
        let k = rga::position(b, id);
        assert(a[k].id == id);
    }
}

/// What is deleted or not does not bear on the order.
pub proof fn lemma_shape(a: Seq<RgaItem>, b: Seq<RgaItem>)
    requires
        convergence::canonical(a),
        convergence::same_order(a, b),
    ensures
        convergence::canonical(b),
        convergence::same_links(a, b),
{
    assert forall|i: int, j: int|
        0 <= i < b.len() && 0 <= j < b.len() && (#[trigger] b[i]).id == (#[trigger] b[j]).id implies i == j by {
        assert(a[i].id == b[i].id && a[j].id == b[j].id);
    }
    assert forall|i: int| 0 <= i < b.len() implies (#[trigger] b[i]).id != OpId::zero() && (b[i].origin_left
        == OpId::zero() || (rga::has_id(b, b[i].origin_left) && rga::position(b, b[i].origin_left) < i)) by {
        assert(a[i].id == b[i].id && a[i].origin_left == b[i].origin_left);
        lemma_shape_position(a, b, b[i].origin_left);
    }
    assert forall|i: int, j: int| 0 <= i < j < b.len() implies #[trigger] convergence::path_before(
        convergence::path_of(b, i),
        convergence::path_of(b, j),
    ) by {
        lemma_shape_path(a, b, i);
        lemma_shape_path(a, b, j);
        assert(convergence::path_before(convergence::path_of(a, i), convergence::path_of(a, j)));
    }
    assert forall|id: OpId, up: OpId| #[trigger] convergence::linked(a, id, up) <==> convergence::linked(b, id, up) by {
        if convergence::linked(a, id, up) {
            let i = choose|i: int| 0 <= i < a.len() && (#[trigger] a[i]).id == id && a[i].origin_left == up;
            assert(b[i].id == id);
        }
        if convergence::linked(b, id, up) {
            let i = choose|i: int| 0 <= i < b.len() && (#[trigger] b[i]).id == id && b[i].origin_left == up;
            assert(a[i].id == id);
        }
    }
}

proof fn lemma_named_once_tail(log: Seq<OperationView>, op: OperationView, k: int)
    requires
        named_once(log.push(op)),
        0 <= k < log.len(),
        log[k].id() == op.id(),
    ensures
        log[k] == op,
{
    let more = log.push(op);
    assert(more[k] == log[k]);
    assert(more[log.len() as int] == op);
}

proof fn lemma_order_step(s: DocumentView, log: Seq<OperationView>, op: OperationView)
    requires
        ordered_by(s, log),
        founded(log, op),
        regular(op),
        named_once(log.push(op)),
        op is InsertStroke ==> s.items.len() < document::MAX_STROKES,
    ensures
        ordered_by(document::applied(s, op), log.push(op)),
{
    let more = log.push(op);
    let t = document::applied(s, op);
    document::lemma_applied_consistent(s, op);
    match op {
        OperationView::InsertStroke { id, origin_left, origin_right, data, properties } => {
            let item = document::fresh_item(id, origin_left, origin_right);
            assert(rga::has_id(s.items, id) <==> s.strokes.contains_key(id));
            if origin_left != OpId::zero() {
                assert(rga::has_id(s.items, origin_left));
            }
            convergence::lemma_integrated_canonical(s.items, item);
            document::lemma_integrated_ids(s.items, item);
            assert(t.items == rga::integrated(s.items, item));
            assert forall|x: OpId| #[trigger] rga::has_id(t.items, x) <==> some_op(more, Sort::Inserts { id: x }) by {
                lemma_has_push(log, op, Sort::Inserts { id: x });
                assert(rga::has_id(s.items, x) <==> some_op(log, Sort::Inserts { id: x }));
            }
            assert forall|x: OpId, up: OpId| #[trigger] convergence::linked(t.items, x, up) <==> some_op(
                more,
                Sort::InsertsAt { id: x, up },
            ) by {
                lemma_has_push(log, op, Sort::InsertsAt { id: x, up });
                assert(convergence::linked(s.items, x, up) <==> some_op(log, Sort::InsertsAt { id: x, up }));
                if rga::has_id(s.items, id) {
                    if x == id && up == origin_left {
                        assert(some_op(log, Sort::Inserts { id }));
                        let k = choose|k: int| 0 <= k < log.len() && is_of(#[trigger] log[k], Sort::Inserts { id });
                        lemma_named_once_tail(log, op, k);
                        assert(is_of(log[k], Sort::InsertsAt { id: x, up }));
                    }
                } else {
                    lemma_linked_insert(s.items, item, x, up);
                }
            }
        },
        OperationView::DeleteStroke { id, target } => {
            document::lemma_tombstoned_ids(s.items, target, id);
            assert(convergence::same_order(s.items, t.items));
            lemma_shape(s.items, t.items);
            lemma_order_kept(s, t, log, op);
        },
        OperationView::UpdateProperty { id, target, update } => {
            lemma_order_kept(s, t, log, op);
        },
        OperationView::UpdateMetadata { id, key, value } => {
            lemma_order_kept(s, t, log, op);
        },
    }
}

/// An operation that inserts nothing leaves the insertions as they are.
proof fn lemma_order_kept(s: DocumentView, t: DocumentView, log: Seq<OperationView>, op: OperationView)
    requires
        ordered_by(s, log),
        !(op is InsertStroke),
        convergence::same_links(s.items, t.items),
        forall|id: OpId| rga::has_id(s.items, id) <==> #[trigger] rga::has_id(t.items, id),
    ensures
        forall|id: OpId, up: OpId| #[trigger]
            convergence::linked(t.items, id, up) <==> some_op(log.push(op), Sort::InsertsAt { id, up }),
        forall|id: OpId| #[trigger] rga::has_id(t.items, id) <==> some_op(log.push(op), Sort::Inserts { id }),
{
    assert forall|id: OpId, up: OpId| #[trigger] convergence::linked(t.items, id, up) <==> some_op(
        log.push(op),
        Sort::InsertsAt { id, up },
    ) by {
        lemma_has_push(log, op, Sort::InsertsAt { id, up });
        assert(convergence::linked(s.items, id, up) <==> some_op(log, Sort::InsertsAt { id, up }));
    }
    assert forall|id: OpId| #[trigger] rga::has_id(t.items, id) <==> some_op(log.push(op), Sort::Inserts { id }) by {
        lemma_has_push(log, op, Sort::Inserts { id });
        assert(rga::has_id(s.items, id) <==> some_op(log, Sort::Inserts { id }));
    }
}

/// Integrating a new item adds its link and no other.
pub proof fn lemma_linked_insert(items: Seq<RgaItem>, item: RgaItem, id: OpId, up: OpId)
    requires
        !rga::has_id(items, item.id),
    ensures
        convergence::linked(rga::integrated(items, item), id, up) <==> convergence::linked(items, id, up) || (id
            == item.id && up == item.origin_left),
{
    rga::lemma_insert_position(items, item);
    let at = rga::insert_position(items, item);
    let more = items.insert(at, item);
    assert(more[at] == item);
    if convergence::linked(items, id, up) {
        let i = choose|i: int| 0 <= i < items.len() && (#[trigger] items[i]).id == id && items[i].origin_left == up;
        assert(more[convergence::shifted(at, i)] == items[i]);
    }
    if convergence::linked(more, id, up) {
        let i = choose|i: int| 0 <= i < more.len() && (#[trigger] more[i]).id == id && more[i].origin_left == up;
        if i != at {
            let a = if i < at { i } else { i - 1 };
            assert(items[a] == more[i]);
        }
    }
}

/// Deletions and property updates in the log are for strokes that are there.
pub open spec fn aimed_by(s: DocumentView, log: Seq<OperationView>) -> bool {
    forall|k: int|
        0 <= k < log.len() ==> match #[trigger] log[k] {
            OperationView::DeleteStroke { target, .. } => rga::has_id(s.items, target),
            OperationView::UpdateProperty { target, .. } => rga::has_id(s.items, target),
            _ => true,
        }
}

/// No operation removes an item.
pub proof fn lemma_items_stay(s: DocumentView, op: OperationView, id: OpId)
    requires
        document::consistent(s),
        rga::has_id(s.items, id),
    ensures
        rga::has_id(document::applied(s, op).items, id),
{
    match op {
        OperationView::InsertStroke { id: x, origin_left, origin_right, .. } => {
            document::lemma_integrated_ids(s.items, document::fresh_item(x, origin_left, origin_right));
        },
        OperationView::DeleteStroke { id: x, target } => {
            document::lemma_tombstoned_ids(s.items, target, x);
        },
        _ => {},
    }
}

proof fn lemma_aimed_step(s: DocumentView, log: Seq<OperationView>, op: OperationView)
    requires
        ordered_by(s, log),
        aimed_by(s, log),
        founded(log, op),
    ensures
        aimed_by(document::applied(s, op), log.push(op)),
{
    let more = log.push(op);
    let t = document::applied(s, op);
    assert forall|k: int| 0 <= k < more.len() implies match #[trigger] more[k] {
        OperationView::DeleteStroke { target, .. } => rga::has_id(t.items, target),
        OperationView::UpdateProperty { target, .. } => rga::has_id(t.items, target),
        _ => true,
    } by {
        if k < log.len() {
            assert(more[k] == log[k]);
        }
        match more[k] {
            OperationView::DeleteStroke { target, .. } => {
                assert(rga::has_id(s.items, target));
                lemma_items_stay(s, op, target);
            },
            OperationView::UpdateProperty { target, .. } => {
                assert(rga::has_id(s.items, target));
                lemma_items_stay(s, op, target);
            },
            _ => {},
        }
    }
}

/// What one more operation does to the state of an item that it does not
/// delete, or deletes.
proof fn lemma_state_step(item: RgaItem, log: Seq<OperationView>, op: OperationView)
    requires
        state_by(item, log),
    ensures
        is_of(op, Sort::Deletes { target: item.id }) ==> state_by(
            RgaItem { state: rga::buried(item.state, op.id()), ..item },
            log.push(op),
        ),
        !is_of(op, Sort::Deletes { target: item.id }) ==> state_by(item, log.push(op)),
{
    let more = log.push(op);
    lemma_has_push(log, op, Sort::Deletes { target: item.id });
    assert(more[log.len() as int] == op);
    match item.state {
        ItemState::Active => {
            if is_of(op, Sort::Deletes { target: item.id }) {
                assert(op == OperationView::DeleteStroke { id: op.id(), target: item.id });
                assert forall|j: int|
                    0 <= j < more.len() && is_of(#[trigger] more[j], Sort::Deletes { target: item.id }) implies
                    op.id().rank() <= more[j].id().rank() by {
                    if j < log.len() {
                        assert(is_of(log[j], Sort::Deletes { target: item.id }));
                    }
                }
            }
        },
        ItemState::Tombstone { deleted_at } => {
            let first = OperationView::DeleteStroke { id: deleted_at, target: item.id };
            let k = choose|k: int| 0 <= k < log.len() && log[k] == first;
            assert(more[k] == first);
            if is_of(op, Sort::Deletes { target: item.id }) {
                assert(op == OperationView::DeleteStroke { id: op.id(), target: item.id });
            }
            assert forall|j: int|
                0 <= j < more.len() && is_of(#[trigger] more[j], Sort::Deletes { target: item.id }) implies j
                == log.len() || deleted_at.rank() <= more[j].id().rank() by {
                if j < log.len() {
                    assert(more[j] == log[j]);
                }
            }
        },
    }
}

proof fn lemma_shown_step(s: DocumentView, log: Seq<OperationView>, op: OperationView)
    requires
        ordered_by(s, log),
        aimed_by(s, log),
        shown_by(s, log),
        founded(log, op),
        regular(op),
    ensures
        shown_by(document::applied(s, op), log.push(op)),
{
    let more = log.push(op);
    let t = document::applied(s, op);
    assert forall|i: int| 0 <= i < t.items.len() implies state_by(#[trigger] t.items[i], more)
        && t.items[i].origin_right == OpId::zero() by {
        let x = t.items[i];
        lemma_has_push(log, op, Sort::Deletes { target: x.id });
        match op {
            OperationView::InsertStroke { id, origin_left, origin_right, data, properties } => {
                let item = document::fresh_item(id, origin_left, origin_right);
                if s.strokes.contains_key(id) || s.items.len() >= document::MAX_STROKES {
                    assert(t.items == s.items);
                    lemma_state_step(s.items[i], log, op);
                } else {
                    document::lemma_integrated_ids(s.items, item);
                    assert(x == item || s.items.contains(x));
                    if x == item {
                        assert(!rga::has_id(s.items, id));
                        if some_op(log, Sort::Deletes { target: id }) {
                            let k = choose|k: int|
                                0 <= k < log.len() && is_of(#[trigger] log[k], Sort::Deletes { target: id });
                            assert(rga::has_id(s.items, id));
                        }
                    } else {
                        let j = choose|j: int| 0 <= j < s.items.len() && s.items[j] == x;
                        assert(state_by(s.items[j], log));
                        lemma_state_step(x, log, op);
                    }
                }
            },
            OperationView::DeleteStroke { id, target } => {
                document::lemma_tombstoned_ids(s.items, target, id);
                assert(s.items[i].id == x.id);
                assert(state_by(s.items[i], log));
                lemma_state_step(s.items[i], log, op);
                if x.id == target {
                    rga::lemma_position(s.items, i);
                } else if rga::has_id(s.items, target) {
                    assert(rga::position(s.items, target) != i);
                }
            },
            _ => {
                assert(t.items == s.items);
                lemma_state_step(s.items[i], log, op);
            },
        }
    }
}

proof fn lemma_slot_updated(properties: StrokeProperties, update: PropertyUpdate, id: OpId, n: int)
    requires
        0 <= n < 4,
    ensures
        slot(operation::updated(properties, update, id), n) == (if n == slot_of(update) && id.rank() > slot(
            properties,
            n,
        ).1.rank() {
            (update, id)
        } else {
            slot(properties, n)
        }),
{
}

proof fn lemma_latest_push(
    log: Seq<OperationView>,
    op: OperationView,
    target: OpId,
    n: int,
    first: (PropertyUpdate, OpId),
    r: (PropertyUpdate, OpId),
)
    requires
        latest(log, target, n, first, r),
    ensures
        is_of(op, Sort::Updates { target, slot: n }) && op.id().rank() > r.1.rank() ==> latest(
            log.push(op),
            target,
            n,
            first,
            (op->update, op.id()),
        ),
        !(is_of(op, Sort::Updates { target, slot: n }) && op.id().rank() > r.1.rank()) ==> latest(
            log.push(op),
            target,
            n,
            first,
            r,
        ),
{
    let more = log.push(op);
    assert(more[log.len() as int] == op);
    let win = OperationView::UpdateProperty { id: r.1, target, update: r.0 };
    if log.contains(win) {
        let k = choose|k: int| 0 <= k < log.len() && log[k] == win;
        assert(more[k] == win);
    }
    assert forall|j: int| 0 <= j < more.len() && is_of(#[trigger] more[j], Sort::Updates { target, slot: n }) implies
        more[j].id().rank() <= r.1.rank() || more[j].id().rank() <= op.id().rank() by {
        if j < log.len() {
            assert(more[j] == log[j]);
        }
    }
    if is_of(op, Sort::Updates { target, slot: n }) && op.id().rank() > r.1.rank() {
        assert(more.contains(OperationView::UpdateProperty { id: op.id(), target, update: op->update }));
    } else {
        assert forall|j: int| 0 <= j < more.len() && is_of(#[trigger] more[j], Sort::Updates { target, slot: n }) implies
            more[j].id().rank() <= r.1.rank() by {
            if j < log.len() {
                assert(more[j] == log[j]);
            }
        }
    }
}

proof fn lemma_styled_step(s: DocumentView, log: Seq<OperationView>, op: OperationView)
    requires
        ordered_by(s, log),
        aimed_by(s, log),
        styled_by(s, log),
        founded(log, op),
        named_once(log.push(op)),
    ensures
        styled_by(document::applied(s, op), log.push(op)),
{
    let more = log.push(op);
    let t = document::applied(s, op);
    assert forall|k: int, id: OpId|
        0 <= k < more.len() && is_of(#[trigger] more[k], Sort::Inserts { id }) && #[trigger] t.strokes.contains_key(
            id,
        ) implies t.strokes[id].data == more[k]->data && forall|n: int|
        0 <= n < 4 ==> latest(more, id, n, slot(more[k]->properties, n), #[trigger] slot(
            t.strokes[id].properties,
            n,
        )) by {
        let first = more[k];
        if s.strokes.contains_key(id) {
            // The insertion stands in the log, before this operation.
            assert(rga::has_id(s.items, id));
            assert(some_op(log, Sort::Inserts { id }));
            let m = choose|m: int| 0 <= m < log.len() && is_of(#[trigger] log[m], Sort::Inserts { id });
            assert(more[m] == log[m]);
            assert(log[m] == first);
            assert(is_of(log[m], Sort::Inserts { id }) && s.strokes.contains_key(id));
            assert forall|n: int| 0 <= n < 4 implies latest(more, id, n, slot(first->properties, n), #[trigger] slot(
                t.strokes[id].properties,
                n,
            )) by {
                let r = slot(s.strokes[id].properties, n);
                assert(latest(log, id, n, slot(first->properties, n), r));
                lemma_latest_push(log, op, id, n, slot(first->properties, n), r);
                match op {
                    OperationView::UpdateProperty { id: at, target, update } => {
                        lemma_slot_updated(s.strokes[id].properties, update, at, n);
                    },
                    _ => {},
                }
            }
        } else {
            // This operation is the insertion.
            assert(op is InsertStroke && op.id() == id);
            assert(more[log.len() as int] == op);
            assert(first == op);
            assert(!rga::has_id(s.items, id));
            assert forall|n: int| 0 <= n < 4 implies latest(more, id, n, slot(first->properties, n), #[trigger] slot(
                t.strokes[id].properties,
                n,
            )) by {
                assert forall|j: int|
                    0 <= j < more.len() && is_of(#[trigger] more[j], Sort::Updates { target: id, slot: n }) implies
                    false by {
                    assert(j < log.len());
                    assert(more[j] == log[j]);
                }
            }
        }
    }
}

proof fn lemma_described_step(s: DocumentView, log: Seq<OperationView>, op: OperationView)
    requires
        described_by(s, log),
    ensures
        described_by(document::applied(s, op), log.push(op)),
{
    let more = log.push(op);
    let t = document::applied(s, op);
    assert(more[log.len() as int] == op);
    assert forall|key: MetadataKeyView| #[trigger] t.metadata.contains_key(key) <==> some_op(more, Sort::Sets { key }) by {
        lemma_has_push(log, op, Sort::Sets { key });
        assert(s.metadata.contains_key(key) <==> some_op(log, Sort::Sets { key }));
    }
    assert forall|key: MetadataKeyView| #[trigger] t.metadata.contains_key(key) implies more.contains(
        OperationView::UpdateMetadata { id: t.metadata[key].timestamp, key, value: t.metadata[key].value },
    ) && forall|j: int|
        0 <= j < more.len() && is_of(#[trigger] more[j], Sort::Sets { key }) ==> more[j].id().rank()
            <= t.metadata[key].timestamp.rank() by {
        if s.metadata.contains_key(key) {
            let win = OperationView::UpdateMetadata {
                id: s.metadata[key].timestamp,
                key,
                value: s.metadata[key].value,
            };
            let k = choose|k: int| 0 <= k < log.len() && log[k] == win;
            assert(more[k] == win);
        } else {
            assert(!some_op(log, Sort::Sets { key }));
        }
        assert forall|j: int| 0 <= j < more.len() && is_of(#[trigger] more[j], Sort::Sets { key }) implies more[j].id().rank()
            <= t.metadata[key].timestamp.rank() by {
            if j < log.len() {
                assert(more[j] == log[j]);
                assert(some_op(log, Sort::Sets { key }));
            }
        }
    }
}

proof fn lemma_timed_step(s: DocumentView, log: Seq<OperationView>, op: OperationView)
    requires
        timed_by(s, log),
    ensures
        timed_by(document::applied(s, op), log.push(op)),
{
    let more = log.push(op);
    let t = document::applied(s, op);
    let w = document::witnessed(s, op.id());
    assert(t.clock == w.clock && t.version == w.version);
    assert(more[log.len() as int] == op);
    assert(t.clock == 0 || exists|k: int| 0 <= k < more.len() && (#[trigger] more[k]).id().lamport.0 == t.clock) by {
        if op.id().lamport.0 <= s.clock && s.clock != 0 {
            let k = choose|k: int| 0 <= k < log.len() && (#[trigger] log[k]).id().lamport.0 == s.clock;
            assert(more[k] == log[k]);
        }
    }
    assert forall|k: int| 0 <= k < more.len() implies (#[trigger] more[k]).id().lamport.0 <= t.clock by {
        if k < log.len() {
            assert(more[k] == log[k]);
        }
    }
    assert forall|a: u64| #[trigger] t.version.contains_key(a) <==> some_op(more, Sort::By { actor: a }) by {
        lemma_has_push(log, op, Sort::By { actor: a });
        assert(s.version.contains_key(a) <==> some_op(log, Sort::By { actor: a }));
    }
    assert forall|a: u64| #[trigger] t.version.contains_key(a) implies (exists|k: int|
        0 <= k < more.len() && is_of(#[trigger] more[k], Sort::By { actor: a }) && more[k].id().lamport.0
            == t.version[a]) && (forall|k: int|
        0 <= k < more.len() && is_of(#[trigger] more[k], Sort::By { actor: a }) ==> more[k].id().lamport.0
            <= t.version[a]) by {
        if s.version.contains_key(a) {
            let k = choose|k: int|
                0 <= k < log.len() && is_of(#[trigger] log[k], Sort::By { actor: a }) && log[k].id().lamport.0
                    == s.version[a];
            assert(more[k] == log[k]);
        } else {
            assert(!some_op(log, Sort::By { actor: a }));
        }
        assert forall|k: int| 0 <= k < more.len() && is_of(#[trigger] more[k], Sort::By { actor: a }) implies more[k].id().lamport.0
            <= t.version[a] by {
            if k < log.len() {
                assert(more[k] == log[k]);
                assert(some_op(log, Sort::By { actor: a }));
            }
        }
        if a == op.id().actor.0 {
            assert(is_of(op, Sort::By { actor: a }));
        }
    }
}

/// Every part of the document is what the set of operations makes it.
#[verifier::opaque]
pub open spec fn reflects(s: DocumentView, log: Seq<OperationView>) -> bool {
    &&& ordered_by(s, log)
    &&& aimed_by(s, log)
    &&& shown_by(s, log)
    &&& styled_by(s, log)
    &&& described_by(s, log)
    &&& timed_by(s, log)
}

/// Two documents hold the same: the same items in the same order and the same
/// states, with the same paths, properties and metadata, at the same time.
pub open spec fn same_replica(s: DocumentView, t: DocumentView) -> bool {
    &&& s.items == t.items
    &&& document::visible_ids(s.items) == document::visible_ids(t.items)
    &&& s.strokes == t.strokes
    &&& s.metadata == t.metadata
    &&& s.clock == t.clock
    &&& s.version == t.version
}

/// A document that reflects a log reflects it after one more operation.
pub proof fn lemma_reflects_step(s: DocumentView, log: Seq<OperationView>, op: OperationView)
    requires
        reflects(s, log),
        founded(log, op),
        regular(op),
        named_once(log.push(op)),
        op is InsertStroke ==> s.items.len() < document::MAX_STROKES,
    ensures
        reflects(document::applied(s, op), log.push(op)),
{
    reveal(reflects);
    lemma_order_step(s, log, op);
    lemma_aimed_step(s, log, op);
    lemma_shown_step(s, log, op);
    lemma_styled_step(s, log, op);
    lemma_described_step(s, log, op);
    lemma_timed_step(s, log, op);
}

/// What is ready at a document that reflects a log is founded in that log.
pub proof fn lemma_ready_is_founded(s: DocumentView, log: Seq<OperationView>, op: OperationView)
    requires
        reflects(s, log),
        causal_buffer::ready(s, op),
    ensures
        document::consistent(s),
        founded(log, op),
{
    reveal(reflects);
    match op {
        OperationView::InsertStroke { origin_left, .. } => {
            if origin_left != OpId::zero() {
                assert(rga::has_id(s.items, origin_left));
            }
        },
        OperationView::DeleteStroke { target, .. } => {
            assert(rga::has_id(s.items, target));
        },
        OperationView::UpdateProperty { target, .. } => {
            assert(rga::has_id(s.items, target) <==> s.strokes.contains_key(target));
        },
        OperationView::UpdateMetadata { .. } => {},
    }
}

/// A document that has applied a causal log reflects it.
pub proof fn lemma_reflects(actor: ActorId, log: Seq<OperationView>)
    requires
        causal(log),
        named_once(log),
        roomy(document::blank(actor), log),
    ensures
        reflects(document::applied_all(document::blank(actor), log), log),
    decreases log.len(),
{
    let s0 = document::blank(actor);
    if log.len() == 0 {
        reveal(reflects);
    } else {
        let less = log.drop_last();
        let op = log.last();
        assert(less.push(op) =~= log);
        assert forall|k: int| 0 <= k < less.len() implies founded(less.take(k), #[trigger] less[k]) && regular(less[k]) by {
            assert(less[k] == log[k]);
            assert(less.take(k) =~= log.take(k));
        }
        assert forall|j: int, k: int|
            0 <= j < less.len() && 0 <= k < less.len() && (#[trigger] less[j]).id() == (#[trigger] less[k]).id() implies
            less[j] == less[k] by {
            assert(less[j] == log[j] && less[k] == log[k]);
        }
        assert forall|k: int| 0 <= k < less.len() && (#[trigger] less[k]) is InsertStroke implies document::applied_all(
            s0,
            less.take(k),
        ).items.len() < document::MAX_STROKES by {
            assert(less[k] == log[k]);
            assert(less.take(k) =~= log.take(k));
        }
        lemma_reflects(actor, less);
        let s = document::applied_all(s0, less);
        assert(log[log.len() - 1] == op);
        assert(log.take(log.len() - 1) =~= less);
        lemma_reflects_step(s, less, op);
    }
}

/// Which sorts occur depends on the set of operations alone.
proof fn lemma_same_sorts(a: Seq<OperationView>, b: Seq<OperationView>, sort: Sort)
    requires
        a.to_set() == b.to_set(),
    ensures
        some_op(a, sort) == some_op(b, sort),
{
    if some_op(a, sort) {
        let k = choose|k: int| 0 <= k < a.len() && is_of(#[trigger] a[k], sort);
        lemma_shared(a, b, k);
        let j = choose|j: int| 0 <= j < b.len() && b[j] == a[k];
        assert(is_of(b[j], sort));
    }
    if some_op(b, sort) {
        let k = choose|k: int| 0 <= k < b.len() && is_of(#[trigger] b[k], sort);
        lemma_shared(b, a, k);
        let j = choose|j: int| 0 <= j < a.len() && a[j] == b[k];
        assert(is_of(a[j], sort));
    }
}

proof fn lemma_shared(a: Seq<OperationView>, b: Seq<OperationView>, k: int)
    requires
        a.to_set() == b.to_set(),
        0 <= k < a.len(),
    ensures
        exists|j: int| 0 <= j < b.len() && b[j] == a[k],
{
    assert(a.to_set().contains(a[k]));
    assert(b.to_set().contains(a[k]));
}

proof fn lemma_latest_unique(
    a: Seq<OperationView>,
    b: Seq<OperationView>,
    target: OpId,
    n: int,
    first: (PropertyUpdate, OpId),
    r: (PropertyUpdate, OpId),
    q: (PropertyUpdate, OpId),
)
    requires
        a.to_set() == b.to_set(),
        named_once(a),
        latest(a, target, n, first, r),
        latest(b, target, n, first, q),
    ensures
        r == q,
{
    let x = OperationView::UpdateProperty { id: r.1, target, update: r.0 };
    let y = OperationView::UpdateProperty { id: q.1, target, update: q.0 };
    if r != first {
        let k = choose|k: int| 0 <= k < a.len() && a[k] == x;
        lemma_shared(a, b, k);
        let j = choose|j: int| 0 <= j < b.len() && b[j] == a[k];
        assert(is_of(b[j], Sort::Updates { target, slot: n }));
        assert(r.1.rank() <= q.1.rank());
    }
    if q != first {
        let k = choose|k: int| 0 <= k < b.len() && b[k] == y;
        lemma_shared(b, a, k);
        let j = choose|j: int| 0 <= j < a.len() && a[j] == b[k];
        assert(is_of(a[j], Sort::Updates { target, slot: n }));
        assert(q.1.rank() <= r.1.rank());
        if r != first {
            let m = choose|m: int| 0 <= m < a.len() && a[m] == x;
            types::lemma_rank_injective(r.1, q.1);
            assert(a[m].id() == a[j].id());
        }
    }
}

proof fn lemma_slots_decide(p: StrokeProperties, q: StrokeProperties)
    requires
        forall|n: int| 0 <= n < 4 ==> #[trigger] slot(p, n) == slot(q, n),
    ensures
        p == q,
{
    assert(slot(p, 0) == slot(q, 0));
    assert(slot(p, 1) == slot(q, 1));
    assert(slot(p, 2) == slot(q, 2));
    assert(slot(p, 3) == slot(q, 3));
}

proof fn lemma_same_strokes(s: DocumentView, t: DocumentView, a: Seq<OperationView>, b: Seq<OperationView>)
    requires
        a.to_set() == b.to_set(),
        named_once(a),
        ordered_by(s, a),
        ordered_by(t, b),
        styled_by(s, a),
        styled_by(t, b),
    ensures
        s.strokes == t.strokes,
{
    assert forall|id: OpId| #[trigger] s.strokes.contains_key(id) <==> t.strokes.contains_key(id) by {
        lemma_same_sorts(a, b, Sort::Inserts { id });
        assert(rga::has_id(s.items, id) <==> s.strokes.contains_key(id));
        assert(rga::has_id(t.items, id) <==> t.strokes.contains_key(id));
    }
    assert forall|id: OpId| #[trigger] s.strokes.contains_key(id) implies s.strokes[id] == t.strokes[id] by {
        assert(t.strokes.contains_key(id));
        assert(rga::has_id(s.items, id));
        let k = choose|k: int| 0 <= k < a.len() && is_of(#[trigger] a[k], Sort::Inserts { id });
        lemma_shared(a, b, k);
        let j = choose|j: int| 0 <= j < b.len() && b[j] == a[k];
        assert(is_of(b[j], Sort::Inserts { id }));
        let p = s.strokes[id].properties;
        let q = t.strokes[id].properties;
        assert forall|n: int| 0 <= n < 4 implies #[trigger] slot(p, n) == slot(q, n) by {
            lemma_latest_unique(a, b, id, n, slot(a[k]->properties, n), slot(p, n), slot(q, n));
        }
        lemma_slots_decide(p, q);
    }
    assert(s.strokes =~= t.strokes);
}

proof fn lemma_same_metadata(s: DocumentView, t: DocumentView, a: Seq<OperationView>, b: Seq<OperationView>)
    requires
        a.to_set() == b.to_set(),
        named_once(a),
        described_by(s, a),
        described_by(t, b),
    ensures
        s.metadata == t.metadata,
{
    assert forall|key: MetadataKeyView| #[trigger] s.metadata.contains_key(key) <==> t.metadata.contains_key(key) by {
        lemma_same_sorts(a, b, Sort::Sets { key });
    }
    assert forall|key: MetadataKeyView| #[trigger] s.metadata.contains_key(key) implies s.metadata[key]
        == t.metadata[key] by {
        assert(t.metadata.contains_key(key));
        let r = s.metadata[key];
        let q = t.metadata[key];
        let x = OperationView::UpdateMetadata { id: r.timestamp, key, value: r.value };
        let y = OperationView::UpdateMetadata { id: q.timestamp, key, value: q.value };
        let k = choose|k: int| 0 <= k < a.len() && a[k] == x;
        lemma_shared(a, b, k);
        let j = choose|j: int| 0 <= j < b.len() && b[j] == a[k];
        assert(is_of(b[j], Sort::Sets { key }));
        let l = choose|l: int| 0 <= l < b.len() && b[l] == y;
        lemma_shared(b, a, l);
        let m = choose|m: int| 0 <= m < a.len() && a[m] == b[l];
        assert(is_of(a[m], Sort::Sets { key }));
        types::lemma_rank_injective(r.timestamp, q.timestamp);
        assert(a[k].id() == a[m].id());
    }
    assert(s.metadata =~= t.metadata);
}

proof fn lemma_same_time(s: DocumentView, t: DocumentView, a: Seq<OperationView>, b: Seq<OperationView>)
    requires
        a.to_set() == b.to_set(),
        timed_by(s, a),
        timed_by(t, b),
    ensures
        s.clock <= t.clock,
        forall|x: u64| #[trigger] s.version.contains_key(x) <==> t.version.contains_key(x),
        forall|x: u64| #[trigger] s.version.contains_key(x) ==> s.version[x] <= t.version[x],
{
    if s.clock > 0 {
        let k = choose|k: int| 0 <= k < a.len() && (#[trigger] a[k]).id().lamport.0 == s.clock;
        lemma_shared(a, b, k);
        let j = choose|j: int| 0 <= j < b.len() && b[j] == a[k];
        assert(b[j].id().lamport.0 <= t.clock);
    }
    assert forall|x: u64| #[trigger] s.version.contains_key(x) <==> t.version.contains_key(x) by {
        lemma_same_sorts(a, b, Sort::By { actor: x });
    }
    assert forall|x: u64| #[trigger] s.version.contains_key(x) implies s.version[x] <= t.version[x] by {
        assert(t.version.contains_key(x));
        let k = choose|k: int|
            0 <= k < a.len() && is_of(#[trigger] a[k], Sort::By { actor: x }) && a[k].id().lamport.0 == s.version[x];
        lemma_shared(a, b, k);
        let j = choose|j: int| 0 <= j < b.len() && b[j] == a[k];
        assert(is_of(b[j], Sort::By { actor: x }));
    }
}

/// The set of operations decides the state of an item.
proof fn lemma_same_state(x: RgaItem, y: RgaItem, a: Seq<OperationView>, b: Seq<OperationView>)
    requires
        a.to_set() == b.to_set(),
        state_by(x, a),
        state_by(y, b),
        x.id == y.id,
    ensures
        x.state == y.state,
{
    lemma_same_sorts(a, b, Sort::Deletes { target: x.id });
    match (x.state, y.state) {
        (ItemState::Tombstone { deleted_at: p }, ItemState::Tombstone { deleted_at: q }) => {
            let k = choose|k: int| 0 <= k < a.len() && a[k] == (OperationView::DeleteStroke { id: p, target: x.id });
            lemma_shared(a, b, k);
            let j = choose|j: int| 0 <= j < b.len() && b[j] == a[k];
            assert(is_of(b[j], Sort::Deletes { target: x.id }));
            let l = choose|l: int| 0 <= l < b.len() && b[l] == (OperationView::DeleteStroke { id: q, target: x.id });
            lemma_shared(b, a, l);
            let m = choose|m: int| 0 <= m < a.len() && a[m] == b[l];
            assert(is_of(a[m], Sort::Deletes { target: x.id }));
            types::lemma_rank_injective(p, q);
        },
        (ItemState::Active, ItemState::Tombstone { deleted_at: q }) => {
            let l = choose|l: int| 0 <= l < b.len() && b[l] == (OperationView::DeleteStroke { id: q, target: x.id });
            assert(is_of(b[l], Sort::Deletes { target: x.id }));
        },
        (ItemState::Tombstone { deleted_at: p }, ItemState::Active) => {
            let k = choose|k: int| 0 <= k < a.len() && a[k] == (OperationView::DeleteStroke { id: p, target: x.id });
            assert(is_of(a[k], Sort::Deletes { target: x.id }));
        },
        _ => {},
    }
}

/// Two documents that reflect the same set of operations show the same.
pub proof fn lemma_reflection_decides(
    s: DocumentView,
    t: DocumentView,
    a: Seq<OperationView>,
    b: Seq<OperationView>,
)
    requires
        reflects(s, a),
        reflects(t, b),
        named_once(a),
        a.to_set() == b.to_set(),
    ensures
        same_replica(s, t),
{
    reveal(reflects);
    assert forall|id: OpId, up: OpId| #[trigger] convergence::linked(s.items, id, up) <==> convergence::linked(
        t.items,
        id,
        up,
    ) by {
        lemma_same_sorts(a, b, Sort::InsertsAt { id, up });
        assert(convergence::linked(t.items, id, up) <==> some_op(b, Sort::InsertsAt { id, up }));
    }
    convergence::law_order_is_a_function_of_the_set(s.items, t.items);
    assert forall|i: int| 0 <= i < s.items.len() implies #[trigger] s.items[i] == t.items[i] by {
        assert(s.items[i].id == t.items[i].id);
        assert(state_by(s.items[i], a) && state_by(t.items[i], b));
        lemma_same_state(s.items[i], t.items[i], a, b);
        assert(document::settled(s, s.items[i]));
        assert(document::settled(t, t.items[i]));
    }
    assert(s.items =~= t.items);
    lemma_same_strokes(s, t, a, b);
    lemma_same_metadata(s, t, a, b);
    lemma_same_time(s, t, a, b);
    lemma_same_time(t, s, b, a);
    assert(s.version =~= t.version) by {
        assert forall|x: u64| #[trigger] s.version.contains_key(x) implies s.version[x] == t.version[x] by {
            assert(t.version.contains_key(x));
        }
    }
}

/// Strong eventual consistency: two replicas that have applied the same set of
/// operations show the same, whatever the order of arrival and however often
/// an operation arrived, as long as each arrived after those it builds on.
pub proof fn law_replicas_converge(p: ActorId, q: ActorId, a: Seq<OperationView>, b: Seq<OperationView>)
    requires
        causal(a),
        causal(b),
        named_once(a),
        a.to_set() == b.to_set(),
        roomy(document::blank(p), a),
        roomy(document::blank(q), b),
    ensures
        same_replica(
            document::applied_all(document::blank(p), a),
            document::applied_all(document::blank(q), b),
        ),
{
    assert forall|j: int, k: int|
        0 <= j < b.len() && 0 <= k < b.len() && (#[trigger] b[j]).id() == (#[trigger] b[k]).id() implies b[j] == b[k] by {
        lemma_shared(b, a, j);
        lemma_shared(b, a, k);
        let x = choose|x: int| 0 <= x < a.len() && a[x] == b[j];
        let y = choose|y: int| 0 <= y < a.len() && a[y] == b[k];
        assert(a[x].id() == a[y].id());
    }
    lemma_reflects(p, a);
    lemma_reflects(q, b);
    lemma_reflection_decides(
        document::applied_all(document::blank(p), a),
        document::applied_all(document::blank(q), b),
        a,
        b,
    );
}

} // verus!
