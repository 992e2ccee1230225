//! What a replica does locally is what it sends.
//!
//! A replica that draws, deletes and restyles, and takes in operations of
//! others in between, ends up as one that was only sent the operations, in the
//! order in which they came into being or arrived. So replicas that edit and
//! exchange what they did agree.

use crate::agreement;
use crate::causal_buffer;
use crate::document;
use crate::document::DocumentView;
use crate::gc;
use crate::metadata::{MetadataKeyView, MetadataValueView};
use crate::operation::{OperationView, PropertyUpdate};
use crate::rga;
use crate::rga::{ItemState, RgaItem};
use crate::stroke::{StrokeDataView, StrokeProperties};
use crate::types::{ActorId, OpId};
use vstd::prelude::*;

verus! {

/// What happens at a replica: a local change, or the arrival of an operation.
pub enum Edit {
    /// A stroke is drawn; the path is already tidied.
    Draw { data: StrokeDataView, properties: StrokeProperties },
    Delete { target: OpId },
    Style { target: OpId, update: PropertyUpdate },
    Describe { key: MetadataKeyView, value: MetadataValueView },
    /// The last stroke drawn here is undone.
    Undo,
    Receive { op: OperationView },
}

/// The replica after something has happened.
pub open spec fn edited(s: DocumentView, e: Edit) -> DocumentView {
    match e {
        Edit::Draw { data, properties } => document::inserted(s, data, properties),
        Edit::Delete { target } => document::deleted(s, target),
        Edit::Style { target, update } => document::property_changed(s, target, update),
        Edit::Describe { key, value } => document::metadata_changed(s, key, value),
        Edit::Undo => document::undone(s).0,
        Edit::Receive { op } => document::applied(s, op),
    }
}

/// The operation that comes into being, or arrives: none where a stroke to be
/// deleted is gone or one to be restyled is not known.
pub open spec fn operation_of(s: DocumentView, e: Edit) -> Option<OperationView> {
    match e {
        Edit::Draw { data, properties } => Some(
            OperationView::InsertStroke {
                id: document::next_id(s),
                origin_left: document::top(s.items),
                origin_right: OpId::zero(),
                data,
                properties,
            },
        ),
        Edit::Delete { target } => if document::deletable(s, target) {
            Some(OperationView::DeleteStroke { id: document::next_id(s), target })
        } else {
            None
        },
        Edit::Style { target, update } => if s.strokes.contains_key(target) {
            Some(OperationView::UpdateProperty { id: document::next_id(s), target, update })
        } else {
            None
        },
        Edit::Describe { key, value } => Some(
            OperationView::UpdateMetadata { id: document::next_id(s), key, value: Some(value) },
        ),
        Edit::Undo => match document::undone(s).1 {
            Some(target) => Some(
                OperationView::DeleteStroke { id: document::next_id(skipped(s)), target },
            ),
            None => None,
        },
        Edit::Receive { op } => Some(op),
    }
}

/// The replica once an undo has skipped the strokes that are gone.
pub open spec fn skipped(s: DocumentView) -> DocumentView
    decreases s.undo.len(),
{
    if s.undo.len() == 0 || document::deletable(document::popped(s), s.undo.last()) {
        s
    } else {
        skipped(document::deleted(document::popped(s), s.undo.last()))
    }
}

/// Whether it can happen: the clock can go on, the document has room for a
/// stroke, and an operation of another replica finds what it builds on.
pub open spec fn able(s: DocumentView, e: Edit) -> bool {
    match e {
        Edit::Draw { .. } => s.clock < u64::MAX && s.items.len() < document::MAX_STROKES,
        Edit::Delete { .. } => s.clock < u64::MAX,
        Edit::Style { .. } => s.clock < u64::MAX,
        Edit::Describe { .. } => s.clock < u64::MAX,
        Edit::Undo => document::undo_fits(s),
        Edit::Receive { op } => {
            &&& causal_buffer::ready(s, op)
            &&& agreement::regular(op)
            &&& op is InsertStroke ==> s.items.len() < document::MAX_STROKES
        },
    }
}

/// A replica of an actor after all that has happened to it.
pub open spec fn session(actor: ActorId, edits: Seq<Edit>) -> DocumentView
    decreases edits.len(),
{
    if edits.len() == 0 {
        document::blank(actor)
    } else {
        edited(session(actor, edits.drop_last()), edits.last())
    }
}

/// The operations that came into being or arrived, in order.
pub open spec fn log_of(actor: ActorId, edits: Seq<Edit>) -> Seq<OperationView>
    decreases edits.len(),
{
    if edits.len() == 0 {
        seq![]
    } else {
        let rest = log_of(actor, edits.drop_last());
        match operation_of(session(actor, edits.drop_last()), edits.last()) {
            Some(op) => rest.push(op),
            None => rest,
        }
    }
}

/// Whether all of it can happen.
pub open spec fn feasible(actor: ActorId, edits: Seq<Edit>) -> bool
    decreases edits.len(),
{
    edits.len() == 0 || (feasible(actor, edits.drop_last()) && able(session(actor, edits.drop_last()), edits.last()))
}

/// Two documents hold the same strokes in the same order, and the same
/// metadata.
pub open spec fn alike(s: DocumentView, t: DocumentView) -> bool {
    &&& s.items == t.items
    &&& s.strokes == t.strokes
    &&& s.metadata == t.metadata
}

/// What an undo skips is gone, and skipping changes neither strokes nor order.
proof fn lemma_skipped(s: DocumentView)
    requires
        document::consistent(s),
        document::undo_fits(s),
    ensures
        document::consistent(skipped(s)),
        alike(skipped(s), s),
        skipped(s).pending == s.pending,
        skipped(s).actor == s.actor,
        document::undone(skipped(s)) == document::undone(s),
        skipped(s).undo.len() <= s.undo.len(),
        skipped(s).undo == s.undo.take(skipped(s).undo.len() as int),
        forall|j: int| skipped(s).undo.len() <= j < s.undo.len() ==> !document::deletable(s, #[trigger] s.undo[j]),
        skipped(s).undo.len() > 0 ==> document::deletable(s, skipped(s).undo.last()) && skipped(s).clock < u64::MAX,
        skipped(s).undo.len() > 0 ==> document::undone(s) == (
            document::deleted(document::popped(skipped(s)), skipped(s).undo.last()),
            Some(skipped(s).undo.last()),
        ),
        skipped(s).undo.len() == 0 ==> document::undone(s) == (skipped(s), None::<OpId>),
    decreases s.undo.len(),
{
    if s.undo.len() == 0 {
        assert(s.undo.take(0) =~= s.undo);
    } else if document::deletable(document::popped(s), s.undo.last()) {
        assert(s.undo.take(s.undo.len() as int) =~= s.undo);
        assert(document::deletable(s, s.undo.last()));
    } else {
        let id = s.undo.last();
        let t = document::deleted(document::popped(s), id);
        assert(t.undo == s.undo.drop_last());
        assert forall|i: int| 0 <= i < t.items.len() implies document::settled(t, #[trigger] t.items[i]) by {
            assert(document::settled(s, s.items[i]));
        }
        lemma_skipped(t);
        let n = skipped(s).undo.len() as int;
        assert(t.undo.take(n) =~= s.undo.take(n));
        assert forall|j: int| n <= j < s.undo.len() implies !document::deletable(s, #[trigger] s.undo[j]) by {
            if j < t.undo.len() {
                assert(t.undo[j] == s.undo[j]);
                assert(!document::deletable(t, t.undo[j]));
            }
        }
    }
}

/// An undo deletes the stroke drawn here last that is still visible, and sends
/// that deletion; strokes that are gone already are passed over. Where none is
/// left, nothing is deleted and nothing is sent.
pub proof fn law_undo_deletes_the_last_visible_stroke(s: DocumentView)
    requires
        document::consistent(s),
        document::undo_fits(s),
    ensures
        ({
            let (t, gone) = document::undone(s);
            match gone {
                Some(id) => {
                    &&& document::deletable(s, id)
                    &&& !document::deletable(t, id)
                    &&& t.pending == s.pending.push(
                        OperationView::DeleteStroke { id: document::next_id(skipped(s)), target: id },
                    )
                    &&& t.undo.push(id) == s.undo.take(t.undo.len() + 1int)
                    &&& forall|j: int|
                        t.undo.len() < j < s.undo.len() ==> !document::deletable(s, #[trigger] s.undo[j])
                },
                None => {
                    &&& alike(t, s)
                    &&& t.pending == s.pending
                    &&& t.undo.len() == 0
                    &&& forall|j: int| 0 <= j < s.undo.len() ==> !document::deletable(s, #[trigger] s.undo[j])
                },
            }
        }),
{
    lemma_skipped(s);
    let u = skipped(s);
    if u.undo.len() > 0 {
        let id = u.undo.last();
        let t = document::undone(s).0;
        assert(t.undo == u.undo.drop_last());
        assert(u.undo.drop_last().push(id) =~= u.undo);
        let at = rga::position(u.items, id);
        assert(t.items[at].id == id);
        assert(rga::has_id(t.items, id));
        document::lemma_tombstoned_ids(u.items, id, document::next_id(u));
        let p = rga::position(t.items, id);
        assert(u.items[p].id == id);
        assert(p == at);
    }
}

/// Undoing right after drawing shows again what was shown before.
pub proof fn law_undo_takes_back_a_stroke(s: DocumentView, data: StrokeDataView, properties: StrokeProperties)
    requires
        document::consistent(s),
        s.clock + 1 < u64::MAX,
    ensures
        ({
            let (t, gone) = document::undone(document::inserted(s, data, properties));
            &&& gone == Some(document::next_id(s))
            &&& rga::visible(t.items) == rga::visible(s.items)
            &&& document::visible_ids(t.items) == document::visible_ids(s.items)
        }),
{
    let id = document::next_id(s);
    let item = document::fresh_item(id, document::top(s.items), OpId::zero());
    let d = document::inserted(s, data, properties);
    document::lemma_inserted(s, data, properties);
    assert(!rga::has_id(s.items, id)) by {
        if rga::has_id(s.items, id) {
            let i = rga::position(s.items, id);
            assert(document::settled(s, s.items[i]));
        }
    }
    rga::lemma_insert_position(s.items, item);
    let at = rga::insert_position(s.items, item);
    assert(d.items == s.items.insert(at, item));
    assert(d.items[at] == item);
    rga::lemma_position(d.items, at);
    let now = document::next_id(d);
    let dead = RgaItem { state: ItemState::Tombstone { deleted_at: now }, ..item };
    let t = document::undone(d).0;
    assert(t.items == d.items.update(at, dead));
    let l = s.items.take(at);
    let r = s.items.skip(at);
    assert(s.items =~= l + r);
    assert(t.items =~= l + seq![dead] + r);
    rga::lemma_visible_add(l, r);
    rga::lemma_visible_add(l + seq![dead], r);
    rga::lemma_visible_add(l, seq![dead]);
    assert(rga::visible(seq![dead]) =~= seq![]) by {
        reveal_with_fuel(Seq::filter, 2);
    }
    assert(rga::visible(l) + seq![] =~= rga::visible(l));
}

/// A local operation comes after everything that was seen before it.
pub proof fn law_local_operations_come_later(s: DocumentView, ops: Seq<OperationView>, k: int)
    requires
        0 <= k < ops.len(),
        document::applied_all(s, ops).clock < u64::MAX,
    ensures
        ops[k].id().lamport.0 < document::next_id(document::applied_all(s, ops)).lamport.0,
        ops[k].id().rank() < document::next_id(document::applied_all(s, ops)).rank(),
    decreases ops.len(),
{
    lemma_clock(s, ops, k);
}

proof fn lemma_clock(s: DocumentView, ops: Seq<OperationView>, k: int)
    requires
        0 <= k < ops.len(),
    ensures
        ops[k].id().lamport.0 <= document::applied_all(s, ops).clock,
    decreases ops.len(),
{
    if k < ops.len() - 1 {
        assert(ops.drop_last()[k] == ops[k]);
        lemma_clock(s, ops.drop_last(), k);
    }
}

/// Operations of others never take a document past its limit.
pub proof fn law_remote_operations_keep_the_limit(s: DocumentView, ops: Seq<OperationView>)
    requires
        s.items.len() <= document::MAX_STROKES,
    ensures
        document::applied_all(s, ops).items.len() <= document::MAX_STROKES,
    decreases ops.len(),
{
    if ops.len() > 0 {
        law_remote_operations_keep_the_limit(s, ops.drop_last());
        let t = document::applied_all(s, ops.drop_last());
        match ops.last() {
            OperationView::InsertStroke { id, origin_left, origin_right, .. } => {
                rga::lemma_insert_position(t.items, document::fresh_item(id, origin_left, origin_right));
            },
            _ => {},
        }
    }
}

/// A local change does what the operation that it sends does elsewhere, and
/// sends exactly that.
pub proof fn law_local_change_is_what_is_sent(s: DocumentView, e: Edit)
    requires
        document::consistent(s),
        able(s, e),
    ensures
        document::consistent(edited(s, e)),
        match operation_of(s, e) {
            Some(op) => alike(edited(s, e), document::applied(s, op)),
            None => alike(edited(s, e), s),
        },
        e !is Receive ==> edited(s, e).pending == (match operation_of(s, e) {
            Some(op) => s.pending.push(op),
            None => s.pending,
        }),
        e is Receive ==> edited(s, e).pending == s.pending,
{
    match e {
        Edit::Draw { data, properties } => {
            document::lemma_inserted(s, data, properties);
            assert(!rga::has_id(s.items, document::next_id(s))) by {
                if rga::has_id(s.items, document::next_id(s)) {
                    let i = rga::position(s.items, document::next_id(s));
                    assert(document::settled(s, s.items[i]));
                }
            }
        },
        Edit::Delete { target } => {
            document::lemma_tombstoned_ids(s.items, target, document::next_id(s));
            let t = edited(s, e);
            assert forall|i: int| 0 <= i < t.items.len() implies document::settled(t, #[trigger] t.items[i]) by {
                assert(document::settled(s, s.items[i]));
            }
        },
        Edit::Style { target, update } => {
            let t = edited(s, e);
            assert forall|i: int| 0 <= i < t.items.len() implies document::settled(t, #[trigger] t.items[i]) by {
                assert(document::settled(s, s.items[i]));
            }
        },
        Edit::Describe { key, value } => {
            let t = edited(s, e);
            assert forall|i: int| 0 <= i < t.items.len() implies document::settled(t, #[trigger] t.items[i]) by {
                assert(document::settled(s, s.items[i]));
            }
        },
        Edit::Undo => {
            lemma_skipped(s);
            law_undo_deletes_the_last_visible_stroke(s);
            let u = skipped(s);
            let t = edited(s, e);
            if u.undo.len() > 0 {
                let p = document::popped(u);
                let id = u.undo.last();
                document::lemma_tombstoned_ids(p.items, id, document::next_id(p));
                assert forall|i: int| 0 <= i < t.items.len() implies document::settled(t, #[trigger] t.items[i]) by {
                    assert(document::settled(u, u.items[i]));
                }
            }
        },
        Edit::Receive { op } => {
            document::lemma_applied_consistent(s, op);
        },
    }
}

/// What a change makes finds what it builds on.
pub proof fn lemma_operation_is_ready(s: DocumentView, e: Edit)
    requires
        document::consistent(s),
        able(s, e),
        operation_of(s, e) is Some,
    ensures
        causal_buffer::ready(s, operation_of(s, e)->0),
        agreement::regular(operation_of(s, e)->0),
        operation_of(s, e)->0 is InsertStroke ==> s.items.len() < document::MAX_STROKES,
{
    match e {
        Edit::Draw { .. } => {
            if rga::visible(s.items).len() > 0 {
                let k = rga::visible(s.items).len() - 1;
                rga::lemma_visible_in(s.items, k);
                let i = choose|i: int| 0 <= i < s.items.len() && s.items[i] == rga::visible(s.items)[k];
                assert(s.items[i].id == document::top(s.items));
                assert(rga::has_id(s.items, document::top(s.items)));
            }
        },
        Edit::Undo => {
            lemma_skipped(s);
        },
        _ => {},
    }
}

/// Documents that are alike stay so when the same operation arrives.
proof fn lemma_applied_alike(s: DocumentView, t: DocumentView, op: OperationView)
    requires
        alike(s, t),
    ensures
        alike(document::applied(s, op), document::applied(t, op)),
        causal_buffer::ready(s, op) == causal_buffer::ready(t, op),
{
}

/// A replica that edits and receives holds what one holds that was sent all
/// the operations. They are in a causal order.
pub proof fn law_session_is_its_log(actor: ActorId, edits: Seq<Edit>)
    requires
        feasible(actor, edits),
        agreement::named_once(log_of(actor, edits)),
    ensures
        document::consistent(session(actor, edits)),
        alike(session(actor, edits), document::applied_all(document::blank(actor), log_of(actor, edits))),
        agreement::causal(log_of(actor, edits)),
        agreement::roomy(document::blank(actor), log_of(actor, edits)),
        agreement::reflects(
            document::applied_all(document::blank(actor), log_of(actor, edits)),
            log_of(actor, edits),
        ),
    decreases edits.len(),
{
    let s0 = document::blank(actor);
    if edits.len() == 0 {
        agreement::lemma_reflects(actor, seq![]);
    } else {
        let before = edits.drop_last();
        let e = edits.last();
        let s = session(actor, before);
        let log = log_of(actor, before);
        let t = document::applied_all(s0, log);
        let all = log_of(actor, edits);
        assert(agreement::named_once(log)) by {
            assert forall|j: int, k: int|
                0 <= j < log.len() && 0 <= k < log.len() && (#[trigger] log[j]).id() == (#[trigger] log[k]).id() implies
                log[j] == log[k] by {
                assert(all[j] == log[j]);
                assert(all[k] == log[k]);
            }
        }
        law_session_is_its_log(actor, before);
        law_local_change_is_what_is_sent(s, e);
        match operation_of(s, e) {
            Some(op) => {
                lemma_operation_is_ready(s, e);
                lemma_applied_alike(s, t, op);
                agreement::lemma_ready_is_founded(t, log, op);
                agreement::lemma_reflects_step(t, log, op);
                assert(all.drop_last() =~= log);
                assert(document::applied_all(s0, all) == document::applied(t, op));
                assert forall|k: int| 0 <= k < all.len() implies agreement::founded(all.take(k), #[trigger] all[k])
                    && agreement::regular(all[k]) by {
                    if k < log.len() {
                        assert(all[k] == log[k]);
                        assert(all.take(k) =~= log.take(k));
                    } else {
                        assert(all.take(k) =~= log);
                    }
                }
                assert forall|k: int| 0 <= k < all.len() && (#[trigger] all[k]) is InsertStroke implies
                    document::applied_all(s0, all.take(k)).items.len() < document::MAX_STROKES by {
                    if k < log.len() {
                        assert(all[k] == log[k]);
                        assert(all.take(k) =~= log.take(k));
                    } else {
                        assert(all.take(k) =~= log);
                    }
                }
            },
            None => {},
        }
    }
}

/// Strong eventual consistency of replicas that edit: two that have made or
/// received the same set of operations hold the same strokes in the same
/// order, the same of them deleted, with the same paths, properties and
/// metadata, whatever each did itself and in whatever order the rest arrived.
pub proof fn law_editing_replicas_converge(p: ActorId, q: ActorId, a: Seq<Edit>, b: Seq<Edit>)
    requires
        feasible(p, a),
        feasible(q, b),
        agreement::named_once(log_of(p, a)),
        agreement::named_once(log_of(q, b)),
        log_of(p, a).to_set() == log_of(q, b).to_set(),
    ensures
        document::visible_ids(session(p, a).items) == document::visible_ids(session(q, b).items),
        alike(session(p, a), session(q, b)),
{
    law_session_is_its_log(p, a);
    law_session_is_its_log(q, b);
    agreement::lemma_reflection_decides(
        document::applied_all(document::blank(p), log_of(p, a)),
        document::applied_all(document::blank(q), log_of(q, b)),
        log_of(p, a),
        log_of(q, b),
    );
}

/// Replicas that edit, have made or received the same set of operations, and
/// are told the same, collect the same, and hold the same items with the same
/// origins afterwards.
pub proof fn law_editing_replicas_collect_alike(
    p: ActorId,
    q: ActorId,
    a: Seq<Edit>,
    b: Seq<Edit>,
    mvv: Map<u64, u64>,
    max: nat,
)
    requires
        feasible(p, a),
        feasible(q, b),
        agreement::named_once(log_of(p, a)),
        agreement::named_once(log_of(q, b)),
        log_of(p, a).to_set() == log_of(q, b).to_set(),
    ensures
        ({
            let s = DocumentView { min_version: mvv, ..session(p, a) };
            let t = DocumentView { min_version: mvv, ..session(q, b) };
            &&& gc::collected(s, max) == gc::collected(t, max)
            &&& alike(gc::swept_document(s, max), gc::swept_document(t, max))
        }),
{
    law_editing_replicas_converge(p, q, a, b);
}

/// The strokes that can be undone were drawn here, and there are never more
/// than the limit.
pub proof fn law_undo_stack_is_own_and_bounded(actor: ActorId, edits: Seq<Edit>)
    ensures
        session(actor, edits).actor == actor,
        session(actor, edits).undo.len() <= document::MAX_UNDO_DEPTH,
        forall|k: int|
            0 <= k < session(actor, edits).undo.len() ==> (#[trigger] session(actor, edits).undo[k]).actor == actor,
    decreases edits.len(),
{
    if edits.len() > 0 {
        law_undo_stack_is_own_and_bounded(actor, edits.drop_last());
        let s = session(actor, edits.drop_last());
        match edits.last() {
            Edit::Undo => {
                lemma_undo_stack(s);
            },
            _ => {},
        }
    }
}

proof fn lemma_undo_stack(s: DocumentView)
    ensures
        document::undone(s).0.actor == s.actor,
        document::undone(s).0.undo.len() <= s.undo.len(),
        document::undone(s).0.undo == s.undo.take(document::undone(s).0.undo.len() as int),
    decreases s.undo.len(),
{
    if s.undo.len() == 0 {
        assert(s.undo.take(0) =~= s.undo);
    } else {
        let id = s.undo.last();
        let t = document::deleted(document::popped(s), id);
        if document::deletable(document::popped(s), id) {
            assert(s.undo.drop_last() =~= s.undo.take(s.undo.len() - 1));
        } else {
            lemma_undo_stack(t);
            let n = document::undone(t).0.undo.len() as int;
            assert(t.undo.take(n) =~= s.undo.take(n));
        }
    }
}

} // verus!
