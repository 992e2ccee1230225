//! What a room sends to a client that joins is what the client takes in.

use crate::causal_buffer;
use crate::client;
use crate::client::ClientView;
use crate::document;
use crate::document::DocumentView;
use crate::encoding;
use crate::float::F64;
use crate::gc;
use crate::metadata::{MetadataKeyView, MetadataValueView};
use crate::operation::OperationView;
use crate::protocol;
use crate::room;
use crate::room::RoomView;
use crate::round_trip;
use crate::snapshot;
use crate::stroke::LwwRegister;
use crate::types;
use crate::types::{ActorId, OpId};
use vstd::prelude::*;

verus! {

/// The frame that brings a client up to date.
pub open spec fn sync_frame(r: RoomView, image: Seq<u8>, version: Map<u64, u64>) -> Seq<u8> {
    protocol::frame_bytes(room::catch_up(r, image, version))
}

/// A client whose version the log reaches back to takes in exactly the logged
/// operations that it lacks, and is ready afterwards.
pub proof fn law_client_takes_in_what_it_lacks(
    s: ClientView,
    r: RoomView,
    image: Seq<u8>,
    version: Map<u64, u64>,
    q: spec_fn(usize, usize) -> F64,
)
    requires
        types::dominated(r.base, version),
        room::missing(r.log, version).len() <= document::MAX_STROKES,
        forall|i: int|
            0 <= i < room::missing(r.log, version).len() ==> round_trip::sendable_op(
                #[trigger] room::missing(r.log, version)[i],
            ),
        encoding::update_blob(room::missing(r.log, version)).len() <= u64::MAX,
        causal_buffer::absorbed(s.doc, s.held, s.capacity, round_trip::reread_all(room::missing(r.log, version))).2,
    ensures
        ({
            let t = client::received(s, sync_frame(r, image, version), q).0;
            let (doc, held, _) = causal_buffer::absorbed(
                s.doc,
                s.held,
                s.capacity,
                round_trip::reread_all(room::missing(r.log, version)),
            );
            t.doc == doc && t.held == held && t.loaded
        }),
{
    let ops = room::missing(r.log, version);
    round_trip::law_update_round_trip(ops);
    protocol::law_message_round_trip(room::catch_up(r, image, version));
}

/// A client that the log does not reach back to is sent the whole document: it
/// then holds what the room holds, under its own name.
pub proof fn law_client_takes_over_the_document(
    s: ClientView,
    r: RoomView,
    pairs: Seq<(MetadataKeyView, LwwRegister<Option<MetadataValueView>>)>,
    version: Map<u64, u64>,
    q: spec_fn(usize, usize) -> F64,
)
    requires
        !types::dominated(r.base, version),
        snapshot::storable(r.doc, pairs),
        snapshot::snapshot_bytes(r.doc, pairs).len() <= u64::MAX,
        s.actor is Some,
    ensures
        ({
            let t = client::received(s, sync_frame(r, snapshot::snapshot_bytes(r.doc, pairs), version), q).0;
            t.doc == snapshot::restored(r.doc, s.actor->0) && t.held.len() == 0 && t.loaded
        }),
{
    let image = snapshot::snapshot_bytes(r.doc, pairs);
    snapshot::law_snapshot_round_trip(r.doc, pairs, s.actor->0);
    protocol::law_message_round_trip(room::catch_up(r, image, version));
}

/// Whether two lists of operations are the same but for the bounds of paths.
pub open spec fn same_operations(a: Seq<OperationView>, b: Seq<OperationView>) -> bool {
    round_trip::reread_all(a) == round_trip::reread_all(b)
}

proof fn lemma_same_at(a: Seq<OperationView>, b: Seq<OperationView>, i: int)
    requires
        same_operations(a, b),
        0 <= i < a.len(),
    ensures
        a.len() == b.len(),
        round_trip::reread(a[i]) == round_trip::reread(b[i]),
{
    assert(round_trip::reread_all(a).len() == a.len());
    assert(round_trip::reread_all(b).len() == b.len());
    assert(round_trip::reread_all(a)[i] == round_trip::reread(a[i]));
    assert(round_trip::reread_all(b)[i] == round_trip::reread(b[i]));
}

proof fn lemma_same_push(a: Seq<OperationView>, b: Seq<OperationView>, x: OperationView, y: OperationView)
    requires
        same_operations(a, b),
        round_trip::reread(x) == round_trip::reread(y),
    ensures
        same_operations(a.push(x), b.push(y)),
{
    assert(round_trip::reread_all(a.push(x)) =~= round_trip::reread_all(a).push(round_trip::reread(x)));
    assert(round_trip::reread_all(b.push(y)) =~= round_trip::reread_all(b).push(round_trip::reread(y)));
}

proof fn lemma_same_drop(a: Seq<OperationView>, b: Seq<OperationView>)
    requires
        same_operations(a, b),
        a.len() > 0,
    ensures
        b.len() == a.len(),
        same_operations(a.drop_last(), b.drop_last()),
        round_trip::reread(a.last()) == round_trip::reread(b.last()),
{
    lemma_same_at(a, b, a.len() - 1);
    assert(round_trip::reread_all(a.drop_last()) =~= round_trip::reread_all(a).drop_last());
    assert(round_trip::reread_all(b.drop_last()) =~= round_trip::reread_all(b).drop_last());
}

proof fn lemma_same_sum(a: Seq<OperationView>, b: Seq<OperationView>, c: Seq<OperationView>, d: Seq<OperationView>)
    requires
        same_operations(a, b),
        same_operations(c, d),
    ensures
        same_operations(a + c, b + d),
{
    assert(round_trip::reread_all(a + c) =~= round_trip::reread_all(a) + round_trip::reread_all(c));
    assert(round_trip::reread_all(b + d) =~= round_trip::reread_all(b) + round_trip::reread_all(d));
}

/// The same operation, but for the bounds of its path, does the same to
/// documents that hold the same, but for the bounds of paths.
proof fn lemma_same_step(s: DocumentView, t: DocumentView, x: OperationView, y: OperationView)
    requires
        snapshot::equivalent(s, t),
        round_trip::reread(x) == round_trip::reread(y),
    ensures
        snapshot::equivalent(document::applied(s, x), document::applied(t, y)),
        causal_buffer::ready(s, x) == causal_buffer::ready(t, y),
{
    let u = document::applied(s, x);
    let v = document::applied(t, y);
    let a = snapshot::reread_strokes(s.strokes);
    let b = snapshot::reread_strokes(t.strokes);
    assert forall|id: OpId| s.strokes.contains_key(id) <==> #[trigger] t.strokes.contains_key(id) by {
        assert(a.contains_key(id) <==> b.contains_key(id));
    }
    assert forall|id: OpId| #[trigger] u.strokes.contains_key(id) implies v.strokes.contains_key(id)
        && snapshot::reread_strokes(u.strokes)[id] == snapshot::reread_strokes(v.strokes)[id] by {
        assert(s.strokes.contains_key(id) ==> a[id] == b[id] && t.strokes.contains_key(id));
    }
    assert(snapshot::reread_strokes(u.strokes) =~= snapshot::reread_strokes(v.strokes));
}

proof fn lemma_same_all(s: DocumentView, t: DocumentView, a: Seq<OperationView>, b: Seq<OperationView>)
    requires
        snapshot::equivalent(s, t),
        same_operations(a, b),
    ensures
        snapshot::equivalent(document::applied_all(s, a), document::applied_all(t, b)),
    decreases a.len(),
{
    assert(round_trip::reread_all(a).len() == a.len() && round_trip::reread_all(b).len() == b.len());
    if a.len() > 0 {
        lemma_same_drop(a, b);
        lemma_same_all(s, t, a.drop_last(), b.drop_last());
        lemma_same_step(
            document::applied_all(s, a.drop_last()),
            document::applied_all(t, b.drop_last()),
            a.last(),
            b.last(),
        );
    }
}

proof fn lemma_same_selected(
    s: DocumentView,
    t: DocumentView,
    a: Seq<OperationView>,
    b: Seq<OperationView>,
    want: bool,
)
    requires
        snapshot::equivalent(s, t),
        same_operations(a, b),
    ensures
        same_operations(causal_buffer::select(s, a, want), causal_buffer::select(t, b, want)),
    decreases a.len(),
{
    assert(round_trip::reread_all(a).len() == a.len() && round_trip::reread_all(b).len() == b.len());
    if a.len() > 0 {
        lemma_same_drop(a, b);
        lemma_same_selected(s, t, a.drop_last(), b.drop_last(), want);
        lemma_same_step(s, t, a.last(), b.last());
        lemma_same_push(
            causal_buffer::select(s, a.drop_last(), want),
            causal_buffer::select(t, b.drop_last(), want),
            a.last(),
            b.last(),
        );
    }
}

proof fn lemma_same_released(s: DocumentView, t: DocumentView, a: Seq<OperationView>, b: Seq<OperationView>)
    requires
        snapshot::equivalent(s, t),
        same_operations(a, b),
    ensures
        same_operations(causal_buffer::released(s, a), causal_buffer::released(t, b)),
        same_operations(causal_buffer::retained(s, a), causal_buffer::retained(t, b)),
    decreases a.len(),
{
    let x = causal_buffer::select(s, a, true);
    let y = causal_buffer::select(t, b, true);
    lemma_same_selected(s, t, a, b, true);
    lemma_same_selected(s, t, a, b, false);
    causal_buffer::lemma_select(s, a);
    assert(round_trip::reread_all(x).len() == x.len() && round_trip::reread_all(y).len() == y.len());
    if x.len() > 0 {
        lemma_same_all(s, t, x, y);
        let u = document::applied_all(s, x);
        let v = document::applied_all(t, y);
        lemma_same_released(u, v, causal_buffer::select(s, a, false), causal_buffer::select(t, b, false));
        lemma_same_sum(
            x,
            y,
            causal_buffer::released(u, causal_buffer::select(s, a, false)),
            causal_buffer::released(v, causal_buffer::select(t, b, false)),
        );
    }
}

proof fn lemma_same_absorbed(
    s: DocumentView,
    t: DocumentView,
    h: Seq<OperationView>,
    k: Seq<OperationView>,
    m: usize,
    n: usize,
    a: Seq<OperationView>,
    b: Seq<OperationView>,
)
    requires
        snapshot::equivalent(s, t),
        same_operations(h, k),
        same_operations(a, b),
        causal_buffer::absorbed(s, h, m, a).2,
        causal_buffer::absorbed(t, k, n, b).2,
    ensures
        snapshot::equivalent(causal_buffer::absorbed(s, h, m, a).0, causal_buffer::absorbed(t, k, n, b).0),
        same_operations(causal_buffer::absorbed(s, h, m, a).1, causal_buffer::absorbed(t, k, n, b).1),
    decreases a.len(),
{
    assert(round_trip::reread_all(a).len() == a.len() && round_trip::reread_all(b).len() == b.len());
    if a.len() > 0 {
        lemma_same_drop(a, b);
        lemma_same_absorbed(s, t, h, k, m, n, a.drop_last(), b.drop_last());
        let (u, w, _) = causal_buffer::absorbed(s, h, m, a.drop_last());
        let (v, z, _) = causal_buffer::absorbed(t, k, n, b.drop_last());
        lemma_same_push(w, z, a.last(), b.last());
        let x = w.push(a.last());
        let y = z.push(b.last());
        lemma_same_released(u, v, x, y);
        lemma_same_all(u, v, causal_buffer::released(u, x), causal_buffer::released(v, y));
    }
}

/// Operations are absorbed one after another.
proof fn lemma_absorbed_sum(
    s: DocumentView,
    h: Seq<OperationView>,
    m: usize,
    a: Seq<OperationView>,
    b: Seq<OperationView>,
)
    ensures
        ({
            let (t, k, ok) = causal_buffer::absorbed(s, h, m, a);
            causal_buffer::absorbed(s, h, m, a + b) == if ok {
                causal_buffer::absorbed(t, k, m, b)
            } else {
                (t, k, false)
            }
        }),
    decreases b.len(),
{
    if b.len() == 0 {
        assert(a + b =~= a);
    } else {
        lemma_absorbed_sum(s, h, m, a, b.drop_last());
        assert((a + b).drop_last() =~= a + b.drop_last());
        assert((a + b).last() == b.last());
        let (t, k, ok) = causal_buffer::absorbed(s, h, m, a);
        if !ok {
            assert(!causal_buffer::absorbed(s, h, m, a + b.drop_last()).2);
        }
    }
}

/// Whether a room holds what comes of its log: what a document holds to which
/// the logged operations came, and nothing was collected since.
pub open spec fn holds_its_log(r: RoomView) -> bool {
    let (doc, held, ok) = causal_buffer::absorbed(document::blank(ActorId(0)), seq![], r.capacity, r.log);
    &&& ok
    &&& snapshot::equivalent(r.doc, doc)
    &&& same_operations(r.held, held)
    &&& document::consistent(r.doc)
    &&& r.base == Map::<u64, u64>::empty()
}

/// A room that nobody has entered holds what comes of its log.
pub proof fn law_vacant_room_holds_its_log()
    ensures
        holds_its_log(room::vacant()),
{
}

/// A room goes on holding what comes of its log when it takes in an update, as
/// long as no tombstones are collected.
pub proof fn law_room_holds_what_it_logged(
    r: RoomView,
    actor: ActorId,
    ops: Seq<OperationView>,
    q: spec_fn(usize, usize) -> F64,
)
    requires
        holds_its_log(r),
        room::takes(r, ops),
        r.doc.items.len() + ops.len() + r.held.len() <= usize::MAX,
        room::surveyed(room::logged(r, actor, ops), q).doc.items.len() == room::logged(r, actor, ops).doc.items.len(),
    ensures
        holds_its_log(room::surveyed(room::logged(r, actor, ops), q)),
        room::surveyed(room::logged(r, actor, ops), q).log == r.log + ops,
{
    let before = room::logged(r, actor, ops);
    let t = room::surveyed(before, q);
    room::law_accepted_updates_are_logged(r, actor, ops, q);
    room::lemma_absorbed_consistent(r.doc, r.held, r.capacity, ops);
    room::law_survey_leaves_the_rest(before, q);
    let blank = document::blank(ActorId(0));
    let (doc, held, _) = causal_buffer::absorbed(blank, seq![], r.capacity, r.log);
    lemma_absorbed_sum(blank, seq![], r.capacity, r.log, ops);
    lemma_fits_alike(r.doc, doc, r.held, held, r.capacity, ops);
    lemma_same_absorbed(r.doc, doc, r.held, held, r.capacity, r.capacity, ops, ops);
    lemma_survey_keeps(before, q);
}

/// Where operations find room at a document, they find it at one that holds the
/// same, too.
proof fn lemma_fits_alike(
    s: DocumentView,
    t: DocumentView,
    h: Seq<OperationView>,
    k: Seq<OperationView>,
    m: usize,
    ops: Seq<OperationView>,
)
    requires
        snapshot::equivalent(s, t),
        same_operations(h, k),
        causal_buffer::absorbed(s, h, m, ops).2,
    ensures
        causal_buffer::absorbed(t, k, m, ops).2,
    decreases ops.len(),
{
    if ops.len() > 0 {
        lemma_fits_alike(s, t, h, k, m, ops.drop_last());
        lemma_same_absorbed(s, t, h, k, m, m, ops.drop_last(), ops.drop_last());
        let w = causal_buffer::absorbed(s, h, m, ops.drop_last()).1;
        let z = causal_buffer::absorbed(t, k, m, ops.drop_last()).1;
        assert(round_trip::reread_all(w).len() == w.len() && round_trip::reread_all(z).len() == z.len());
    }
}

/// A survey that takes no item away changes no item and no stroke.
proof fn lemma_survey_keeps(r: RoomView, q: spec_fn(usize, usize) -> F64)
    requires
        document::consistent(r.doc),
        r.doc.items.len() <= usize::MAX,
        room::surveyed(r, q).doc.items.len() == r.doc.items.len(),
    ensures
        snapshot::equivalent(room::surveyed(r, q).doc, r.doc),
        document::consistent(room::surveyed(r, q).doc),
{
    if r.clients.len() > 0 {
        let told = DocumentView { min_version: room::floor(r.clients), ..r.doc };
        let max = gc::standard().max_gc_per_cycle as nat;
        assert(document::consistent(told)) by {
            assert forall|i: int| 0 <= i < told.items.len() implies document::settled(told, #[trigger] told.items[i]) by {
                assert(document::settled(r.doc, r.doc.items[i]));
            }
        }
        if gc::due(told, gc::standard(), q) {
            gc::lemma_nothing_collected(told, max);
        }
        let t = room::surveyed(r, q).doc;
        assert(t.items == r.doc.items && t.strokes == r.doc.strokes);
        assert forall|i: int| 0 <= i < t.items.len() implies document::settled(t, #[trigger] t.items[i]) by {
            assert(document::settled(r.doc, r.doc.items[i]));
        }
    }
}

/// A client that has taken in the first operations of a room's log, and has
/// seen those and no others, is sent the rest. It then holds what the room
/// holds: the same strokes in the same order, with the same points, tools,
/// properties and metadata, at the same time.
pub proof fn law_caught_up_client_holds_the_document(
    s: ClientView,
    r: RoomView,
    image: Seq<u8>,
    version: Map<u64, u64>,
    q: spec_fn(usize, usize) -> F64,
    actor: ActorId,
    n: int,
)
    requires
        holds_its_log(r),
        0 <= n <= r.log.len(),
        forall|i: int|
            0 <= i < r.log.len() ==> ((#[trigger] r.log[i]).id().lamport.0 == 0 || (version.contains_key(
                r.log[i].id().actor.0,
            ) && r.log[i].id().lamport.0 <= version[r.log[i].id().actor.0]) <==> i < n),
        ({
            let (doc, held, ok) = causal_buffer::absorbed(
                document::blank(actor),
                seq![],
                s.capacity,
                round_trip::reread_all(r.log.take(n)),
            );
            ok && s.doc == doc && s.held == held
        }),
        causal_buffer::absorbed(document::blank(actor), seq![], s.capacity, round_trip::reread_all(r.log)).2,
        r.log.len() <= document::MAX_STROKES,
        forall|i: int| 0 <= i < r.log.len() ==> round_trip::sendable_op(#[trigger] r.log[i]),
        encoding::update_blob(r.log.skip(n)).len() <= u64::MAX,
    ensures
        ({
            let t = client::received(s, sync_frame(r, image, version), q).0;
            &&& t.loaded
            &&& t.doc.items == r.doc.items
            &&& document::visible_ids(t.doc.items) == document::visible_ids(r.doc.items)
            &&& forall|id: OpId| #[trigger] t.doc.strokes.contains_key(id) <==> r.doc.strokes.contains_key(id)
            &&& forall|id: OpId| #[trigger]
                t.doc.strokes.contains_key(id) ==> t.doc.strokes[id].data.points == r.doc.strokes[id].data.points
                    && t.doc.strokes[id].data.tool == r.doc.strokes[id].data.tool && t.doc.strokes[id].properties
                    == r.doc.strokes[id].properties
            &&& t.doc.metadata == r.doc.metadata
            &&& t.doc.clock == r.doc.clock
            &&& t.doc.version == r.doc.version
        }),
{
    let log = r.log;
    let rest = log.skip(n);
    lemma_missing_rest(log, version, n, log.len() as int);
    assert(log.take(log.len() as int) =~= log);
    assert(room::missing(log, version) == rest);
    assert forall|i: int| 0 <= i < rest.len() implies round_trip::sendable_op(#[trigger] rest[i]) by {
        assert(rest[i] == log[n + i]);
    }
    let first = round_trip::reread_all(log.take(n));
    let second = round_trip::reread_all(rest);
    let all = round_trip::reread_all(log);
    assert(all =~= first + second);
    let blank = document::blank(actor);
    lemma_absorbed_sum(blank, seq![], s.capacity, first, second);
    assert(types::dominated(r.base, version));
    law_client_takes_in_what_it_lacks(s, r, image, version, q);
    let t = client::received(s, sync_frame(r, image, version), q).0;
    assert(t.doc == causal_buffer::absorbed(blank, seq![], s.capacity, all).0);
    assert(round_trip::reread_all(all) =~= round_trip::reread_all(log)) by {
        assert forall|i: int| 0 <= i < log.len() implies round_trip::reread(#[trigger] all[i]) == round_trip::reread(
            log[i],
        ) by {
            assert(all[i] == round_trip::reread(log[i]));
        }
    }
    let doc = causal_buffer::absorbed(document::blank(ActorId(0)), seq![], r.capacity, log).0;
    lemma_same_absorbed(
        blank,
        document::blank(ActorId(0)),
        seq![],
        seq![],
        s.capacity,
        r.capacity,
        all,
        log,
    );
    let a = snapshot::reread_strokes(t.doc.strokes);
    let b = snapshot::reread_strokes(r.doc.strokes);
    assert(a == b);
    assert forall|id: OpId| #[trigger] t.doc.strokes.contains_key(id) <==> r.doc.strokes.contains_key(id) by {
        assert(a.contains_key(id) <==> b.contains_key(id));
    }
    assert forall|id: OpId| #[trigger] t.doc.strokes.contains_key(id) implies t.doc.strokes[id].data.points
        == r.doc.strokes[id].data.points && t.doc.strokes[id].data.tool == r.doc.strokes[id].data.tool
        && t.doc.strokes[id].properties == r.doc.strokes[id].properties by {
        assert(a[id] == b[id]);
    }
}

proof fn lemma_missing_rest(log: Seq<OperationView>, version: Map<u64, u64>, n: int, k: int)
    requires
        0 <= n <= log.len(),
        0 <= k <= log.len(),
        forall|i: int|
            0 <= i < log.len() ==> ((#[trigger] log[i]).id().lamport.0 <= types::seen(version, log[i].id().actor.0)
                <==> i < n),
    ensures
        room::missing(log.take(k), version) == if k <= n {
            seq![]
        } else {
            log.subrange(n, k)
        },
    decreases k,
{
    if k > 0 {
        lemma_missing_rest(log, version, n, k - 1);
        assert(log.take(k).drop_last() =~= log.take(k - 1));
        assert(log.take(k).last() == log[k - 1]);
        if k > n {
            let was = if k - 1 <= n {
                Seq::<OperationView>::empty()
            } else {
                log.subrange(n, k - 1)
            };
            assert(was.push(log[k - 1]) =~= log.subrange(n, k));
        }
    }
}

} // verus!
