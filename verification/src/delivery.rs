//! What the causal buffer guarantees.

use crate::agreement;
use crate::causal_buffer;
use crate::document;
use crate::document::DocumentView;
use crate::metadata;
use crate::operation::OperationView;
use crate::rga;
use crate::types;
use crate::types::{ActorId, OpId};
use vstd::prelude::*;

verus! {

/// The operations applied when the given ones arrive one after another at a
/// document with a buffer, in the order in which they are applied.
pub open spec fn run(s: DocumentView, held: Seq<OperationView>, arrivals: Seq<OperationView>) -> Seq<OperationView>
    decreases arrivals.len(), 1int,
{
    if arrivals.len() == 0 {
        seq![]
    } else {
        let before = run(s, held, arrivals.drop_last());
        before + causal_buffer::released(
            document::applied_all(s, before),
            left(s, held, arrivals.drop_last()).push(arrivals.last()),
        )
    }
}

/// The operations that are then still held back.
pub open spec fn left(s: DocumentView, held: Seq<OperationView>, arrivals: Seq<OperationView>) -> Seq<OperationView>
    decreases arrivals.len(), 0int,
{
    if arrivals.len() == 0 {
        held
    } else {
        causal_buffer::retained(
            document::applied_all(s, run(s, held, arrivals.drop_last())),
            left(s, held, arrivals.drop_last()).push(arrivals.last()),
        )
    }
}

/// What is ready stays ready.
pub proof fn lemma_ready_stays(s: DocumentView, x: OperationView, op: OperationView)
    requires
        document::consistent(s),
        causal_buffer::ready(s, op),
    ensures
        causal_buffer::ready(document::applied(s, x), op),
{
    match op {
        OperationView::InsertStroke { origin_left, .. } => {
            if origin_left != OpId::zero() {
                agreement::lemma_items_stay(s, x, origin_left);
            }
        },
        OperationView::DeleteStroke { target, .. } => {
            agreement::lemma_items_stay(s, x, target);
        },
        _ => {},
    }
}

/// Nothing that stays in the buffer could be applied.
pub proof fn law_retained_is_unready(s: DocumentView, waiting: Seq<OperationView>, i: int)
    requires
        0 <= i < causal_buffer::retained(s, waiting).len(),
    ensures
        !causal_buffer::ready(
            document::applied_all(s, causal_buffer::released(s, waiting)),
            causal_buffer::retained(s, waiting)[i],
        ),
    decreases waiting.len(),
{
    let now = causal_buffer::select(s, waiting, true);
    let rest = causal_buffer::select(s, waiting, false);
    causal_buffer::lemma_select(s, waiting);
    if now.len() == 0 {
        causal_buffer::lemma_none_selected(s, waiting);
    } else {
        let t = document::applied_all(s, now);
        law_retained_is_unready(t, rest, i);
        causal_buffer::lemma_applied_concat(s, now, causal_buffer::released(t, rest));
    }
}

/// The buffer neither loses nor invents operations: what is applied and what
/// stays are together what was there.
pub proof fn law_nothing_is_lost(s: DocumentView, waiting: Seq<OperationView>)
    ensures
        causal_buffer::released(s, waiting).to_multiset().add(causal_buffer::retained(s, waiting).to_multiset())
            == waiting.to_multiset(),
    decreases waiting.len(),
{
    broadcast use vstd::seq_lib::group_to_multiset_ensures;

    let now = causal_buffer::select(s, waiting, true);
    let rest = causal_buffer::select(s, waiting, false);
    causal_buffer::lemma_select(s, waiting);
    if now.len() == 0 {
        assert(causal_buffer::released(s, waiting).to_multiset().add(waiting.to_multiset())
            =~= waiting.to_multiset());
    } else {
        let t = document::applied_all(s, now);
        law_nothing_is_lost(t, rest);
        vstd::seq_lib::lemma_multiset_commutative(now, causal_buffer::released(t, rest));
        assert(causal_buffer::released(s, waiting).to_multiset().add(
            causal_buffer::retained(s, waiting).to_multiset(),
        ) =~= waiting.to_multiset());
    }
}

/// All operations of `a` are among those of `b`.
spec fn within(a: Seq<OperationView>, b: Seq<OperationView>) -> bool {
    forall|i: int| 0 <= i < a.len() ==> b.contains(#[trigger] a[i])
}

proof fn lemma_named_within(a: Seq<OperationView>, b: Seq<OperationView>)
    requires
        within(a, b),
        agreement::named_once(b),
    ensures
        agreement::named_once(a),
{
    assert forall|j: int, k: int|
        0 <= j < a.len() && 0 <= k < a.len() && (#[trigger] a[j]).id() == (#[trigger] a[k]).id() implies a[j] == a[k] by {
        let x = choose|x: int| 0 <= x < b.len() && b[x] == a[j];
        let y = choose|y: int| 0 <= y < b.len() && b[y] == a[k];
        assert(b[x].id() == b[y].id());
    }
}

proof fn lemma_within_parts(a: Seq<OperationView>, b: Seq<OperationView>, c: Seq<OperationView>)
    ensures
        within(a + b, c) <==> within(a, c) && within(b, c),
{
    if within(a + b, c) {
        assert forall|i: int| 0 <= i < a.len() implies c.contains(#[trigger] a[i]) by {
            assert((a + b)[i] == a[i]);
        }
        assert forall|i: int| 0 <= i < b.len() implies c.contains(#[trigger] b[i]) by {
            assert((a + b)[a.len() + i] == b[i]);
        }
    }
    if within(a, c) && within(b, c) {
        assert forall|i: int| 0 <= i < (a + b).len() implies c.contains(#[trigger] (a + b)[i]) by {
            if i < a.len() {
                assert((a + b)[i] == a[i]);
            } else {
                assert((a + b)[i] == b[i - a.len()]);
            }
        }
    }
}

/// Multisets with the same sum have the same members.
proof fn lemma_within_sum(a: Seq<OperationView>, b: Seq<OperationView>, c: Seq<OperationView>)
    requires
        a.to_multiset().add(b.to_multiset()) == c.to_multiset(),
    ensures
        within(a, c),
        within(b, c),
        within(c, a + b),
{
    broadcast use vstd::seq_lib::group_to_multiset_ensures;

    assert forall|i: int| 0 <= i < a.len() implies c.contains(#[trigger] a[i]) by {
        assert(a.contains(a[i]));
        assert(a.to_multiset().count(a[i]) > 0);
        assert(c.to_multiset().count(a[i]) > 0);
    }
    assert forall|i: int| 0 <= i < b.len() implies c.contains(#[trigger] b[i]) by {
        assert(b.contains(b[i]));
        assert(b.to_multiset().count(b[i]) > 0);
        assert(c.to_multiset().count(b[i]) > 0);
    }
    assert forall|i: int| 0 <= i < c.len() implies (a + b).contains(#[trigger] c[i]) by {
        assert(c.contains(c[i]));
        assert(c.to_multiset().count(c[i]) > 0);
        if a.to_multiset().count(c[i]) > 0 {
            assert(a.contains(c[i]));
            let k = choose|k: int| 0 <= k < a.len() && a[k] == c[i];
            assert((a + b)[k] == c[i]);
        } else {
            assert(b.to_multiset().count(c[i]) > 0);
            assert(b.contains(c[i]));
            let k = choose|k: int| 0 <= k < b.len() && b[k] == c[i];
            assert((a + b)[a.len() + k] == c[i]);
        }
    }
}

proof fn lemma_roomy_prefix(s: DocumentView, a: Seq<OperationView>, b: Seq<OperationView>)
    requires
        agreement::roomy(s, a + b),
    ensures
        agreement::roomy(s, a),
{
    assert forall|k: int| 0 <= k < a.len() && (#[trigger] a[k]) is InsertStroke implies document::applied_all(
        s,
        a.take(k),
    ).items.len() < document::MAX_STROKES by {
        assert((a + b)[k] == a[k]);
        assert((a + b).take(k) =~= a.take(k));
    }
}

proof fn lemma_all_ready_stay(s: DocumentView, ops: Seq<OperationView>, op: OperationView)
    requires
        document::consistent(s),
        causal_buffer::ready(s, op),
    ensures
        document::consistent(document::applied_all(s, ops)),
        causal_buffer::ready(document::applied_all(s, ops), op),
    decreases ops.len(),
{
    if ops.len() > 0 {
        lemma_all_ready_stay(s, ops.drop_last(), op);
        let t = document::applied_all(s, ops.drop_last());
        document::lemma_applied_consistent(t, ops.last());
        lemma_ready_stays(t, ops.last(), op);
    }
}

/// A batch of ready operations extends a causal log.
proof fn lemma_batch(s0: DocumentView, done: Seq<OperationView>, now: Seq<OperationView>)
    requires
        agreement::causal(done),
        agreement::reflects(document::applied_all(s0, done), done),
        forall|i: int|
            0 <= i < now.len() ==> causal_buffer::ready(document::applied_all(s0, done), #[trigger] now[i])
                && agreement::regular(now[i]),
        agreement::named_once(done + now),
        agreement::roomy(s0, done + now),
    ensures
        agreement::causal(done + now),
        agreement::reflects(document::applied_all(s0, done + now), done + now),
    decreases now.len(),
{
    if now.len() == 0 {
        assert(done + now =~= done);
    } else {
        let m = now.drop_last();
        let op = now.last();
        let log = done + m;
        assert(log.push(op) =~= done + now);
        assert(done + now =~= log + seq![op]);
        lemma_roomy_prefix(s0, log, seq![op]);
        assert(within(log, done + now)) by {
            assert forall|i: int| 0 <= i < log.len() implies (done + now).contains(#[trigger] log[i]) by {
                assert((done + now)[i] == log[i]);
            }
        }
        lemma_named_within(log, done + now);
        assert forall|i: int| 0 <= i < m.len() implies causal_buffer::ready(
            document::applied_all(s0, done),
            #[trigger] m[i],
        ) && agreement::regular(m[i]) by {
            assert(m[i] == now[i]);
        }
        lemma_batch(s0, done, m);
        let t = document::applied_all(s0, log);
        assert(now[now.len() - 1] == op);
        agreement::lemma_ready_is_founded(document::applied_all(s0, done), done, op);
        lemma_all_ready_stay(document::applied_all(s0, done), m, op);
        causal_buffer::lemma_applied_concat(s0, done, m);
        agreement::lemma_ready_is_founded(t, log, op);
        let all = done + now;
        assert(all[log.len() as int] == op);
        assert(all.take(log.len() as int) =~= log);
        agreement::lemma_reflects_step(t, log, op);
        assert(document::applied_all(s0, all) == document::applied(t, op)) by {
            assert(all.drop_last() =~= log);
        }
        assert forall|k: int| 0 <= k < all.len() implies agreement::founded(all.take(k), #[trigger] all[k])
            && agreement::regular(all[k]) by {
            if k < log.len() {
                assert(all[k] == log[k]);
                assert(all.take(k) =~= log.take(k));
            }
        }
    }
}

proof fn lemma_select_within(s: DocumentView, ops: Seq<OperationView>, want: bool)
    ensures
        within(causal_buffer::select(s, ops, want), ops),
    decreases ops.len(),
{
    if ops.len() > 0 {
        let less = ops.drop_last();
        lemma_select_within(s, less, want);
        let chosen = causal_buffer::select(s, ops, want);
        assert forall|i: int| 0 <= i < chosen.len() implies ops.contains(#[trigger] chosen[i]) by {
            if i < causal_buffer::select(s, less, want).len() {
                assert(chosen[i] == causal_buffer::select(s, less, want)[i]);
                let k = choose|k: int| 0 <= k < less.len() && less[k] == chosen[i];
                assert(ops[k] == chosen[i]);
            } else {
                assert(ops[ops.len() - 1] == chosen[i]);
            }
        }
    }
}

/// What the buffer releases extends a causal log.
proof fn lemma_released(s0: DocumentView, done: Seq<OperationView>, waiting: Seq<OperationView>)
    requires
        agreement::causal(done),
        agreement::reflects(document::applied_all(s0, done), done),
        forall|i: int| 0 <= i < waiting.len() ==> agreement::regular(#[trigger] waiting[i]),
        agreement::named_once(done + waiting),
        agreement::roomy(s0, done + causal_buffer::released(document::applied_all(s0, done), waiting)),
    ensures
        ({
            let out = causal_buffer::released(document::applied_all(s0, done), waiting);
            &&& agreement::causal(done + out)
            &&& agreement::reflects(document::applied_all(s0, done + out), done + out)
        }),
    decreases waiting.len(),
{
    let s = document::applied_all(s0, done);
    let now = causal_buffer::select(s, waiting, true);
    let rest = causal_buffer::select(s, waiting, false);
    let out = causal_buffer::released(s, waiting);
    causal_buffer::lemma_select(s, waiting);
    if now.len() == 0 {
        assert(done + out =~= done);
    } else {
        let t = document::applied_all(s, now);
        let tail = causal_buffer::released(t, rest);
        causal_buffer::lemma_applied_concat(s0, done, now);
        lemma_select_within(s, waiting, true);
        lemma_select_within(s, waiting, false);
        let whole = done + waiting;
        assert(within(whole, whole)) by {
            assert forall|i: int| 0 <= i < whole.len() implies whole.contains(#[trigger] whole[i]) by {}
        }
        lemma_within_parts(done, waiting, whole);
        assert(within(now, whole)) by {
            lemma_within_trans(now, waiting, whole);
        }
        assert(within(rest, whole)) by {
            lemma_within_trans(rest, waiting, whole);
        }
        lemma_within_parts(done, now, whole);
        lemma_within_parts(done + now, rest, whole);
        lemma_named_within(done + now, whole);
        lemma_named_within((done + now) + rest, whole);
        assert(done + out =~= (done + now) + tail);
        lemma_roomy_prefix(s0, done + now, tail);
        assert forall|i: int| 0 <= i < now.len() implies causal_buffer::ready(s, #[trigger] now[i])
            && agreement::regular(now[i]) by {
            let k = choose|k: int| 0 <= k < waiting.len() && waiting[k] == now[i];
            assert(agreement::regular(waiting[k]));
        }
        assert forall|i: int| 0 <= i < rest.len() implies agreement::regular(#[trigger] rest[i]) by {
            let k = choose|k: int| 0 <= k < waiting.len() && waiting[k] == rest[i];
            assert(agreement::regular(waiting[k]));
        }
        lemma_batch(s0, done, now);
        lemma_released(s0, done + now, rest);
    }
}

proof fn lemma_within_trans(a: Seq<OperationView>, b: Seq<OperationView>, c: Seq<OperationView>)
    requires
        within(a, b),
        within(b, c),
    ensures
        within(a, c),
{
    assert forall|i: int| 0 <= i < a.len() implies c.contains(#[trigger] a[i]) by {
        let k = choose|k: int| 0 <= k < b.len() && b[k] == a[i];
        assert(c.contains(b[k]));
    }
}

/// Whatever the order of arrival, a document with a buffer applies operations
/// in a causal order; it applies each that arrives, or holds it back.
pub proof fn law_buffered_delivery_is_causal(actor: ActorId, arrivals: Seq<OperationView>)
    requires
        agreement::named_once(arrivals),
        forall|i: int| 0 <= i < arrivals.len() ==> agreement::regular(#[trigger] arrivals[i]),
        agreement::roomy(document::blank(actor), run(document::blank(actor), seq![], arrivals)),
    ensures
        ({
            let s0 = document::blank(actor);
            let applied = run(s0, seq![], arrivals);
            let held = left(s0, seq![], arrivals);
            &&& agreement::causal(applied)
            &&& agreement::reflects(document::applied_all(s0, applied), applied)
            &&& applied.to_multiset().add(held.to_multiset()) == arrivals.to_multiset()
        }),
    decreases arrivals.len(),
{
    broadcast use vstd::seq_lib::group_to_multiset_ensures;

    let s0 = document::blank(actor);
    if arrivals.len() == 0 {
        agreement::lemma_reflects(actor, seq![]);
        assert(run(s0, seq![], arrivals).to_multiset().add(left(s0, seq![], arrivals).to_multiset())
            =~= arrivals.to_multiset());
    } else {
        let less = arrivals.drop_last();
        let op = arrivals.last();
        let done = run(s0, seq![], less);
        let held = left(s0, seq![], less);
        let waiting = held.push(op);
        let s = document::applied_all(s0, done);
        let out = causal_buffer::released(s, waiting);
        assert(less.push(op) =~= arrivals);
        assert forall|i: int| 0 <= i < less.len() implies agreement::regular(#[trigger] less[i]) by {
            assert(less[i] == arrivals[i]);
        }
        assert(within(less, arrivals)) by {
            assert forall|i: int| 0 <= i < less.len() implies arrivals.contains(#[trigger] less[i]) by {
                assert(arrivals[i] == less[i]);
            }
        }
        lemma_named_within(less, arrivals);
        lemma_roomy_prefix(s0, done, out);
        law_buffered_delivery_is_causal(actor, less);
        law_nothing_is_lost(s, waiting);
        vstd::seq_lib::lemma_multiset_commutative(done, out);
        assert(done.to_multiset().add(waiting.to_multiset()) =~= arrivals.to_multiset());
        lemma_within_sum(done, waiting, arrivals);
        lemma_within_parts(done, waiting, arrivals);
        lemma_named_within(done + waiting, arrivals);
        assert forall|i: int| 0 <= i < waiting.len() implies agreement::regular(#[trigger] waiting[i]) by {
            let k = choose|k: int| 0 <= k < arrivals.len() && arrivals[k] == waiting[i];
            assert(agreement::regular(arrivals[k]));
        }
        lemma_released(s0, done, waiting);
        assert(run(s0, seq![], arrivals).to_multiset().add(left(s0, seq![], arrivals).to_multiset())
            =~= arrivals.to_multiset());
    }
}

/// What is held back in the end is not ready.
proof fn lemma_left_is_unready(s: DocumentView, arrivals: Seq<OperationView>, i: int)
    requires
        0 <= i < left(s, seq![], arrivals).len(),
    ensures
        !causal_buffer::ready(
            document::applied_all(s, run(s, seq![], arrivals)),
            left(s, seq![], arrivals)[i],
        ),
{
    let less = arrivals.drop_last();
    let done = run(s, seq![], less);
    let waiting = left(s, seq![], less).push(arrivals.last());
    let t = document::applied_all(s, done);
    law_retained_is_unready(t, waiting, i);
    causal_buffer::lemma_applied_concat(s, done, causal_buffer::released(t, waiting));
}

/// What is founded in operations that a document reflects is ready there.
proof fn lemma_founded_is_ready(
    s: DocumentView,
    log: Seq<OperationView>,
    part: Seq<OperationView>,
    op: OperationView,
)
    requires
        agreement::reflects(s, log),
        within(part, log),
        agreement::founded(part, op),
    ensures
        causal_buffer::ready(s, op),
{
    reveal(agreement::reflects);
    let id = match op {
        OperationView::InsertStroke { origin_left, .. } => origin_left,
        OperationView::DeleteStroke { target, .. } => target,
        OperationView::UpdateProperty { target, .. } => target,
        OperationView::UpdateMetadata { .. } => OpId::zero(),
    };
    let sort = agreement::Sort::Inserts { id };
    if agreement::some_op(part, sort) {
        let j = choose|j: int| 0 <= j < part.len() && agreement::is_of(#[trigger] part[j], sort);
        let k = choose|k: int| 0 <= k < log.len() && log[k] == part[j];
        assert(agreement::is_of(log[k], sort));
        assert(rga::has_id(s.items, id));
        assert(s.strokes.contains_key(id));
    }
}

/// The operations of a causal order are released one after another.
proof fn lemma_prefix_applied(p: ActorId, arrivals: Seq<OperationView>, ordered: Seq<OperationView>, n: int)
    requires
        agreement::named_once(arrivals),
        forall|i: int| 0 <= i < arrivals.len() ==> agreement::regular(#[trigger] arrivals[i]),
        agreement::roomy(document::blank(p), run(document::blank(p), seq![], arrivals)),
        agreement::causal(ordered),
        arrivals.to_set() == ordered.to_set(),
        0 <= n <= ordered.len(),
    ensures
        forall|k: int| 0 <= k < n ==> !left(document::blank(p), seq![], arrivals).contains(#[trigger] ordered[k]),
        within(ordered.take(n), run(document::blank(p), seq![], arrivals)),
    decreases n,
{
    if n > 0 {
        lemma_prefix_applied(p, arrivals, ordered, n - 1);
        let s0 = document::blank(p);
        let applied = run(s0, seq![], arrivals);
        let held = left(s0, seq![], arrivals);
        let op = ordered[n - 1];
        law_buffered_delivery_is_causal(p, arrivals);
        lemma_within_sum(applied, held, arrivals);
        lemma_founded_is_ready(document::applied_all(s0, applied), applied, ordered.take(n - 1), op);
        if held.contains(op) {
            let i = choose|i: int| 0 <= i < held.len() && held[i] == op;
            lemma_left_is_unready(s0, arrivals, i);
        }
        assert(ordered.to_set().contains(op));
        assert(arrivals.to_set().contains(op));
        let a = choose|a: int| 0 <= a < arrivals.len() && arrivals[a] == op;
        assert((applied + held).contains(arrivals[a]));
        let b = choose|b: int| 0 <= b < (applied + held).len() && (applied + held)[b] == op;
        if b >= applied.len() {
            assert(held[b - applied.len()] == op);
        }
        assert(applied[b] == op);
        assert forall|k: int| 0 <= k < ordered.take(n).len() implies applied.contains(#[trigger] ordered.take(n)[k]) by {
            if k < n - 1 {
                assert(ordered.take(n - 1)[k] == ordered.take(n)[k]);
            }
        }
    }
}

/// Once all that operations build on has arrived, nothing is held back: the
/// buffer is empty where the arrivals can be brought into a causal order.
pub proof fn law_buffer_empties(p: ActorId, arrivals: Seq<OperationView>, ordered: Seq<OperationView>)
    requires
        agreement::named_once(arrivals),
        forall|i: int| 0 <= i < arrivals.len() ==> agreement::regular(#[trigger] arrivals[i]),
        agreement::roomy(document::blank(p), run(document::blank(p), seq![], arrivals)),
        agreement::causal(ordered),
        arrivals.to_set() == ordered.to_set(),
    ensures
        left(document::blank(p), seq![], arrivals).len() == 0,
{
    let s0 = document::blank(p);
    let held = left(s0, seq![], arrivals);
    lemma_prefix_applied(p, arrivals, ordered, ordered.len() as int);
    if held.len() > 0 {
        let op = held[0];
        law_buffered_delivery_is_causal(p, arrivals);
        lemma_within_sum(run(s0, seq![], arrivals), held, arrivals);
        assert(arrivals.contains(op));
        assert(arrivals.to_set().contains(op));
        assert(ordered.to_set().contains(op));
        let k = choose|k: int| 0 <= k < ordered.len() && ordered[k] == op;
        assert(held.contains(ordered[k]));
    }
}

/// A document with a buffer, at which operations arrive in any order, holds
/// nothing back in the end, and holds the same as one to which the same
/// operations came in causal order.
pub proof fn law_buffered_replicas_converge(
    p: ActorId,
    q: ActorId,
    arrivals: Seq<OperationView>,
    ordered: Seq<OperationView>,
)
    requires
        agreement::named_once(arrivals),
        forall|i: int| 0 <= i < arrivals.len() ==> agreement::regular(#[trigger] arrivals[i]),
        agreement::roomy(document::blank(p), run(document::blank(p), seq![], arrivals)),
        agreement::causal(ordered),
        agreement::roomy(document::blank(q), ordered),
        arrivals.to_set() == ordered.to_set(),
    ensures
        left(document::blank(p), seq![], arrivals).len() == 0,
        agreement::same_replica(
            document::applied_all(document::blank(p), run(document::blank(p), seq![], arrivals)),
            document::applied_all(document::blank(q), ordered),
        ),
{
    let s0 = document::blank(p);
    let applied = run(s0, seq![], arrivals);
    let held = left(s0, seq![], arrivals);
    law_buffer_empties(p, arrivals, ordered);
    law_buffered_delivery_is_causal(p, arrivals);
    lemma_within_sum(applied, held, arrivals);
    assert(applied + held =~= applied);
    assert forall|x: OperationView| applied.to_set().contains(x) <==> #[trigger] arrivals.to_set().contains(x) by {
        if applied.contains(x) {
            let i = choose|i: int| 0 <= i < applied.len() && applied[i] == x;
            assert(arrivals.contains(applied[i]));
        }
        if arrivals.contains(x) {
            let i = choose|i: int| 0 <= i < arrivals.len() && arrivals[i] == x;
            assert(applied.contains(arrivals[i]));
        }
    }
    assert(applied.to_set() =~= ordered.to_set());
    lemma_named_within(applied, arrivals);
    agreement::law_replicas_converge(p, q, applied, ordered);
}

/// Applying an operation again changes nothing.
pub proof fn law_apply_is_idempotent(s: DocumentView, op: OperationView)
    requires
        document::consistent(s),
    ensures
        document::applied(document::applied(s, op), op) == document::applied(s, op),
{
    let t = document::applied(s, op);
    let u = document::applied(t, op);
    assert(u.version =~= t.version);
    match op {
        OperationView::InsertStroke { id, origin_left, origin_right, data, properties } => {},
        OperationView::DeleteStroke { id, target } => {
            document::lemma_tombstoned_ids(s.items, target, id);
            if rga::has_id(s.items, target) {
                let i = rga::position(s.items, target);
                assert(t.items[i].id == target);
                document::lemma_applied_consistent(s, op);
                rga::lemma_position(t.items, i);
            }
            assert(u.items =~= t.items);
        },
        OperationView::UpdateProperty { id, target, update } => {
            assert(u.strokes =~= t.strokes);
        },
        OperationView::UpdateMetadata { id, key, value } => {
            assert(u.metadata =~= t.metadata);
        },
    }
    assert(u =~= t);
}

/// Whether an operation has nothing more to do.
pub open spec fn spent(s: DocumentView, op: OperationView) -> bool {
    &&& op.id().lamport.0 <= s.clock
    &&& s.version.contains_key(op.id().actor.0) && op.id().lamport.0 <= s.version[op.id().actor.0]
    &&& match op {
        OperationView::InsertStroke { id, .. } => s.strokes.contains_key(id) || s.items.len() >= document::MAX_STROKES,
        OperationView::DeleteStroke { id, target } => {
            &&& rga::has_id(s.items, target)
            &&& forall|i: int|
                0 <= i < s.items.len() && (#[trigger] s.items[i]).id == target ==> rga::buried(s.items[i].state, id)
                    == s.items[i].state
        },
        OperationView::UpdateProperty { id, target, update } => s.strokes.contains_key(target) && id.rank()
            <= agreement::slot(s.strokes[target].properties, agreement::slot_of(update)).1.rank(),
        OperationView::UpdateMetadata { id, key, .. } => s.metadata.contains_key(key) && id.rank()
            <= s.metadata[key].timestamp.rank(),
    }
}

proof fn lemma_spent_after(s: DocumentView, op: OperationView)
    requires
        document::consistent(s),
        causal_buffer::ready(s, op),
    ensures
        spent(document::applied(s, op), op),
{
    let t = document::applied(s, op);
    match op {
        OperationView::DeleteStroke { id, target } => {
            document::lemma_tombstoned_ids(s.items, target, id);
            assert forall|i: int| 0 <= i < t.items.len() && (#[trigger] t.items[i]).id == target implies rga::buried(
                t.items[i].state,
                id,
            ) == t.items[i].state by {
                assert(s.items[i].id == target);
                rga::lemma_position(s.items, i);
            }
        },
        _ => {},
    }
}

proof fn lemma_spent_stays(s: DocumentView, op: OperationView, x: OperationView)
    requires
        document::consistent(s),
        spent(s, op),
    ensures
        spent(document::applied(s, x), op),
{
    let t = document::applied(s, x);
    match op {
        OperationView::InsertStroke { .. } => {
            match x {
                OperationView::DeleteStroke { id, target } => {
                    document::lemma_tombstoned_ids(s.items, target, id);
                },
                OperationView::InsertStroke { id, origin_left, origin_right, .. } => {
                    rga::lemma_insert_position(s.items, document::fresh_item(id, origin_left, origin_right));
                },
                _ => {},
            }
        },
        OperationView::DeleteStroke { id, target } => {
            agreement::lemma_items_stay(s, x, target);
            assert forall|i: int| 0 <= i < t.items.len() && (#[trigger] t.items[i]).id == target implies rga::buried(
                t.items[i].state,
                id,
            ) == t.items[i].state by {
                match x {
                    OperationView::InsertStroke { id: y, origin_left, origin_right, .. } => {
                        let item = document::fresh_item(y, origin_left, origin_right);
                        document::lemma_integrated_ids(s.items, item);
                        if t.items == s.items {
                        } else if t.items[i] == item {
                            assert(rga::has_id(s.items, y));
                            assert(s.strokes.contains_key(y));
                        } else {
                            let j = choose|j: int| 0 <= j < s.items.len() && s.items[j] == t.items[i];
                            assert(s.items[j].id == target);
                        }
                    },
                    OperationView::DeleteStroke { id: y, target: other } => {
                        document::lemma_tombstoned_ids(s.items, other, y);
                        assert(s.items[i].id == target);
                    },
                    _ => {
                        assert(s.items[i].id == target);
                    },
                }
            }
        },
        _ => {},
    }
}

/// Applying what is spent changes nothing.
proof fn lemma_spent_is_void(s: DocumentView, op: OperationView)
    requires
        document::consistent(s),
        spent(s, op),
    ensures
        document::applied(s, op) == s,
{
    let t = document::applied(s, op);
    assert(t.version =~= s.version);
    match op {
        OperationView::InsertStroke { .. } => {},
        OperationView::DeleteStroke { id, target } => {
            let i = rga::position(s.items, target);
            assert(s.items[i].id == target);
            assert(t.items =~= s.items);
        },
        OperationView::UpdateProperty { id, target, update } => {
            assert(t.strokes =~= s.strokes);
        },
        OperationView::UpdateMetadata { id, key, value } => {
            assert(t.metadata =~= s.metadata);
        },
    }
    assert(t =~= s);
}

/// An operation that arrives again, after any others, changes nothing, if what
/// it builds on was there when it arrived first.
pub proof fn law_repetition_changes_nothing(s: DocumentView, op: OperationView, later: Seq<OperationView>)
    requires
        document::consistent(s),
        causal_buffer::ready(s, op),
    ensures
        document::applied(document::applied_all(document::applied(s, op), later), op) == document::applied_all(
            document::applied(s, op),
            later,
        ),
{
    lemma_spent_after(s, op);
    document::lemma_applied_consistent(s, op);
    lemma_spent_later(document::applied(s, op), op, later);
    lemma_spent_is_void(document::applied_all(document::applied(s, op), later), op);
}

proof fn lemma_spent_later(s: DocumentView, op: OperationView, later: Seq<OperationView>)
    requires
        document::consistent(s),
        spent(s, op),
    ensures
        document::consistent(document::applied_all(s, later)),
        spent(document::applied_all(s, later), op),
    decreases later.len(),
{
    if later.len() > 0 {
        lemma_spent_later(s, op, later.drop_last());
        let t = document::applied_all(s, later.drop_last());
        document::lemma_applied_consistent(t, later.last());
        lemma_spent_stays(t, op, later.last());
    }
}

/// What an operation waits for: an insertion for the stroke that it is put on,
/// if there is one, a deletion and a restyling for their stroke. Metadata waits
/// for nothing.
pub proof fn law_operations_wait_for_their_strokes(s: DocumentView, op: OperationView)
    ensures
        causal_buffer::ready(s, op) <==> match op {
            OperationView::InsertStroke { origin_left, .. } => (origin_left.lamport.0 == 0 && origin_left.actor.0 == 0)
                || exists|i: int| 0 <= i < s.items.len() && (#[trigger] s.items[i]).id == origin_left,
            OperationView::DeleteStroke { target, .. } => exists|i: int|
                0 <= i < s.items.len() && (#[trigger] s.items[i]).id == target,
            OperationView::UpdateProperty { target, .. } => s.strokes.contains_key(target),
            OperationView::UpdateMetadata { .. } => true,
        },
{
}

/// Operations that are absorbed are those that buffered delivery applies, one
/// arrival after the other; it goes well exactly where the buffer is not full
/// when one of them arrives.
pub proof fn law_absorbing_is_buffered_delivery(
    s: DocumentView,
    held: Seq<OperationView>,
    capacity: usize,
    ops: Seq<OperationView>,
)
    ensures
        ({
            let (t, h, ok) = causal_buffer::absorbed(s, held, capacity, ops);
            &&& ok <==> forall|k: int| 0 <= k < ops.len() ==> left(s, held, #[trigger] ops.take(k)).len() < capacity
            &&& ok ==> t == document::applied_all(s, run(s, held, ops)) && h == left(s, held, ops)
        }),
    decreases ops.len(),
{
    if ops.len() == 0 {
        assert(document::applied_all(s, run(s, held, ops)) == s);
    } else {
        let less = ops.drop_last();
        law_absorbing_is_buffered_delivery(s, held, capacity, less);
        let (t, h, ok) = causal_buffer::absorbed(s, held, capacity, less);
        assert forall|k: int| 0 <= k < less.len() implies #[trigger] less.take(k) == ops.take(k) by {
            assert(less.take(k) =~= ops.take(k));
        }
        assert(ops.take(ops.len() - 1) =~= less);
        if forall|k: int| 0 <= k < ops.len() ==> left(s, held, #[trigger] ops.take(k)).len() < capacity {
            assert forall|k: int| 0 <= k < less.len() implies left(s, held, #[trigger] less.take(k)).len()
                < capacity by {
                assert(less.take(k) == ops.take(k));
            }
            assert(left(s, held, ops.take(ops.len() - 1)).len() < capacity);
        }
        if ok && h.len() < capacity {
            assert forall|k: int| 0 <= k < ops.len() implies left(s, held, #[trigger] ops.take(k)).len() < capacity by {
                if k < less.len() {
                    assert(less.take(k) == ops.take(k));
                }
            }
            let waiting = h.push(ops.last());
            causal_buffer::lemma_applied_concat(
                s,
                run(s, held, less),
                causal_buffer::released(t, waiting),
            );
        }
    }
}

/// An operation that arrives at a full buffer ends the absorbing of operations:
/// the document and the buffer are then what the operations before it made of
/// them.
pub proof fn law_absorbing_ends_at_a_full_buffer(
    s: DocumentView,
    held: Seq<OperationView>,
    capacity: usize,
    ops: Seq<OperationView>,
) -> (n: int)
    requires
        !causal_buffer::absorbed(s, held, capacity, ops).2,
    ensures
        0 <= n < ops.len(),
        left(s, held, ops.take(n)).len() >= capacity,
        causal_buffer::absorbed(s, held, capacity, ops).0 == document::applied_all(s, run(s, held, ops.take(n))),
        causal_buffer::absorbed(s, held, capacity, ops).1 == left(s, held, ops.take(n)),
    decreases ops.len(),
{
    let less = ops.drop_last();
    if causal_buffer::absorbed(s, held, capacity, less).2 {
        law_absorbing_is_buffered_delivery(s, held, capacity, less);
        assert(ops.take(ops.len() - 1) =~= less);
        ops.len() - 1
    } else {
        let n = law_absorbing_ends_at_a_full_buffer(s, held, capacity, less);
        assert(less.take(n) =~= ops.take(n));
        n
    }
}

/// An absorbed operation has been applied, or is held back.
pub proof fn law_absorbed_is_applied_or_held(
    s: DocumentView,
    held: Seq<OperationView>,
    ops: Seq<OperationView>,
    op: OperationView,
)
    ensures
        run(s, held, ops).contains(op) || left(s, held, ops).contains(op) <==> held.contains(op) || ops.contains(op),
    decreases ops.len(),
{
    broadcast use vstd::seq_lib::group_to_multiset_ensures;

    if ops.len() > 0 {
        let less = ops.drop_last();
        law_absorbed_is_applied_or_held(s, held, less, op);
        let before = run(s, held, less);
        let waiting = left(s, held, less).push(ops.last());
        let t = document::applied_all(s, before);
        let now = causal_buffer::released(t, waiting);
        let kept = causal_buffer::retained(t, waiting);
        law_nothing_is_lost(t, waiting);
        assert(waiting.contains(op) <==> waiting.to_multiset().count(op) > 0);
        assert(now.contains(op) <==> now.to_multiset().count(op) > 0);
        assert(kept.contains(op) <==> kept.to_multiset().count(op) > 0);
        assert(waiting.to_multiset().count(op) == now.to_multiset().count(op) + kept.to_multiset().count(op));
        lemma_contains_sum(before, now, op);
        lemma_contains_push(left(s, held, less), ops.last(), op);
        assert(ops =~= less.push(ops.last()));
        lemma_contains_push(less, ops.last(), op);
    }
}

proof fn lemma_contains_push(list: Seq<OperationView>, last: OperationView, op: OperationView)
    ensures
        list.push(last).contains(op) <==> list.contains(op) || op == last,
{
    let more = list.push(last);
    if list.contains(op) {
        let i = choose|i: int| 0 <= i < list.len() && list[i] == op;
        assert(more[i] == op);
    }
    if op == last {
        assert(more[list.len() as int] == op);
    }
}

proof fn lemma_contains_sum(a: Seq<OperationView>, b: Seq<OperationView>, op: OperationView)
    ensures
        (a + b).contains(op) <==> a.contains(op) || b.contains(op),
{
    let sum = a + b;
    if a.contains(op) {
        let i = choose|i: int| 0 <= i < a.len() && a[i] == op;
        assert(sum[i] == op);
    }
    if b.contains(op) {
        let i = choose|i: int| 0 <= i < b.len() && b[i] == op;
        assert(sum[a.len() + i] == op);
    }
}

/// The clock and the version of a document catch up with what is applied to it,
/// and never go back.
pub proof fn law_applied_operations_are_known(s: DocumentView, ops: Seq<OperationView>)
    ensures
        ({
            let t = document::applied_all(s, ops);
            &&& s.clock <= t.clock
            &&& forall|a: u64|
                s.version.contains_key(a) ==> #[trigger] t.version.contains_key(a) && s.version[a] <= t.version[a]
            &&& forall|i: int|
                0 <= i < ops.len() ==> {
                    let id = (#[trigger] ops[i]).id();
                    &&& id.lamport.0 <= t.clock
                    &&& t.version.contains_key(id.actor.0)
                    &&& id.lamport.0 <= t.version[id.actor.0]
                }
        }),
    decreases ops.len(),
{
    if ops.len() > 0 {
        let less = ops.drop_last();
        law_applied_operations_are_known(s, less);
        let t = document::applied_all(s, ops);
        let u = document::applied_all(s, less);
        let last = ops.last().id();
        assert(t == document::applied(u, ops.last()));
        assert(t.clock >= u.clock && t.clock >= last.lamport.0);
        assert(t.version == types::advanced(u.version, last.actor.0, last.lamport.0));
        assert forall|a: u64| u.version.contains_key(a) implies #[trigger] t.version.contains_key(a) && u.version[a]
            <= t.version[a] by {}
        assert forall|a: u64| s.version.contains_key(a) implies #[trigger] t.version.contains_key(a) && s.version[a]
            <= t.version[a] by {
            assert(u.version.contains_key(a));
        }
        assert forall|i: int| 0 <= i < ops.len() implies {
            let id = (#[trigger] ops[i]).id();
            &&& id.lamport.0 <= t.clock
            &&& t.version.contains_key(id.actor.0)
            &&& id.lamport.0 <= t.version[id.actor.0]
        } by {
            if i < less.len() {
                assert(less[i] == ops[i]);
                assert(u.version.contains_key(ops[i].id().actor.0));
                assert(t.version.contains_key(ops[i].id().actor.0));
            }
        }
    }
}

/// The clock and the version of a document are never ahead of what it has seen:
/// they show what was there before, or the time of an operation.
pub proof fn law_clocks_show_operations(s: DocumentView, ops: Seq<OperationView>, a: u64)
    ensures
        ({
            let t = document::applied_all(s, ops);
            &&& t.clock == s.clock || exists|i: int| 0 <= i < ops.len() && (#[trigger] ops[i]).id().lamport.0 == t.clock
            &&& t.version.contains_key(a) ==> (s.version.contains_key(a) && t.version[a] == s.version[a]) || exists|i: int|
                0 <= i < ops.len() && (#[trigger] ops[i]).id().actor.0 == a && ops[i].id().lamport.0 == t.version[a]
        }),
    decreases ops.len(),
{
    if ops.len() > 0 {
        let less = ops.drop_last();
        law_clocks_show_operations(s, less, a);
        let t = document::applied_all(s, ops);
        let u = document::applied_all(s, less);
        let n = ops.len() - 1;
        assert(ops[n] == ops.last());
        if t.clock == u.clock && u.clock != s.clock {
            let i = choose|i: int| 0 <= i < less.len() && (#[trigger] less[i]).id().lamport.0 == u.clock;
            assert(ops[i].id().lamport.0 == t.clock);
        }
        if t.version.contains_key(a) && u.version.contains_key(a) && t.version[a] == u.version[a] && !(
        s.version.contains_key(a) && t.version[a] == s.version[a]) {
            let i = choose|i: int|
                0 <= i < less.len() && (#[trigger] less[i]).id().actor.0 == a && less[i].id().lamport.0 == u.version[a];
            assert(ops[i].id().actor.0 == a);
        }
    }
}

/// The strokes that are named as changed are those that the applied operations
/// are about, each once.
pub proof fn law_changed_strokes_are_named(ops: Seq<OperationView>, id: OpId)
    ensures
        causal_buffer::noted_all(seq![], ops).no_duplicates(),
        causal_buffer::noted_all(seq![], ops).contains(id) <==> exists|i: int|
            0 <= i < ops.len() && match #[trigger] ops[i] {
                OperationView::InsertStroke { id: made, .. } => made == id,
                OperationView::DeleteStroke { target, .. } => target == id,
                OperationView::UpdateProperty { target, .. } => target == id,
                OperationView::UpdateMetadata { .. } => false,
            },
    decreases ops.len(),
{
    if ops.len() > 0 {
        let less = ops.drop_last();
        law_changed_strokes_are_named(less, id);
        let before = causal_buffer::noted_all(seq![], less);
        let now = causal_buffer::noted_all(seq![], ops);
        assert(ops[ops.len() - 1] == ops.last());
        assert(less =~= ops.take(ops.len() - 1));
        if before.contains(id) {
            let k = choose|k: int| 0 <= k < before.len() && before[k] == id;
            assert(now[k] == id);
        }
        if now.contains(id) && !before.contains(id) {
            let k = choose|k: int| 0 <= k < now.len() && now[k] == id;
            assert(k == before.len());
        }
        match ops.last().target_stroke() {
            Some(x) => {
                if !before.contains(x) {
                    assert(now[before.len() as int] == x);
                } else {
                    assert(now == before);
                }
                if x == id {
                    assert(now.contains(id));
                }
            },
            None => {},
        }
        assert forall|i: int| 0 <= i < less.len() implies #[trigger] less[i] == ops[i] by {}
        if exists|i: int|
            0 <= i < ops.len() && match #[trigger] ops[i] {
                OperationView::InsertStroke { id: made, .. } => made == id,
                OperationView::DeleteStroke { target, .. } => target == id,
                OperationView::UpdateProperty { target, .. } => target == id,
                OperationView::UpdateMetadata { .. } => false,
            } {
            let i = choose|i: int|
                0 <= i < ops.len() && match #[trigger] ops[i] {
                    OperationView::InsertStroke { id: made, .. } => made == id,
                    OperationView::DeleteStroke { target, .. } => target == id,
                    OperationView::UpdateProperty { target, .. } => target == id,
                    OperationView::UpdateMetadata { .. } => false,
                };
            if i < less.len() {
                assert(less[i] == ops[i]);
                assert(before.contains(id));
            }
        }
    }
}

/// Operations that are taken in do what buffered delivery does, as long as the
/// buffer is not full when one arrives; one that arrives at a full buffer is
/// dropped, and those behind it are taken in as if it had not been there.
pub proof fn law_taking_in_is_buffered_delivery(
    s: DocumentView,
    held: Seq<OperationView>,
    capacity: usize,
    ops: Seq<OperationView>,
    op: OperationView,
)
    ensures
        (forall|k: int| 0 <= k < ops.len() ==> left(s, held, #[trigger] ops.take(k)).len() < capacity) ==> {
            &&& causal_buffer::taken(s, held, capacity, ops).0 == document::applied_all(s, run(s, held, ops))
            &&& causal_buffer::taken(s, held, capacity, ops).1 == left(s, held, ops)
        },
        causal_buffer::taken(s, held, capacity, ops).1.len() >= capacity ==> causal_buffer::taken(
            s,
            held,
            capacity,
            ops.push(op),
        ) == causal_buffer::taken(s, held, capacity, ops),
    decreases ops.len(),
{
    assert(ops.push(op).drop_last() =~= ops);
    if ops.len() == 0 {
        assert(document::applied_all(s, run(s, held, ops)) == s);
    } else if forall|k: int| 0 <= k < ops.len() ==> left(s, held, #[trigger] ops.take(k)).len() < capacity {
        let less = ops.drop_last();
        assert forall|k: int| 0 <= k < less.len() implies left(s, held, #[trigger] less.take(k)).len() < capacity by {
            assert(less.take(k) =~= ops.take(k));
        }
        law_taking_in_is_buffered_delivery(s, held, capacity, less, op);
        assert(ops.take(ops.len() - 1) =~= less);
        assert(left(s, held, ops.take(ops.len() - 1)).len() < capacity);
        let (t, h, _) = causal_buffer::taken(s, held, capacity, less);
        causal_buffer::lemma_applied_concat(
            s,
            run(s, held, less),
            causal_buffer::released(t, h.push(ops.last())),
        );
    }
}

proof fn lemma_joined(ids: Seq<OpId>, more: Seq<OpId>, id: OpId)
    requires
        ids.no_duplicates(),
    ensures
        causal_buffer::joined(ids, more).no_duplicates(),
        causal_buffer::joined(ids, more).contains(id) <==> ids.contains(id) || more.contains(id),
    decreases more.len(),
{
    if more.len() > 0 {
        let less = more.drop_last();
        lemma_joined(ids, less, id);
        let rest = causal_buffer::joined(ids, less);
        let now = causal_buffer::joined(ids, more);
        assert(more =~= less.push(more.last()));
        if less.contains(id) {
            let k = choose|k: int| 0 <= k < less.len() && less[k] == id;
            assert(more[k] == id);
        }
        if rest.contains(id) {
            let k = choose|k: int| 0 <= k < rest.len() && rest[k] == id;
            assert(now[k] == id);
        }
        if id == more.last() {
            assert(more[less.len() as int] == id);
            if !rest.contains(id) {
                assert(now[rest.len() as int] == id);
            }
        }
    }
}

/// The strokes that taking in names as changed are those of the operations that
/// it applies, each once.
pub proof fn law_strokes_taken_in_are_named(
    s: DocumentView,
    held: Seq<OperationView>,
    capacity: usize,
    ops: Seq<OperationView>,
    id: OpId,
)
    requires
        forall|k: int| 0 <= k < ops.len() ==> left(s, held, #[trigger] ops.take(k)).len() < capacity,
    ensures
        causal_buffer::taken(s, held, capacity, ops).2.no_duplicates(),
        causal_buffer::taken(s, held, capacity, ops).2.contains(id) <==> exists|i: int|
            0 <= i < run(s, held, ops).len() && match #[trigger] run(s, held, ops)[i] {
                OperationView::InsertStroke { id: made, .. } => made == id,
                OperationView::DeleteStroke { target, .. } => target == id,
                OperationView::UpdateProperty { target, .. } => target == id,
                OperationView::UpdateMetadata { .. } => false,
            },
    decreases ops.len(),
{
    let all = run(s, held, ops);
    law_changed_strokes_are_named(all, id);
    if ops.len() > 0 {
        let less = ops.drop_last();
        assert forall|k: int| 0 <= k < less.len() implies left(s, held, #[trigger] less.take(k)).len() < capacity by {
            assert(less.take(k) =~= ops.take(k));
        }
        law_strokes_taken_in_are_named(s, held, capacity, less, id);
        law_taking_in_is_buffered_delivery(s, held, capacity, less, ops.last());
        assert(ops.take(ops.len() - 1) =~= less);
        assert(left(s, held, ops.take(ops.len() - 1)).len() < capacity);
        let (t, h, changed) = causal_buffer::taken(s, held, capacity, less);
        let now = causal_buffer::released(t, h.push(ops.last()));
        let before = run(s, held, less);
        law_changed_strokes_are_named(before, id);
        law_changed_strokes_are_named(now, id);
        lemma_joined(changed, causal_buffer::noted_all(seq![], now), id);
        assert(all == before + now);
        lemma_noted_sum(before, now, id);
    }
}

proof fn lemma_noted_sum(a: Seq<OperationView>, b: Seq<OperationView>, id: OpId)
    ensures
        causal_buffer::noted_all(seq![], a + b).contains(id) <==> causal_buffer::noted_all(seq![], a).contains(id)
            || causal_buffer::noted_all(seq![], b).contains(id),
    decreases b.len(),
{
    if b.len() == 0 {
        assert(a + b =~= a);
    } else {
        let less = b.drop_last();
        lemma_noted_sum(a, less, id);
        assert((a + b).drop_last() =~= a + less);
        assert((a + b).last() == b.last());
        lemma_noted_contains(causal_buffer::noted_all(seq![], a + less), b.last().target_stroke(), id);
        lemma_noted_contains(causal_buffer::noted_all(seq![], less), b.last().target_stroke(), id);
    }
}

proof fn lemma_noted_contains(list: Seq<OpId>, one: Option<OpId>, id: OpId)
    ensures
        causal_buffer::noted(list, one).contains(id) <==> list.contains(id) || one == Some(id),
{
    let now = causal_buffer::noted(list, one);
    if list.contains(id) {
        let k = choose|k: int| 0 <= k < list.len() && list[k] == id;
        assert(now[k] == id);
    }
    if one == Some(id) && !list.contains(id) {
        assert(now[list.len() as int] == id);
    }
}

} // verus!
