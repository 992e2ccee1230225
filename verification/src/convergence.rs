//! Why replicas agree on the z-order.
//!
//! The left origins make the items a forest. The array always lists that
//! forest in pre-order, siblings by descending identifier. The order is
//! therefore a function of the set of items alone, not of the order in which
//! they arrived.

use crate::rga;
use crate::rga::RgaItem;
use crate::types::OpId;
use vstd::prelude::*;

verus! {

/// The order of the pre-order walk, on paths from the root: an ancestor comes
/// before its descendants, and where two paths part the higher identifier
/// comes first.
pub open spec fn path_before(p: Seq<OpId>, q: Seq<OpId>) -> bool
    decreases p.len(),
{
    if p.len() == 0 || q.len() == 0 {
        p.len() == 0 && q.len() > 0
    } else if p[0] != q[0] {
        p[0].rank() > q[0].rank()
    } else {
        path_before(p.drop_first(), q.drop_first())
    }
}

/// The identifiers on the way from the root to the item at `i`, that item's
/// own last.
pub open spec fn path_of(items: Seq<RgaItem>, i: int) -> Seq<OpId>
    decreases i,
{
    let up = rga::origin_position(items, items[i].origin_left);
    if 0 <= up < i {
        path_of(items, up).push(items[i].id)
    } else {
        seq![items[i].id]
    }
}

/// Every item names as its left origin the beginning or an item further left,
/// and no item has the zero identifier.
pub open spec fn rooted(items: Seq<RgaItem>) -> bool {
    forall|i: int|
        0 <= i < items.len() ==> (#[trigger] items[i]).id != OpId::zero() && (items[i].origin_left == OpId::zero()
            || (rga::has_id(items, items[i].origin_left) && rga::position(items, items[i].origin_left) < i))
}

/// The items stand in pre-order.
pub open spec fn preordered(items: Seq<RgaItem>) -> bool {
    forall|i: int, j: int| 0 <= i < j < items.len() ==> #[trigger] path_before(path_of(items, i), path_of(items, j))
}

/// An array of distinct items that lists its forest in pre-order.
pub open spec fn canonical(items: Seq<RgaItem>) -> bool {
    rga::distinct_ids(items) && rooted(items) && preordered(items)
}

/// Whether `item` can be placed among `items`: it has an identifier, its left
/// origin is there, and it has no right bound.
pub open spec fn placeable(items: Seq<RgaItem>, item: RgaItem) -> bool {
    &&& item.id != OpId::zero()
    &&& item.origin_left == OpId::zero() || rga::has_id(items, item.origin_left)
    &&& item.origin_right == OpId::zero()
}

proof fn lemma_before_irreflexive(p: Seq<OpId>)
    ensures
        !path_before(p, p),
    decreases p.len(),
{
    if p.len() > 0 {
        lemma_before_irreflexive(p.drop_first());
    }
}

proof fn lemma_before_transitive(p: Seq<OpId>, q: Seq<OpId>, r: Seq<OpId>)
    requires
        path_before(p, q),
        path_before(q, r),
    ensures
        path_before(p, r),
    decreases p.len(),
{
    if p.len() > 0 && p[0] == q[0] && q[0] == r[0] {
        lemma_before_transitive(p.drop_first(), q.drop_first(), r.drop_first());
    }
}

/// What lies before a path lies before its extensions.
proof fn lemma_before_longer(p: Seq<OpId>, q: Seq<OpId>, x: OpId)
    requires
        path_before(p, q) || p == q,
    ensures
        path_before(p, q.push(x)),
    decreases p.len(),
{
    let l = q.push(x);
    if p.len() > 0 {
        assert(l[0] == q[0]);
        assert(l.drop_first() =~= q.drop_first().push(x));
        if p[0] == q[0] {
            lemma_before_longer(p.drop_first(), q.drop_first(), x);
        }
    }
}

/// Where `p` lies between a path `q` and an extension of it by `x`, every
/// extension of `p` lies before that extension too.
proof fn lemma_between(q: Seq<OpId>, x: OpId, p: Seq<OpId>, y: OpId)
    requires
        path_before(q, p),
        path_before(p, q.push(x)),
    ensures
        path_before(p.push(y), q.push(x)),
    decreases q.len(),
{
    let l = q.push(x);
    let m = p.push(y);
    assert(m[0] == p[0]);
    assert(m.drop_first() =~= p.drop_first().push(y));
    if q.len() == 0 {
        assert(l.drop_first() =~= Seq::<OpId>::empty());
        if p[0] == x {
            assert(!path_before(p.drop_first(), Seq::<OpId>::empty()));
        }
    } else {
        assert(l[0] == q[0]);
        assert(l.drop_first() =~= q.drop_first().push(x));
        if p[0] == q[0] {
            lemma_between(q.drop_first(), x, p.drop_first(), y);
        }
    }
}

/// Where a child of `f` lies behind `q`, though `f` itself lies before, it
/// lies behind every extension of `q`.
proof fn lemma_behind(f: Seq<OpId>, y: OpId, q: Seq<OpId>, x: OpId)
    requires
        path_before(f, q),
        path_before(q, f.push(y)),
    ensures
        path_before(q.push(x), f.push(y)),
    decreases f.len(),
{
    let c = f.push(y);
    let l = q.push(x);
    assert(l[0] == q[0]);
    assert(l.drop_first() =~= q.drop_first().push(x));
    if f.len() == 0 {
        assert(c.drop_first() =~= Seq::<OpId>::empty());
        if q[0] == y {
            assert(!path_before(q.drop_first(), Seq::<OpId>::empty()));
        }
    } else {
        assert(c[0] == f[0]);
        assert(c.drop_first() =~= f.drop_first().push(y));
        if f[0] == q[0] {
            lemma_behind(f.drop_first(), y, q.drop_first(), x);
        }
    }
}

/// Siblings stand by descending identifier.
proof fn lemma_siblings(q: Seq<OpId>, x: OpId, y: OpId)
    requires
        x.rank() > y.rank(),
    ensures
        path_before(q.push(x), q.push(y)),
    decreases q.len(),
{
    let l = q.push(x);
    let m = q.push(y);
    if q.len() > 0 {
        assert(l.drop_first() =~= q.drop_first().push(x));
        assert(m.drop_first() =~= q.drop_first().push(y));
        lemma_siblings(q.drop_first(), x, y);
    }
}

/// The path to an origin; empty at the beginning.
pub open spec fn trunk(items: Seq<RgaItem>, origin: OpId) -> Seq<OpId> {
    if origin == OpId::zero() {
        seq![]
    } else {
        path_of(items, rga::position(items, origin))
    }
}

proof fn lemma_path(items: Seq<RgaItem>, i: int)
    requires
        rooted(items),
        0 <= i < items.len(),
    ensures
        path_of(items, i) == trunk(items, items[i].origin_left).push(items[i].id),
{
    assert(path_of(items, i) =~= trunk(items, items[i].origin_left).push(items[i].id));
}

/// All items before `i` come before the path `p`.
spec fn all_before(items: Seq<RgaItem>, i: int, p: Seq<OpId>) -> bool {
    forall|j: int| 0 <= j < i ==> path_before(#[trigger] path_of(items, j), p)
}

/// The scan stops at the pre-order place.
proof fn lemma_scan(items: Seq<RgaItem>, item: RgaItem, i: int)
    requires
        canonical(items),
        placeable(items, item),
        !rga::has_id(items, item.id),
        rga::origin_position(items, item.origin_left) < i <= items.len(),
        all_before(items, i, trunk(items, item.origin_left).push(item.id)),
    ensures
        ({
            let at = rga::scan(items, item, i, items.len() as int);
            let p = trunk(items, item.origin_left).push(item.id);
            &&& i <= at <= items.len()
            &&& all_before(items, at, p)
            &&& at < items.len() ==> path_before(p, path_of(items, at))
        }),
    decreases items.len() - i,
{
    let q = trunk(items, item.origin_left);
    let p = q.push(item.id);
    if i < items.len() {
        let existing = items[i];
        let ours = rga::origin_position(items, item.origin_left);
        let theirs = rga::origin_position(items, existing.origin_left);
        let f = trunk(items, existing.origin_left);
        lemma_path(items, i);
        if ours < theirs {
            assert(path_before(path_of(items, theirs), p));
            assert(path_before(q, f)) by {
                if ours >= 0 {
                    assert(path_before(path_of(items, ours), path_of(items, theirs)));
                }
            }
            lemma_between(q, item.id, f, existing.id);
        } else if ours == theirs {
            assert(f == q);
            crate::types::lemma_rank_injective(existing.id, item.id);
            if existing.id.rank() > item.id.rank() {
                lemma_siblings(q, existing.id, item.id);
            } else {
                lemma_siblings(q, item.id, existing.id);
            }
        } else {
            assert(path_before(f, q)) by {
                lemma_path(items, ours);
                if theirs >= 0 {
                    assert(path_before(path_of(items, theirs), path_of(items, ours)));
                }
            }
            assert(path_before(path_of(items, ours), path_of(items, i)));
            lemma_behind(f, existing.id, q, item.id);
        }
        if rga::passes(items, item, i) {
            lemma_scan(items, item, i + 1);
        }
    }
}

/// Everything left of the place of a new item comes before it in pre-order,
/// everything else behind it.
proof fn lemma_place(items: Seq<RgaItem>, item: RgaItem)
    requires
        canonical(items),
        placeable(items, item),
        !rga::has_id(items, item.id),
    ensures
        ({
            let at = rga::insert_position(items, item);
            let p = trunk(items, item.origin_left).push(item.id);
            &&& rga::origin_position(items, item.origin_left) < at <= items.len()
            &&& forall|j: int| 0 <= j < at ==> path_before(#[trigger] path_of(items, j), p)
            &&& forall|j: int| at <= j < items.len() ==> path_before(p, #[trigger] path_of(items, j))
        }),
{
    let q = trunk(items, item.origin_left);
    let p = q.push(item.id);
    let start = rga::scan_start(items, item);
    assert forall|j: int| 0 <= j < start implies path_before(#[trigger] path_of(items, j), p) by {
        lemma_before_longer(path_of(items, j), q, item.id);
    }
    lemma_scan(items, item, start);
    let at = rga::insert_position(items, item);
    assert forall|j: int| at <= j < items.len() implies path_before(p, #[trigger] path_of(items, j)) by {
        if j > at {
            lemma_before_transitive(p, path_of(items, at), path_of(items, j));
        }
    }
}

/// Where an item ends up after an insertion at `at`.
pub open spec fn shifted(at: int, i: int) -> int {
    if i < at {
        i
    } else {
        i + 1
    }
}

/// Inserting a new item moves no path.
proof fn lemma_paths_kept(items: Seq<RgaItem>, at: int, item: RgaItem, i: int)
    requires
        rga::distinct_ids(items),
        rooted(items),
        !rga::has_id(items, item.id),
        0 <= at <= items.len(),
        0 <= i < items.len(),
    ensures
        path_of(items.insert(at, item), shifted(at, i)) == path_of(items, i),
    decreases i,
{
    let more = items.insert(at, item);
    lemma_insert_keeps_positions(items, at, item);
    assert(more[shifted(at, i)] == items[i]);
    let up = items[i].origin_left;
    if up != OpId::zero() {
        let j = rga::position(items, up);
        assert(rga::position(more, up) == shifted(at, j));
        lemma_paths_kept(items, at, item, j);
    }
}

pub proof fn lemma_insert_keeps_positions(items: Seq<RgaItem>, at: int, item: RgaItem)
    requires
        rga::distinct_ids(items),
        !rga::has_id(items, item.id),
        0 <= at <= items.len(),
    ensures
        rga::distinct_ids(items.insert(at, item)),
        rga::position(items.insert(at, item), item.id) == at,
        forall|id: OpId|
            rga::has_id(items, id) ==> #[trigger] rga::position(items.insert(at, item), id) == shifted(
                at,
                rga::position(items, id),
            ),
        forall|id: OpId|
            #[trigger] rga::has_id(items.insert(at, item), id) <==> rga::has_id(items, id) || id == item.id,
{
    let more = items.insert(at, item);
    assert forall|i: int, j: int|
        0 <= i < more.len() && 0 <= j < more.len() && (#[trigger] more[i]).id == (#[trigger] more[j]).id implies i
        == j by {
        let a = if i < at { i } else { i - 1 };
        let b = if j < at { j } else { j - 1 };
        if i != at && j != at {
            assert(items[a] == more[i] && items[b] == more[j]);
        } else if i != at {
            assert(items[a] == more[i]);
        } else if j != at {
            assert(items[b] == more[j]);
        }
    }
    assert(more[at] == item);
    rga::lemma_position(more, at);
    assert forall|id: OpId| #[trigger] rga::has_id(more, id) <==> rga::has_id(items, id) || id == item.id by {
        if rga::has_id(items, id) {
            let i = rga::position(items, id);
            assert(more[shifted(at, i)] == items[i]);
        }
        if rga::has_id(more, id) {
            let i = rga::position(more, id);
            if i != at {
                let a = if i < at { i } else { i - 1 };
                assert(items[a] == more[i]);
            }
        }
    }
    assert forall|id: OpId| rga::has_id(items, id) implies #[trigger] rga::position(more, id) == shifted(
        at,
        rga::position(items, id),
    ) by {
        let i = rga::position(items, id);
        assert(more[shifted(at, i)] == items[i]);
        rga::lemma_position(more, shifted(at, i));
    }
}

/// Integration keeps the array in pre-order.
pub proof fn lemma_integrated_canonical(items: Seq<RgaItem>, item: RgaItem)
    requires
        canonical(items),
        placeable(items, item),
    ensures
        canonical(rga::integrated(items, item)),
{
    if !rga::has_id(items, item.id) {
        let at = rga::insert_position(items, item);
        let more = items.insert(at, item);
        lemma_place(items, item);
        lemma_insert_keeps_positions(items, at, item);
        assert(more[at] == item);
        assert forall|i: int| 0 <= i < more.len() implies (#[trigger] more[i]).id != OpId::zero() && (
        more[i].origin_left == OpId::zero() || (rga::has_id(more, more[i].origin_left) && rga::position(
            more,
            more[i].origin_left,
        ) < i)) by {
            if i != at {
                let a = if i < at { i } else { i - 1 };
                assert(items[a] == more[i]);
                assert(shifted(at, a) == i);
            }
            if more[i].origin_left != OpId::zero() {
                assert(rga::position(more, more[i].origin_left) == shifted(
                    at,
                    rga::position(items, more[i].origin_left),
                ));
            }
        }
        assert(path_of(more, at) == trunk(items, item.origin_left).push(item.id)) by {
            lemma_path(more, at);
            if item.origin_left != OpId::zero() {
                lemma_paths_kept(items, at, item, rga::position(items, item.origin_left));
            }
        }
        assert forall|i: int, j: int| 0 <= i < j < more.len() implies #[trigger] path_before(
            path_of(more, i),
            path_of(more, j),
        ) by {
            let a = if i < at { i } else { i - 1 };
            let b = if j < at { j } else { j - 1 };
            if i != at {
                lemma_paths_kept(items, at, item, a);
                assert(shifted(at, a) == i);
            }
            if j != at {
                lemma_paths_kept(items, at, item, b);
                assert(shifted(at, b) == j);
            }
            if i != at && j != at {
                assert(path_before(path_of(items, a), path_of(items, b)));
            }
        }
    }
}

/// Whether an item `id` with the left origin `up` is in the array.
pub open spec fn linked(items: Seq<RgaItem>, id: OpId, up: OpId) -> bool {
    exists|i: int| 0 <= i < items.len() && (#[trigger] items[i]).id == id && items[i].origin_left == up
}

/// The two arrays hold the same identifiers with the same left origins.
pub open spec fn same_links(a: Seq<RgaItem>, b: Seq<RgaItem>) -> bool {
    forall|id: OpId, up: OpId| #[trigger] linked(a, id, up) <==> linked(b, id, up)
}

/// The two arrays list the same identifiers in the same order.
pub open spec fn same_order(a: Seq<RgaItem>, b: Seq<RgaItem>) -> bool {
    &&& a.len() == b.len()
    &&& forall|i: int|
        0 <= i < a.len() ==> (#[trigger] a[i]).id == b[i].id && a[i].origin_left == b[i].origin_left
}

/// The path to an item is the same in both arrays.
proof fn lemma_same_path(a: Seq<RgaItem>, b: Seq<RgaItem>, i: int, j: int)
    requires
        rga::distinct_ids(a),
        rga::distinct_ids(b),
        rooted(a),
        rooted(b),
        same_links(a, b),
        0 <= i < a.len(),
        0 <= j < b.len(),
        a[i].id == b[j].id,
    ensures
        a[i].origin_left == b[j].origin_left,
        path_of(a, i) == path_of(b, j),
    decreases i,
{
    assert(linked(a, a[i].id, a[i].origin_left));
    assert(linked(b, a[i].id, a[i].origin_left));
    let up = a[i].origin_left;
    lemma_path(a, i);
    lemma_path(b, j);
    if up != OpId::zero() {
        lemma_same_path(a, b, rga::position(a, up), rga::position(b, up));
    }
}

proof fn lemma_same_prefix(a: Seq<RgaItem>, b: Seq<RgaItem>, n: int)
    requires
        canonical(a),
        canonical(b),
        same_links(a, b),
        0 <= n <= a.len(),
    ensures
        n <= b.len(),
        forall|i: int|
            0 <= i < n ==> (#[trigger] a[i]).id == b[i].id && a[i].origin_left == b[i].origin_left,
    decreases n,
{
    if n > 0 {
        lemma_same_prefix(a, b, n - 1);
        assert(linked(a, a[n - 1].id, a[n - 1].origin_left));
        assert(linked(b, a[n - 1].id, a[n - 1].origin_left));
        let k = choose|k: int|
            0 <= k < b.len() && (#[trigger] b[k]).id == a[n - 1].id && b[k].origin_left == a[n - 1].origin_left;
        if k < n - 1 {
            assert(a[k].id == b[k].id);
        }
        assert(linked(b, b[n - 1].id, b[n - 1].origin_left));
        assert(linked(a, b[n - 1].id, b[n - 1].origin_left));
        let l = choose|l: int|
            0 <= l < a.len() && (#[trigger] a[l]).id == b[n - 1].id && a[l].origin_left == b[n - 1].origin_left;
        if l < n - 1 {
            assert(a[l].id == b[l].id);
        }
        if k > n - 1 {
            lemma_same_path(a, b, n - 1, k);
            lemma_same_path(a, b, l, n - 1);
            assert(path_before(path_of(b, n - 1), path_of(b, k)));
            if l > n - 1 {
                assert(path_before(path_of(a, n - 1), path_of(a, l)));
                lemma_before_transitive(path_of(a, n - 1), path_of(a, l), path_of(a, n - 1));
                lemma_before_irreflexive(path_of(a, n - 1));
            }
        }
    }
}

/// The set of items decides the order: two arrays in pre-order with the same
/// identifiers and left origins list them in the same order.
pub proof fn law_order_is_a_function_of_the_set(a: Seq<RgaItem>, b: Seq<RgaItem>)
    requires
        canonical(a),
        canonical(b),
        same_links(a, b),
    ensures
        same_order(a, b),
{
    lemma_same_prefix(a, b, a.len() as int);
    assert(same_links(b, a));
    lemma_same_prefix(b, a, b.len() as int);
}

/// The array after the items have been integrated one after another.
pub open spec fn delivered(log: Seq<RgaItem>) -> Seq<RgaItem>
    decreases log.len(),
{
    if log.len() == 0 {
        seq![]
    } else {
        rga::integrated(delivered(log.drop_last()), log.last())
    }
}

/// Every item arrives after its left origin, none has a right bound or the
/// zero identifier, and items with the same identifier are the same.
pub open spec fn causal(log: Seq<RgaItem>) -> bool {
    &&& forall|k: int|
        0 <= k < log.len() ==> (#[trigger] log[k]).id != OpId::zero() && log[k].origin_right == OpId::zero() && (
        log[k].origin_left == OpId::zero() || rga::has_id(log.take(k), log[k].origin_left))
    &&& forall|j: int, k: int|
        0 <= j < log.len() && 0 <= k < log.len() && (#[trigger] log[j]).id == (#[trigger] log[k]).id ==> log[j]
            == log[k]
}

proof fn lemma_causal_prefix(log: Seq<RgaItem>)
    requires
        causal(log),
        log.len() > 0,
    ensures
        causal(log.drop_last()),
{
    let less = log.drop_last();
    assert forall|k: int| 0 <= k < less.len() implies (#[trigger] less[k]).id != OpId::zero()
        && less[k].origin_right == OpId::zero() && (less[k].origin_left == OpId::zero() || rga::has_id(
        less.take(k),
        less[k].origin_left,
    )) by {
        assert(less[k] == log[k]);
        assert(less.take(k) =~= log.take(k));
    }
    assert forall|j: int, k: int|
        0 <= j < less.len() && 0 <= k < less.len() && (#[trigger] less[j]).id == (#[trigger] less[k]).id implies less[j]
        == less[k] by {
        assert(less[j] == log[j] && less[k] == log[k]);
    }
}

proof fn lemma_insert_set(items: Seq<RgaItem>, at: int, item: RgaItem)
    requires
        0 <= at <= items.len(),
    ensures
        items.insert(at, item).to_set() == items.to_set().insert(item),
{
    let more = items.insert(at, item);
    assert forall|x: RgaItem| more.to_set().contains(x) <==> #[trigger] items.to_set().insert(item).contains(x) by {
        if more.contains(x) {
            let k = choose|k: int| 0 <= k < more.len() && more[k] == x;
            if k != at {
                assert(items[if k < at { k } else { k - 1 }] == x);
            }
        }
        if items.contains(x) {
            let k = choose|k: int| 0 <= k < items.len() && items[k] == x;
            assert(more[shifted(at, k)] == x);
        }
        assert(more[at] == item);
    }
    assert(more.to_set() =~= items.to_set().insert(item));
}

/// An identifier is in a list where some item of its set has it.
proof fn lemma_has_id_in_set(items: Seq<RgaItem>, id: OpId)
    ensures
        rga::has_id(items, id) <==> exists|x: RgaItem| #[trigger] items.to_set().contains(x) && x.id == id,
{
    if rga::has_id(items, id) {
        assert(items.to_set().contains(items[rga::position(items, id)]));
    }
    if exists|x: RgaItem| #[trigger] items.to_set().contains(x) && x.id == id {
        let x = choose|x: RgaItem| #[trigger] items.to_set().contains(x) && x.id == id;
        let k = choose|k: int| 0 <= k < items.len() && items[k] == x;
        assert(items[k].id == id);
    }
}

/// After causal delivery the array stands in pre-order and holds exactly the
/// delivered items.
pub proof fn lemma_delivered(log: Seq<RgaItem>)
    requires
        causal(log),
    ensures
        canonical(delivered(log)),
        delivered(log).to_set() == log.to_set(),
    decreases log.len(),
{
    if log.len() == 0 {
        assert(delivered(log).to_set() =~= log.to_set());
    } else {
        let less = log.drop_last();
        let item = log.last();
        let items = delivered(less);
        lemma_causal_prefix(log);
        lemma_delivered(less);
        assert(log[log.len() - 1] == item);
        assert(log.take(log.len() - 1) =~= less);
        assert(log =~= less.insert(less.len() as int, item));
        lemma_insert_set(less, less.len() as int, item);
        lemma_has_id_in_set(items, item.origin_left);
        lemma_has_id_in_set(less, item.origin_left);
        lemma_integrated_canonical(items, item);
        if rga::has_id(items, item.id) {
            lemma_has_id_in_set(items, item.id);
            lemma_has_id_in_set(less, item.id);
            let j = rga::position(less, item.id);
            assert(log[j] == less[j]);
            assert(less[j] == item);
            assert(less.to_set().contains(item));
            assert(less.to_set().insert(item) =~= less.to_set());
        } else {
            rga::lemma_insert_position(items, item);
            lemma_insert_set(items, rga::insert_position(items, item), item);
        }
    }
}

/// Strong convergence: two replicas to which the same items have been
/// delivered, each in an order of its own that respects causality, and with
/// any repetitions, hold the same array.
pub proof fn law_delivery_order_is_irrelevant(a: Seq<RgaItem>, b: Seq<RgaItem>)
    requires
        causal(a),
        causal(b),
        a.to_set() == b.to_set(),
    ensures
        delivered(a) == delivered(b),
{
    lemma_delivered(a);
    lemma_delivered(b);
    let x = delivered(a);
    let y = delivered(b);
    assert forall|id: OpId, up: OpId| #[trigger] linked(x, id, up) <==> linked(y, id, up) by {
        if linked(x, id, up) {
            let i = choose|i: int| 0 <= i < x.len() && (#[trigger] x[i]).id == id && x[i].origin_left == up;
            assert(x.to_set().contains(x[i]));
            let j = choose|j: int| 0 <= j < y.len() && y[j] == x[i];
            assert(y[j].id == id);
        }
        if linked(y, id, up) {
            let i = choose|i: int| 0 <= i < y.len() && (#[trigger] y[i]).id == id && y[i].origin_left == up;
            assert(y.to_set().contains(y[i]));
            let j = choose|j: int| 0 <= j < x.len() && x[j] == y[i];
            assert(x[j].id == id);
        }
    }
    law_order_is_a_function_of_the_set(x, y);
    assert forall|i: int| 0 <= i < x.len() implies x[i] == y[i] by {
        assert(x[i].id == y[i].id);
        assert(y.to_set().contains(y[i]));
        assert(x.to_set().contains(y[i]));
        let j = choose|j: int| 0 <= j < x.len() && x[j] == y[i];
        assert(x[j].id == x[i].id);
    }
    assert(x =~= y);
}

/// A replica that integrates an item twice holds the same array as one that
/// integrates it once.
pub proof fn law_integration_is_idempotent(items: Seq<RgaItem>, item: RgaItem)
    ensures
        rga::integrated(rga::integrated(items, item), item) == rga::integrated(items, item),
{
    if !rga::has_id(items, item.id) {
        rga::lemma_insert_position(items, item);
        let at = rga::insert_position(items, item);
        assert(items.insert(at, item)[at] == item);
    }
}

/// In an array in pre-order, of two items that were put on the same item the
/// one with the higher time comes first, and of two with the same time the one
/// of the higher actor; and an item stands right of the one that it was put on,
/// with nothing between them but what hangs on that one, or on something right
/// of it.
pub proof fn law_siblings_are_ordered(items: Seq<RgaItem>, i: int, j: int)
    requires
        canonical(items),
        0 <= i < items.len(),
        0 <= j < items.len(),
    ensures
        i < j && items[i].origin_left == items[j].origin_left ==> items[i].id.lamport.0 > items[j].id.lamport.0 || (
        items[i].id.lamport == items[j].id.lamport && items[i].id.actor.0 > items[j].id.actor.0),
        items[j].origin_left == items[i].id ==> i < j,
        items[j].origin_left == items[i].id ==> forall|k: int|
            i < k < j ==> exists|f: int| i <= f < k && (#[trigger] items[f]).id == (#[trigger] items[k]).origin_left,
{
    if i < j && items[i].origin_left == items[j].origin_left {
        let q = trunk(items, items[i].origin_left);
        let x = items[i].id;
        let y = items[j].id;
        lemma_path(items, i);
        lemma_path(items, j);
        crate::types::law_identifiers_are_ordered(x, y);
        crate::types::law_identifiers_are_ordered(y, x);
        assert(path_before(path_of(items, i), path_of(items, j)));
        if x.rank() <= y.rank() {
            assert(x != y);
            lemma_siblings(q, y, x);
            lemma_before_transitive(q.push(x), q.push(y), q.push(x));
            lemma_before_irreflexive(q.push(x));
        }
    }
    if items[j].origin_left == items[i].id {
        rga::lemma_position(items, i);
        assert(items[j].origin_left != OpId::zero());
        assert forall|k: int| i < k < j implies exists|f: int|
            i <= f < k && (#[trigger] items[f]).id == (#[trigger] items[k]).origin_left by {
            let f = rga::origin_position(items, items[k].origin_left);
            lemma_path(items, k);
            lemma_path(items, j);
            lemma_path(items, i);
            if f < i {
                let t = trunk(items, items[k].origin_left);
                assert(path_before(path_of(items, i), path_of(items, k)));
                assert(path_before(path_of(items, k), path_of(items, j)));
                assert(path_before(t, path_of(items, i))) by {
                    if items[k].origin_left != OpId::zero() {
                        assert(path_before(path_of(items, f), path_of(items, i)));
                    }
                }
                lemma_behind(t, items[k].id, path_of(items, i), items[j].id);
                lemma_before_transitive(path_of(items, k), path_of(items, j), path_of(items, k));
                lemma_before_irreflexive(path_of(items, k));
            } else {
                assert(items[f].id == items[k].origin_left);
            }
        }
    }
}

/// Whether an item that is to be placed goes right of the item at `k`; `ours` is
/// the place of the item that it is put on, -1 for the beginning. It does where
/// that one hangs on something right of `ours`, and where it hangs on the same
/// and is later.
pub open spec fn goes_right_of(items: Seq<RgaItem>, item: RgaItem, ours: int, k: int) -> bool {
    let theirs = items[k].origin_left;
    let on_another = theirs != OpId::zero() && exists|j: int| 0 <= j < items.len() && (#[trigger] items[j]).id == theirs;
    let is_later = items[k].id.lamport.0 > item.id.lamport.0 || (items[k].id.lamport.0 == item.id.lamport.0
        && items[k].id.actor.0 > item.id.actor.0);
    ||| on_another && exists|j: int| ours < j < items.len() && (#[trigger] items[j]).id == theirs
    ||| is_later && ours >= 0 && on_another && theirs == items[ours].id
    ||| is_later && ours < 0 && !on_another
}

/// Where a new item goes: right of the item that it was put on, or at the
/// beginning, and from there to the first item that it does not go right of,
/// but no further than to the item that it was put under. The others keep their
/// order.
pub proof fn law_items_go_to_their_place(items: Seq<RgaItem>, item: RgaItem, ours: int, end: int) -> (at: int)
    requires
        rga::distinct_ids(items),
        forall|i: int| 0 <= i < items.len() ==> (#[trigger] items[i]).id != item.id,
        item.origin_left != OpId::zero() ==> 0 <= ours < items.len() && items[ours].id == item.origin_left,
        item.origin_left == OpId::zero() ==> ours == -1,
        0 <= end <= items.len(),
        end == items.len() || items[end].id == item.origin_right,
        end == items.len() ==> item.origin_right == OpId::zero() || forall|i: int|
            0 <= i < items.len() ==> (#[trigger] items[i]).id != item.origin_right,
        item.origin_right == OpId::zero() ==> end == items.len(),
        ours < end,
    ensures
        ours < at <= end,
        rga::integrated(items, item).len() == items.len() + 1,
        rga::integrated(items, item)[at] == item,
        rga::integrated(items, item).remove(at) == items,
        forall|k: int| ours < k < at ==> #[trigger] goes_right_of(items, item, ours, k),
        at < end ==> !goes_right_of(items, item, ours, at),
{
    assert(!rga::has_id(items, item.id));
    if item.origin_left != OpId::zero() {
        rga::lemma_position(items, ours);
    }
    if end < items.len() {
        rga::lemma_position(items, end);
    }
    let at = rga::insert_position(items, item);
    rga::lemma_insert_position(items, item);
    assert(rga::scan_start(items, item) == ours + 1);
    assert(rga::scan_end(items, item) == end);
    lemma_scan_passes(items, item, ours + 1, end);
    assert forall|k: int| 0 <= k < items.len() implies #[trigger] goes_right_of(items, item, ours, k) == rga::passes(
        items,
        item,
        k,
    ) by {
        lemma_goes_right(items, item, ours, k);
    }
    assert(rga::integrated(items, item).remove(at) =~= items);
    at
}

proof fn lemma_goes_right(items: Seq<RgaItem>, item: RgaItem, ours: int, k: int)
    requires
        rga::distinct_ids(items),
        ours == rga::origin_position(items, item.origin_left),
        item.origin_left != OpId::zero() ==> 0 <= ours < items.len() && items[ours].id == item.origin_left,
        item.origin_left == OpId::zero() ==> ours == -1,
        0 <= k < items.len(),
    ensures
        goes_right_of(items, item, ours, k) == rga::passes(items, item, k),
{
    let theirs = items[k].origin_left;
    crate::types::law_identifiers_are_ordered(items[k].id, item.id);
    crate::types::law_identifiers_are_ordered(item.id, items[k].id);
    if theirs != OpId::zero() && rga::has_id(items, theirs) {
        let p = rga::position(items, theirs);
        assert(items[p].id == theirs);
        assert forall|j: int| 0 <= j < items.len() && (#[trigger] items[j]).id == theirs implies j == p by {}
    }
}

proof fn lemma_scan_passes(items: Seq<RgaItem>, item: RgaItem, i: int, end: int)
    requires
        0 <= i <= end,
    ensures
        ({
            let at = rga::scan(items, item, i, end);
            &&& i <= at <= end
            &&& forall|k: int| i <= k < at ==> #[trigger] rga::passes(items, item, k)
            &&& at < end ==> !rga::passes(items, item, at)
        }),
    decreases end - i,
{
    if i < end && rga::passes(items, item, i) {
        lemma_scan_passes(items, item, i + 1, end);
    }
}

/// An item that was put on one that is not there goes to the end. One that is
/// there already is not placed again.
pub proof fn law_stray_items_go_to_the_end(items: Seq<RgaItem>, item: RgaItem)
    ensures
        (exists|i: int| 0 <= i < items.len() && (#[trigger] items[i]).id == item.id) ==> rga::integrated(items, item)
            == items,
        item.origin_left != OpId::zero() && (forall|i: int|
            0 <= i < items.len() ==> (#[trigger] items[i]).id != item.origin_left && items[i].id != item.id)
            ==> rga::integrated(items, item) == items.push(item),
{
    if item.origin_left != OpId::zero() && (forall|i: int|
        0 <= i < items.len() ==> (#[trigger] items[i]).id != item.origin_left && items[i].id != item.id) {
        assert(!rga::has_id(items, item.origin_left));
        assert(!rga::has_id(items, item.id));
        rga::lemma_insert_position(items, item);
        assert(items.insert(items.len() as int, item) =~= items.push(item));
    }
}

} // verus!
