//! Garbage collection of causally stable tombstones.

use crate::agreement;
use crate::document;
use crate::document::{Document, DocumentView};
use crate::float::F64;
use crate::operation::OperationView;
use crate::rga;
use crate::rga::{ItemState, RgaArray, RgaItem};
use crate::stroke::StrokeView;
use crate::types;
use crate::types::{ActorId, OpId, VectorClock};
use std::collections::HashSet;
use vstd::prelude::*;

verus! {

/// How many origins a collected chain is followed over before the survivor is
/// attached to the beginning instead.
pub const MAX_CHAIN: usize = 10_000;

/// What an item takes in memory.
pub const ITEM_BYTES: usize = 88;

/// What an entry of the index and the store is estimated to take.
pub const ENTRY_BYTES: usize = 80;

/// What a point takes in memory.
pub const POINT_BYTES: usize = 12;

/// What the properties of a stroke are estimated to take.
pub const PROPERTIES_BYTES: usize = 128;

/// When and how much to collect.
#[derive(Debug, Clone, Copy, PartialEq, Eq, Structural)]
pub struct GcConfig {
    /// The share of tombstones above which collection runs.
    pub tombstone_ratio_threshold: F64,
    /// The number of tombstones from which collection runs.
    pub tombstone_count_threshold: usize,
    /// The most tombstones that one cycle collects.
    pub max_gc_per_cycle: usize,
}

/// A share of 0.30, a number of 10,000, and 5,000 to a cycle.
pub open spec fn standard() -> GcConfig {
    GcConfig {
        tombstone_ratio_threshold: F64 { bits: 0x3fd3_3333_3333_3333 },
        tombstone_count_threshold: 10_000,
        max_gc_per_cycle: 5_000,
    }
}

impl Default for GcConfig {
    fn default() -> (config: Self)
        ensures
            config == standard(),
    {
        GcConfig {
            tombstone_ratio_threshold: F64 { bits: 0x3fd3_3333_3333_3333 },
            tombstone_count_threshold: 10_000,
            max_gc_per_cycle: 5_000,
        }
    }
}

/// What a cycle did.
#[derive(Debug, Clone, Copy, PartialEq, Eq, Structural)]
pub struct GcResult {
    pub tombstones_removed: usize,
    pub bytes_freed_estimate: usize,
    pub generation: u64,
    /// Whether the cycle stopped at its limit and left tombstones that could
    /// be collected.
    pub partial: bool,
}

/// Whether an item is deleted and all known peers have seen its deletion.
pub open spec fn stable(item: RgaItem, mvv: Map<u64, u64>) -> bool {
    match item.state {
        ItemState::Active => false,
        ItemState::Tombstone { deleted_at } => types::seen(mvv, deleted_at.actor.0) >= deleted_at.lamport.0,
    }
}

/// The stable tombstones among the first `n` items, `max` at most, in order.
pub open spec fn swept(items: Seq<RgaItem>, mvv: Map<u64, u64>, max: nat, n: int) -> Seq<OpId>
    decreases n,
{
    if n <= 0 {
        seq![]
    } else if swept(items, mvv, max, n - 1).len() < max && stable(items[n - 1], mvv) {
        swept(items, mvv, max, n - 1).push(items[n - 1].id)
    } else {
        swept(items, mvv, max, n - 1)
    }
}

/// The items that one cycle collects.
pub open spec fn collected(s: DocumentView, max: nat) -> Seq<OpId> {
    swept(s.items, s.min_version, max, s.items.len() as int)
}

/// Whether the cycle leaves tombstones that could be collected.
pub open spec fn cut_short(s: DocumentView, max: nat) -> bool {
    exists|i: int|
        0 <= i < s.items.len() && stable(#[trigger] s.items[i], s.min_version) && !collected(s, max).contains(
            s.items[i].id,
        )
}

/// What is estimated to be freed with one stroke.
pub open spec fn weight(strokes: Map<OpId, StrokeView>, id: OpId) -> int {
    ITEM_BYTES + ENTRY_BYTES + if strokes.contains_key(id) {
        strokes[id].data.points.len() * POINT_BYTES + PROPERTIES_BYTES
    } else {
        0
    }
}

/// What is estimated to be freed with the listed strokes.
pub open spec fn total_weight(strokes: Map<OpId, StrokeView>, ids: Seq<OpId>) -> int
    decreases ids.len(),
{
    if ids.len() == 0 {
        0
    } else {
        total_weight(strokes, ids.drop_last()) + weight(strokes, ids.last())
    }
}

/// The nearest origin, up the chain of left origins, that is not collected;
/// zero where the chain breaks or is longer than `hops`.
pub open spec fn kept_ancestor(items: Seq<RgaItem>, gone: Seq<OpId>, origin: OpId, hops: nat) -> OpId
    decreases hops,
{
    if hops == 0 {
        OpId::zero()
    } else if !gone.contains(origin) {
        origin
    } else if rga::has_id(items, origin) {
        kept_ancestor(items, gone, items[rga::position(items, origin)].origin_left, (hops - 1) as nat)
    } else {
        OpId::zero()
    }
}

/// The item with its origins moved off the collected items.
pub open spec fn reparented(items: Seq<RgaItem>, gone: Seq<OpId>, item: RgaItem) -> RgaItem {
    RgaItem {
        origin_left: if gone.contains(item.origin_left) {
            kept_ancestor(items, gone, item.origin_left, MAX_CHAIN as nat)
        } else {
            item.origin_left
        },
        origin_right: if item.origin_right != OpId::zero() && gone.contains(item.origin_right) {
            kept_ancestor(items, gone, item.origin_right, MAX_CHAIN as nat)
        } else {
            item.origin_right
        },
        ..item
    }
}

/// Those of the first `n` items that are not collected, with their new origins.
pub open spec fn survivors(items: Seq<RgaItem>, gone: Seq<OpId>, n: int) -> Seq<RgaItem>
    decreases n,
{
    if n <= 0 {
        seq![]
    } else if gone.contains(items[n - 1].id) {
        survivors(items, gone, n - 1)
    } else {
        survivors(items, gone, n - 1).push(reparented(items, gone, items[n - 1]))
    }
}

/// The document after one cycle.
pub open spec fn swept_document(s: DocumentView, max: nat) -> DocumentView {
    let gone = collected(s, max);
    DocumentView {
        items: survivors(s.items, gone, s.items.len() as int),
        strokes: s.strokes.remove_keys(gone.to_set()),
        gc_generation: (s.gc_generation + 1) as u64,
        ..s
    }
}

/// Whether `x` is the sum `n`, or all that fits where `n` does not fit.
pub open spec fn clipped(n: int) -> usize {
    if n <= usize::MAX {
        n as usize
    } else {
        usize::MAX
    }
}

/// What a cycle reports.
pub open spec fn report(s: DocumentView, max: nat) -> GcResult {
    GcResult {
        tombstones_removed: collected(s, max).len() as usize,
        bytes_freed_estimate: clipped(total_weight(s.strokes, collected(s, max))),
        generation: (s.gc_generation + 1) as u64,
        partial: cut_short(s, max),
    }
}

/// A division can be carried out on all counts and always answers alike.
pub open spec fn well_defined<R: Fn(usize, usize) -> F64>(divide: R) -> bool {
    &&& forall|a: usize, b: usize| #[trigger] call_requires(divide, (a, b))
    &&& forall|a: usize, b: usize, r: F64, s: F64| #[trigger]
        call_ensures(divide, (a, b), r) && #[trigger] call_ensures(divide, (a, b), s) ==> r == s
}

/// What a division returns, as a mathematical function.
pub open spec fn quotient<R: Fn(usize, usize) -> F64>(divide: R) -> spec_fn(usize, usize) -> F64 {
    |a: usize, b: usize| choose|r: F64| call_ensures(divide, (a, b), r)
}

/// The share of tombstones; 0 in an empty document.
pub open spec fn ratio(s: DocumentView, q: spec_fn(usize, usize) -> F64) -> F64 {
    if s.items.len() == 0 {
        F64 { bits: 0 }
    } else {
        q(rga::tombstones(s.items) as usize, s.items.len() as usize)
    }
}

/// Whether a collection is due.
pub open spec fn due(s: DocumentView, config: GcConfig, q: spec_fn(usize, usize) -> F64) -> bool {
    config.tombstone_ratio_threshold.below(ratio(s, q)) || rga::tombstones(s.items)
        >= config.tombstone_count_threshold
}

/// The document after the peers have confirmed `mvv`, and what was collected.
pub open spec fn confirmed(
    s: DocumentView,
    mvv: Map<u64, u64>,
    config: GcConfig,
    q: spec_fn(usize, usize) -> F64,
) -> (DocumentView, Option<GcResult>) {
    let t = DocumentView { min_version: mvv, ..s };
    if due(t, config, q) {
        (swept_document(t, config.max_gc_per_cycle as nat), Some(report(t, config.max_gc_per_cycle as nat)))
    } else {
        (t, None)
    }
}

/// Whether the item at `i` is collected.
pub open spec fn goes(items: Seq<RgaItem>, mvv: Map<u64, u64>, max: nat, i: int) -> bool {
    swept(items, mvv, max, i).len() < max && stable(items[i], mvv)
}

proof fn lemma_swept(items: Seq<RgaItem>, mvv: Map<u64, u64>, max: nat, n: int, id: OpId)
    requires
        0 <= n <= items.len(),
    ensures
        swept(items, mvv, max, n).len() <= max,
        swept(items, mvv, max, n).len() <= n,
        swept(items, mvv, max, n).contains(id) <==> exists|i: int|
            0 <= i < n && (#[trigger] items[i]).id == id && goes(items, mvv, max, i),
    decreases n,
{
    if n > 0 {
        let less = swept(items, mvv, max, n - 1);
        let now = swept(items, mvv, max, n);
        lemma_swept(items, mvv, max, n - 1, id);
        if now.contains(id) {
            if goes(items, mvv, max, n - 1) && items[n - 1].id == id {
                assert(items[n - 1].id == id);
            } else {
                let k = choose|k: int| 0 <= k < now.len() && now[k] == id;
                assert(less[k] == id);
            }
        }
        if exists|i: int| 0 <= i < n && (#[trigger] items[i]).id == id && goes(items, mvv, max, i) {
            let i = choose|i: int| 0 <= i < n && (#[trigger] items[i]).id == id && goes(items, mvv, max, i);
            if i < n - 1 {
                assert(less.contains(id));
                let k = choose|k: int| 0 <= k < less.len() && less[k] == id;
                assert(now[k] == id);
            } else {
                assert(now[less.len() as int] == id);
            }
        }
    }
}

/// The cycle collects the items that [`goes`] names, and no others.
proof fn lemma_gone(items: Seq<RgaItem>, mvv: Map<u64, u64>, max: nat, i: int)
    requires
        rga::distinct_ids(items),
        0 <= i < items.len(),
    ensures
        swept(items, mvv, max, items.len() as int).contains(items[i].id) <==> goes(items, mvv, max, i),
{
    lemma_swept(items, mvv, max, items.len() as int, items[i].id);
}

/// The lists shrink by as much as is collected.
proof fn lemma_survivors(items: Seq<RgaItem>, mvv: Map<u64, u64>, max: nat, n: int)
    requires
        rga::distinct_ids(items),
        0 <= n <= items.len(),
    ensures
        ({
            let gone = swept(items, mvv, max, items.len() as int);
            let left = survivors(items, gone, n);
            &&& left.len() + swept(items, mvv, max, n).len() == n
            &&& rga::tombstones(left) + swept(items, mvv, max, n).len() == rga::tombstones(items.take(n))
            &&& document::visible_ids(left) == document::visible_ids(items.take(n))
            &&& forall|k: int|
                0 <= k < left.len() ==> exists|i: int|
                    0 <= i < n && !gone.contains((#[trigger] items[i]).id) && (#[trigger] left[k]) == reparented(
                        items,
                        gone,
                        items[i],
                    )
            &&& forall|i: int|
                0 <= i < n && !gone.contains((#[trigger] items[i]).id) ==> rga::has_id(left, items[i].id)
            &&& rga::distinct_ids(left)
        }),
    decreases n,
{
    let gone = swept(items, mvv, max, items.len() as int);
    let left = survivors(items, gone, n);
    reveal(Seq::filter);
    if n == 0 {
        assert(items.take(0) =~= seq![]);
    } else {
        let less = survivors(items, gone, n - 1);
        lemma_survivors(items, mvv, max, n - 1);
        lemma_gone(items, mvv, max, n - 1);
        assert(items.take(n).drop_last() =~= items.take(n - 1));
        let item = items[n - 1];
        if !gone.contains(item.id) {
            assert(left.drop_last() =~= less);
            assert(left.last() == reparented(items, gone, item));
            assert forall|k: int| 0 <= k < left.len() implies exists|i: int|
                0 <= i < n && !gone.contains((#[trigger] items[i]).id) && (#[trigger] left[k]) == reparented(
                    items,
                    gone,
                    items[i],
                ) by {
                if k < less.len() {
                    assert(left[k] == less[k]);
                } else {
                    assert(items[n - 1] == item);
                }
            }
            assert forall|i: int| 0 <= i < n && !gone.contains((#[trigger] items[i]).id) implies rga::has_id(
                left,
                items[i].id,
            ) by {
                if i < n - 1 {
                    assert(rga::has_id(less, items[i].id));
                    let k = rga::position(less, items[i].id);
                    assert(left[k] == less[k]);
                } else {
                    assert(left[less.len() as int].id == item.id);
                }
            }
            assert forall|a: int, b: int|
                0 <= a < left.len() && 0 <= b < left.len() && (#[trigger] left[a]).id == (#[trigger] left[b]).id implies a
                == b by {
                if a < less.len() && b < less.len() {
                    assert(left[a] == less[a] && left[b] == less[b]);
                } else if a < less.len() {
                    assert(left[a] == less[a]);
                    let i = choose|i: int|
                        0 <= i < n - 1 && !gone.contains((#[trigger] items[i]).id) && less[a] == reparented(
                            items,
                            gone,
                            items[i],
                        );
                    assert(items[i].id == items[n - 1].id);
                } else if b < less.len() {
                    assert(left[b] == less[b]);
                    let i = choose|i: int|
                        0 <= i < n - 1 && !gone.contains((#[trigger] items[i]).id) && less[b] == reparented(
                            items,
                            gone,
                            items[i],
                        );
                    assert(items[i].id == items[n - 1].id);
                }
            }
            let was = items.take(n);
            if item.visible() {
                assert(rga::visible(left) == rga::visible(less).push(left.last()));
                assert(rga::visible(was) == rga::visible(items.take(n - 1)).push(item));
                assert(document::visible_ids(left) =~= document::visible_ids(less).push(item.content));
                assert(document::visible_ids(was) =~= document::visible_ids(items.take(n - 1)).push(item.content));
            } else {
                assert(rga::visible(left) == rga::visible(less));
                assert(rga::visible(was) == rga::visible(items.take(n - 1)));
            }
        }
    }
}

proof fn lemma_remove_one_more(strokes: Map<OpId, StrokeView>, ids: Seq<OpId>, k: int)
    requires
        0 <= k < ids.len(),
    ensures
        strokes.remove_keys(ids.take(k).to_set()).remove(ids[k]) == strokes.remove_keys(ids.take(k + 1).to_set()),
{
    let was = ids.take(k);
    let now = ids.take(k + 1);
    assert forall|id: OpId| now.contains(id) <==> was.contains(id) || id == ids[k] by {
        if was.contains(id) {
            let j = choose|j: int| 0 <= j < was.len() && was[j] == id;
            assert(now[j] == id);
        }
        if now.contains(id) {
            let j = choose|j: int| 0 <= j < now.len() && now[j] == id;
            if j < k {
                assert(was[j] == id);
            }
        }
        assert(now[k] == ids[k]);
    }
    assert(strokes.remove_keys(was.to_set()).remove(ids[k]) =~= strokes.remove_keys(now.to_set()));
}

/// Once the limit is reached, nothing more is swept.
proof fn lemma_swept_stops(items: Seq<RgaItem>, mvv: Map<u64, u64>, max: nat, i: int, n: int)
    requires
        0 <= i,
        i <= n ==> i == n || swept(items, mvv, max, i).len() >= max,
        n < i ==> n == i - 1,
    ensures
        i <= n ==> swept(items, mvv, max, n) == swept(items, mvv, max, i),
    decreases n - i,
{
    if i < n {
        lemma_swept_stops(items, mvv, max, i, n - 1);
    }
}

/// A cycle keeps the document consistent.
proof fn lemma_swept_consistent(s: DocumentView, max: nat)
    requires
        document::consistent(s),
    ensures
        document::consistent(swept_document(s, max)),
{
    let n = s.items.len() as int;
    let gone = collected(s, max);
    let t = swept_document(s, max);
    lemma_survivors(s.items, s.min_version, max, n);
    assert forall|id: OpId| rga::has_id(t.items, id) <==> #[trigger] t.strokes.contains_key(id) by {
        if rga::has_id(t.items, id) {
            let k = rga::position(t.items, id);
            let i = choose|i: int|
                0 <= i < n && !gone.contains((#[trigger] s.items[i]).id) && t.items[k] == reparented(
                    s.items,
                    gone,
                    s.items[i],
                );
            assert(s.items[i].id == id);
            assert(rga::has_id(s.items, id));
            assert(s.strokes.contains_key(id));
        }
        if t.strokes.contains_key(id) {
            assert(s.strokes.contains_key(id));
            let i = rga::position(s.items, id);
            assert(!gone.contains(s.items[i].id));
        }
    }
    assert forall|k: int| 0 <= k < t.items.len() implies document::settled(t, #[trigger] t.items[k]) by {
        let i = choose|i: int|
            0 <= i < n && !gone.contains((#[trigger] s.items[i]).id) && t.items[k] == reparented(
                s.items,
                gone,
                s.items[i],
            );
        assert(document::settled(s, s.items[i]));
    }
}

/// Only tombstones whose deletion all known peers have seen are collected, and
/// they are gone afterwards, with their strokes.
pub proof fn law_only_stable_tombstones_go(s: DocumentView, max: nat, id: OpId)
    requires
        document::consistent(s),
        collected(s, max).contains(id),
    ensures
        rga::has_id(s.items, id),
        stable(s.items[rga::position(s.items, id)], s.min_version),
        !rga::has_id(swept_document(s, max).items, id),
        !swept_document(s, max).strokes.contains_key(id),
{
    lemma_swept(s.items, s.min_version, max, s.items.len() as int, id);
    let i = choose|i: int|
        0 <= i < s.items.len() && (#[trigger] s.items[i]).id == id && goes(s.items, s.min_version, max, i);
    rga::lemma_position(s.items, i);
    lemma_swept_consistent(s, max);
    assert(!swept_document(s, max).strokes.contains_key(id));
}

/// A cycle changes neither the visible strokes nor their order, and keeps
/// their paths and properties.
pub proof fn law_visible_strokes_stay(s: DocumentView, max: nat)
    requires
        document::consistent(s),
    ensures
        document::visible_ids(swept_document(s, max).items) == document::visible_ids(s.items),
        forall|id: OpId|
            document::visible_ids(s.items).contains(id) ==> #[trigger] swept_document(s, max).strokes.contains_key(id)
                && swept_document(s, max).strokes[id] == s.strokes[id],
{
    let n = s.items.len() as int;
    lemma_survivors(s.items, s.min_version, max, n);
    assert(s.items.take(n) =~= s.items);
    let t = swept_document(s, max);
    assert forall|id: OpId| document::visible_ids(s.items).contains(id) implies #[trigger] t.strokes.contains_key(id)
        && t.strokes[id] == s.strokes[id] by {
        let k = choose|k: int|
            0 <= k < document::visible_ids(s.items).len() && document::visible_ids(s.items)[k] == id;
        rga::lemma_visible_in(s.items, k);
        let i = choose|i: int| 0 <= i < s.items.len() && s.items[i] == rga::visible(s.items)[k];
        assert(s.items[i].content == s.items[i].id);
        assert(s.items[i].id == id);
        assert(rga::has_id(s.items, id));
        lemma_gone(s.items, s.min_version, max, i);
        assert(!collected(s, max).contains(id));
    }
}

proof fn lemma_kept_ancestor(items: Seq<RgaItem>, gone: Seq<OpId>, origin: OpId, hops: nat)
    requires
        forall|i: int|
            0 <= i < items.len() ==> (#[trigger] items[i]).origin_left == OpId::zero() || rga::has_id(
                items,
                items[i].origin_left,
            ),
        origin == OpId::zero() || rga::has_id(items, origin),
    ensures
        ({
            let kept = kept_ancestor(items, gone, origin, hops);
            kept == OpId::zero() || (rga::has_id(items, kept) && !gone.contains(kept))
        }),
    decreases hops,
{
    if hops > 0 && gone.contains(origin) && rga::has_id(items, origin) {
        lemma_kept_ancestor(items, gone, items[rga::position(items, origin)].origin_left, (hops - 1) as nat);
    }
}

proof fn lemma_kept_stays(items: Seq<RgaItem>, gone: Seq<OpId>, origin: OpId, hops: nat)
    ensures
        ({
            let kept = kept_ancestor(items, gone, origin, hops);
            kept == OpId::zero() || !gone.contains(kept)
        }),
    decreases hops,
{
    if hops > 0 && gone.contains(origin) && rga::has_id(items, origin) {
        lemma_kept_stays(items, gone, items[rga::position(items, origin)].origin_left, (hops - 1) as nat);
    }
}

/// No survivor of a cycle has an origin, left or right, that the cycle
/// collects.
pub proof fn law_origins_are_moved_off(s: DocumentView, max: nat)
    requires
        document::consistent(s),
    ensures
        forall|k: int|
            0 <= k < swept_document(s, max).items.len() ==> {
                let item = #[trigger] swept_document(s, max).items[k];
                &&& item.origin_left == OpId::zero() || !collected(s, max).contains(item.origin_left)
                &&& item.origin_right == OpId::zero() || !collected(s, max).contains(item.origin_right)
            },
{
    let n = s.items.len() as int;
    let gone = collected(s, max);
    let t = swept_document(s, max);
    lemma_survivors(s.items, s.min_version, max, n);
    assert forall|k: int| 0 <= k < t.items.len() implies {
        let item = #[trigger] t.items[k];
        &&& item.origin_left == OpId::zero() || !gone.contains(item.origin_left)
        &&& item.origin_right == OpId::zero() || !gone.contains(item.origin_right)
    } by {
        let i = choose|i: int|
            0 <= i < n && !gone.contains((#[trigger] s.items[i]).id) && t.items[k] == reparented(
                s.items,
                gone,
                s.items[i],
            );
        lemma_kept_stays(s.items, gone, s.items[i].origin_left, MAX_CHAIN as nat);
        lemma_kept_stays(s.items, gone, s.items[i].origin_right, MAX_CHAIN as nat);
    }
}

/// Where every left origin was there before a cycle, every left origin is
/// there after it: no survivor refers to what is gone.
pub proof fn law_no_dangling_origins(s: DocumentView, max: nat)
    requires
        document::consistent(s),
        forall|i: int|
            0 <= i < s.items.len() ==> (#[trigger] s.items[i]).origin_left == OpId::zero() || rga::has_id(
                s.items,
                s.items[i].origin_left,
            ),
    ensures
        forall|k: int|
            0 <= k < swept_document(s, max).items.len() ==> (#[trigger] swept_document(s, max).items[k]).origin_left
                == OpId::zero() || rga::has_id(
                swept_document(s, max).items,
                swept_document(s, max).items[k].origin_left,
            ),
{
    let n = s.items.len() as int;
    let gone = collected(s, max);
    let t = swept_document(s, max);
    lemma_survivors(s.items, s.min_version, max, n);
    assert forall|k: int| 0 <= k < t.items.len() implies (#[trigger] t.items[k]).origin_left == OpId::zero()
        || rga::has_id(t.items, t.items[k].origin_left) by {
        let i = choose|i: int|
            0 <= i < n && !gone.contains((#[trigger] s.items[i]).id) && t.items[k] == reparented(
                s.items,
                gone,
                s.items[i],
            );
        lemma_kept_ancestor(s.items, gone, s.items[i].origin_left, MAX_CHAIN as nat);
        let up = t.items[k].origin_left;
        if up != OpId::zero() {
            assert(rga::has_id(s.items, up) && !gone.contains(up));
            let j = rga::position(s.items, up);
            assert(!gone.contains(s.items[j].id));
        }
    }
}

/// Whether the set holds the keys of exactly the listed identifiers.
spec fn keys_of(keys: Set<u128>, ids: Seq<OpId>) -> bool {
    forall|id: OpId| #[trigger] keys.contains(id.rank() as u128) <==> ids.contains(id)
}

fn key_set(ids: &Vec<OpId>) -> (keys: HashSet<u128>)
    ensures
        keys_of(keys@, ids@),
{
    let mut keys: HashSet<u128> = HashSet::new();
    let mut i: usize = 0;
    while i < ids.len()
        invariant
            i <= ids@.len(),
            keys_of(keys@, ids@.take(i as int)),
        decreases ids@.len() - i,
    {
        keys.insert(ids[i].key());
        proof {
            let was = ids@.take(i as int);
            let now = ids@.take(i + 1);
            assert(now =~= was.push(ids@[i as int]));
            assert forall|id: OpId| #[trigger] keys@.contains(id.rank() as u128) <==> now.contains(id) by {
                types::lemma_rank_injective(id, ids@[i as int]);
                if was.contains(id) {
                    let k = choose|k: int| 0 <= k < was.len() && was[k] == id;
                    assert(now[k] == id);
                }
                if now.contains(id) {
                    let k = choose|k: int| 0 <= k < now.len() && now[k] == id;
                    if k < i {
                        assert(was[k] == id);
                    }
                }
                assert(now[i as int] == ids@[i as int]);
            }
        }
        i += 1;
    }
    proof {
        assert(ids@.take(ids@.len() as int) =~= ids@);
    }
    keys
}

fn points_bytes(n: usize) -> (bytes: usize)
    ensures
        bytes == clipped(n * POINT_BYTES),
{
    if n <= usize::MAX / POINT_BYTES {
        n * POINT_BYTES
    } else {
        usize::MAX
    }
}

/// Follows the chain of left origins to the nearest item that stays.
fn find_kept_ancestor(
    origin: OpId,
    keys: &HashSet<u128>,
    order: &RgaArray,
    Ghost(gone): Ghost<Seq<OpId>>,
) -> (kept: OpId)
    requires
        order.wf(),
        keys_of(keys@, gone),
    ensures
        kept == kept_ancestor(order@, gone, origin, MAX_CHAIN as nat),
{
    let mut at = origin;
    let mut hops: usize = MAX_CHAIN;
    while hops > 0
        invariant
            order.wf(),
            keys_of(keys@, gone),
            kept_ancestor(order@, gone, at, hops as nat) == kept_ancestor(order@, gone, origin, MAX_CHAIN as nat),
        decreases hops,
    {
        if !keys.contains(&at.key()) {
            assert(!keys@.contains(at.rank() as u128));
            return at;
        }
        assert(keys@.contains(at.rank() as u128));
        match order.position_of(at) {
            Some(i) => {
                at = order.items[i].origin_left;
            },
            None => {
                return OpId::zero();
            },
        }
        hops = hops - 1;
    }
    OpId::zero()
}

fn reparent(item: RgaItem, keys: &HashSet<u128>, order: &RgaArray, Ghost(gone): Ghost<Seq<OpId>>) -> (moved: RgaItem)
    requires
        order.wf(),
        keys_of(keys@, gone),
    ensures
        moved == reparented(order@, gone, item),
{
    let mut moved = item;
    assert(keys@.contains(item.origin_left.rank() as u128) <==> gone.contains(item.origin_left));
    assert(keys@.contains(item.origin_right.rank() as u128) <==> gone.contains(item.origin_right));
    if keys.contains(&item.origin_left.key()) {
        moved.origin_left = find_kept_ancestor(item.origin_left, keys, order, Ghost(gone));
    }
    if !item.origin_right.is_zero() && keys.contains(&item.origin_right.key()) {
        moved.origin_right = find_kept_ancestor(item.origin_right, keys, order, Ghost(gone));
    }
    moved
}

impl RgaArray {
    /// The share of tombstones by the given division; 0 in an empty array.
    pub fn tombstone_ratio<R: Fn(usize, usize) -> F64>(&self, divide: &R) -> (share: F64)
        requires
            self.wf(),
            well_defined(*divide),
        ensures
            share == (if self@.len() == 0 {
                F64 { bits: 0 }
            } else {
                quotient(*divide)(rga::tombstones(self@) as usize, self@.len() as usize)
            }),
    {
        if self.total_count == 0 {
            return F64 { bits: 0 };
        }
        let share = divide(self.tombstone_count, self.total_count);
        proof {
            assert(call_ensures(
                *divide,
                (self.tombstone_count, self.total_count),
                quotient(*divide)(self.tombstone_count, self.total_count),
            ));
        }
        share
    }
}

impl Document {
    /// Whether a collection is due by the thresholds.
    pub fn should_gc<R: Fn(usize, usize) -> F64>(&self, config: &GcConfig, divide: &R) -> (yes: bool)
        requires
            self.wf(),
            well_defined(*divide),
        ensures
            yes == due(self@, *config, quotient(*divide)),
    {
        config.tombstone_ratio_threshold.less(self.stroke_order.tombstone_ratio(divide))
            || self.stroke_order.tombstone_count >= config.tombstone_count_threshold
    }

    /// The identifiers that a cycle collects, and what that is estimated to free.
    fn sweep(&self, max: usize) -> (swept_ids: (Vec<OpId>, usize, bool))
        requires
            self.wf(),
        ensures
            swept_ids.0@ == collected(self@, max as nat),
            swept_ids.1 == clipped(total_weight(self@.strokes, collected(self@, max as nat))),
            swept_ids.2 == cut_short(self@, max as nat),
    {
        let mut ids: Vec<OpId> = Vec::new();
        let mut freed: usize = 0;
        let mut i: usize = 0;
        let ghost items = self@.items;
        let ghost mvv = self@.min_version;
        while i < self.stroke_order.items.len() && ids.len() < max
            invariant
                items == self@.items,
                mvv == self@.min_version,
                self.wf(),
                i <= items.len(),
                ids@ == swept(items, mvv, max as nat, i as int),
                freed == clipped(total_weight(self@.strokes, ids@)),
                0 <= total_weight(self@.strokes, ids@),
                forall|k: int| 0 <= k < i ==> stable(#[trigger] items[k], mvv) ==> ids@.contains(items[k].id),
            decreases items.len() - i,
        {
            let item = self.stroke_order.items[i];
            let ghost before = ids@;
            if self.is_stable(&item) {
                proof {
                    assert(ids@.push(item.id).drop_last() =~= ids@);
                }
                ids.push(item.id);
                freed = freed.saturating_add(ITEM_BYTES + ENTRY_BYTES);
                match self.stroke_store.get(&item.content) {
                    Some((data, _)) => {
                        freed = freed.saturating_add(points_bytes(data.points.len())).saturating_add(
                            PROPERTIES_BYTES,
                        );
                    },
                    None => {},
                }
            }
            proof {
                assert forall|k: int| 0 <= k < i + 1 && stable(#[trigger] items[k], mvv) implies ids@.contains(
                    items[k].id,
                ) by {
                    if k < i {
                        let j = choose|j: int| 0 <= j < before.len() && before[j] == items[k].id;
                        assert(ids@[j] == items[k].id);
                    } else {
                        assert(ids@[before.len() as int] == items[k].id);
                    }
                }
            }
            i += 1;
        }
        proof {
            lemma_swept_stops(items, mvv, max as nat, i as int, items.len() as int);
            assert forall|k: int| i <= k < items.len() implies !ids@.contains((#[trigger] items[k]).id) by {
                lemma_swept_stops(items, mvv, max as nat, i as int, k);
                lemma_gone(items, mvv, max as nat, k);
            }
        }
        let mut partial = false;
        let ghost end = i;
        while i < self.stroke_order.items.len() && !partial
            invariant
                items == self@.items,
                mvv == self@.min_version,
                self.wf(),
                end <= i <= items.len(),
                partial ==> exists|k: int| end <= k < items.len() && stable(#[trigger] items[k], mvv),
                !partial ==> forall|k: int| end <= k < i ==> !stable(#[trigger] items[k], mvv),
            decreases items.len() - i,
        {
            partial = self.is_stable(&self.stroke_order.items[i]);
            proof {
                if partial {
                    assert(stable(items[i as int], mvv));
                }
            }
            i += 1;
        }
        proof {
            if partial {
                let k = choose|k: int| end <= k < items.len() && stable(#[trigger] items[k], mvv);
                assert(!ids@.contains(items[k].id));
            }
        }
        (ids, freed, partial)
    }

    fn is_stable(&self, item: &RgaItem) -> (yes: bool)
        ensures
            yes == stable(*item, self@.min_version),
    {
        match item.state {
            ItemState::Active => false,
            ItemState::Tombstone { deleted_at } => self.min_version.get(deleted_at.actor) >= deleted_at.lamport.0,
        }
    }

    /// Runs one cycle of garbage collection.
    ///
    /// Only tombstones whose deletion all known peers have seen are collected,
    /// so that no peer can still need them to place an item. Survivors whose
    /// origin is collected are moved to the nearest one that stays, so that a
    /// snapshot refers to nothing that is gone.
    pub fn run_gc(&mut self, config: &GcConfig) -> (result: GcResult)
        requires
            old(self).wf(),
            old(self)@.gc_generation < u64::MAX,
        ensures
            final(self).wf(),
            final(self)@ == swept_document(old(self)@, config.max_gc_per_cycle as nat),
            result == report(old(self)@, config.max_gc_per_cycle as nat),
            document::visible_ids(final(self)@.items) == document::visible_ids(old(self)@.items),
    {
        let ghost s = old(self)@;
        let ghost max = config.max_gc_per_cycle as nat;
        let (ids, freed, partial): (Vec<OpId>, usize, bool) = self.sweep(config.max_gc_per_cycle);
        let ghost gone = ids@;
        proof {
            lemma_survivors(s.items, s.min_version, max, s.items.len() as int);
            assert(s.items.take(s.items.len() as int) =~= s.items);
        }
        let keys = key_set(&ids);
        let mut left: Vec<RgaItem> = Vec::new();
        let mut i: usize = 0;
        while i < self.stroke_order.items.len()
            invariant
                self.wf(),
                self@ == s,
                i <= s.items.len(),
                keys_of(keys@, gone),
                left@ == survivors(s.items, gone, i as int),
            decreases s.items.len() - i,
        {
            let item = self.stroke_order.items[i];
            assert(keys@.contains(item.id.rank() as u128) <==> gone.contains(item.id));
            if !keys.contains(&item.id.key()) {
                let moved = reparent(item, &keys, &self.stroke_order, Ghost(gone));
                left.push(moved);
            }
            i += 1;
        }
        let mut k: usize = 0;
        while k < ids.len()
            invariant
                k <= ids@.len(),
                ids@ == gone,
                self.stroke_store@ == s.strokes.remove_keys(gone.take(k as int).to_set()),
                self.local_actor == old(self).local_actor,
                self.clock == old(self).clock,
                self.version == old(self).version,
                self.stroke_order == old(self).stroke_order,
                self.metadata == old(self).metadata,
                self.pending_ops == old(self).pending_ops,
                self.min_version == old(self).min_version,
                self.gc_generation == old(self).gc_generation,
                self.undo_stack == old(self).undo_stack,
                self.simplify_epsilon == old(self).simplify_epsilon,
            decreases ids@.len() - k,
        {
            self.stroke_store.remove(&ids[k]);
            proof {
                lemma_remove_one_more(s.strokes, gone, k as int);
            }
            k += 1;
        }
        proof {
            assert(gone.take(gone.len() as int) =~= gone);
        }
        self.stroke_order.items = left;
        self.stroke_order.rebuild_index();
        self.stroke_order.tombstone_count = self.stroke_order.tombstone_count - ids.len();
        self.stroke_order.total_count = self.stroke_order.total_count - ids.len();
        self.gc_generation = self.gc_generation + 1;
        proof {
            assert(self@ =~= swept_document(s, max));
            lemma_swept_consistent(s, max);
        }
        GcResult {
            tombstones_removed: ids.len(),
            bytes_freed_estimate: freed,
            generation: self.gc_generation,
            partial,
        }
    }

    /// Takes over what all peers have confirmed, and collects if that is due.
    pub fn update_min_version<R: Fn(usize, usize) -> F64>(
        &mut self,
        mvv: VectorClock,
        config: &GcConfig,
        divide: &R,
    ) -> (result: Option<GcResult>)
        requires
            old(self).wf(),
            old(self)@.gc_generation < u64::MAX,
            well_defined(*divide),
        ensures
            final(self).wf(),
            (final(self)@, result) == confirmed(old(self)@, mvv@, *config, quotient(*divide)),
            document::visible_ids(final(self)@.items) == document::visible_ids(old(self)@.items),
    {
        self.min_version = mvv;
        proof {
            assert(self@ =~= (DocumentView { min_version: mvv@, ..old(self)@ }));
        }
        if self.should_gc(config, divide) {
            Some(self.run_gc(config))
        } else {
            None
        }
    }
}

/// Replicas that have applied the same set of operations, each in a causal
/// order of its own, and are told the same, collect the same, and hold the same
/// items with the same origins afterwards.
pub proof fn law_replicas_collect_alike(
    p: ActorId,
    q: ActorId,
    a: Seq<OperationView>,
    b: Seq<OperationView>,
    mvv: Map<u64, u64>,
    max: nat,
)
    requires
        agreement::causal(a),
        agreement::causal(b),
        agreement::named_once(a),
        a.to_set() == b.to_set(),
        agreement::roomy(document::blank(p), a),
        agreement::roomy(document::blank(q), b),
    ensures
        ({
            let s = DocumentView { min_version: mvv, ..document::applied_all(document::blank(p), a) };
            let t = DocumentView { min_version: mvv, ..document::applied_all(document::blank(q), b) };
            &&& collected(s, max) == collected(t, max)
            &&& swept_document(s, max).items == swept_document(t, max).items
            &&& swept_document(s, max).strokes == swept_document(t, max).strokes
            &&& cut_short(s, max) == cut_short(t, max)
        }),
{
    agreement::law_replicas_converge(p, q, a, b);
}

/// A cycle collects what all have seen the deletion of, and nothing else: an
/// item that goes was deleted by an operation whose time is no later than what
/// is confirmed of the actor of that operation; and where such an item stays,
/// the cycle has reached its limit below it.
pub proof fn law_collects_what_all_have_seen(s: DocumentView, max: nat, i: int)
    requires
        document::consistent(s),
        0 <= i < s.items.len(),
    ensures
        ({
            let t = swept_document(s, max).items;
            let stays = exists|k: int| 0 <= k < t.len() && (#[trigger] t[k]).id == s.items[i].id;
            let confirmed_deletion = match s.items[i].state {
                ItemState::Active => false,
                ItemState::Tombstone { deleted_at } => deleted_at.lamport.0 == 0 || (s.min_version.contains_key(
                    deleted_at.actor.0,
                ) && deleted_at.lamport.0 <= s.min_version[deleted_at.actor.0]),
            };
            &&& !stays ==> confirmed_deletion
            &&& confirmed_deletion && stays ==> s.items.len() - t.len() == max
            &&& s.items.len() - t.len() <= max
            &&& confirmed_deletion && stays ==> forall|j: int|
                i <= j < s.items.len() ==> exists|k: int| 0 <= k < t.len() && (#[trigger] t[k]).id == (
                #[trigger] s.items[j]).id
        }),
{
    let n = s.items.len() as int;
    let gone = collected(s, max);
    let t = swept_document(s, max).items;
    lemma_survivors(s.items, s.min_version, max, n);
    lemma_swept(s.items, s.min_version, max, n, s.items[i].id);
    assert(s.items.take(n) =~= s.items);
    lemma_stays(s, max, i);
    lemma_gone(s.items, s.min_version, max, i);
    if stable(s.items[i], s.min_version) && !gone.contains(s.items[i].id) {
        lemma_swept(s.items, s.min_version, max, i, s.items[i].id);
        assert(swept(s.items, s.min_version, max, i).len() >= max);
        lemma_swept_stops(s.items, s.min_version, max, i, n);
        assert forall|j: int| i <= j < n implies exists|k: int|
            0 <= k < t.len() && (#[trigger] t[k]).id == (#[trigger] s.items[j]).id by {
            lemma_swept_stops(s.items, s.min_version, max, i, j);
            lemma_gone(s.items, s.min_version, max, j);
            lemma_stays(s, max, j);
        }
    }
}

/// An item is among the survivors where it is not collected.
proof fn lemma_stays(s: DocumentView, max: nat, i: int)
    requires
        document::consistent(s),
        0 <= i < s.items.len(),
    ensures
        ({
            let t = swept_document(s, max).items;
            (exists|k: int| 0 <= k < t.len() && (#[trigger] t[k]).id == s.items[i].id) <==> !collected(
                s,
                max,
            ).contains(s.items[i].id)
        }),
{
    let n = s.items.len() as int;
    let gone = collected(s, max);
    let t = swept_document(s, max).items;
    lemma_survivors(s.items, s.min_version, max, n);
    if exists|k: int| 0 <= k < t.len() && (#[trigger] t[k]).id == s.items[i].id {
        let k = choose|k: int| 0 <= k < t.len() && (#[trigger] t[k]).id == s.items[i].id;
        let j = choose|j: int|
            0 <= j < n && !gone.contains((#[trigger] s.items[j]).id) && t[k] == reparented(s.items, gone, s.items[j]);
        assert(s.items[j].id == s.items[i].id);
    }
    if !gone.contains(s.items[i].id) {
        assert(rga::has_id(t, s.items[i].id));
    }
}

/// Where the survivors of the first `n` items came from, in order.
proof fn lemma_sources(items: Seq<RgaItem>, gone: Seq<OpId>, n: int) -> (from: Seq<int>)
    requires
        0 <= n <= items.len(),
    ensures
        from.len() == survivors(items, gone, n).len(),
        forall|k: int| 0 <= k < from.len() ==> 0 <= #[trigger] from[k] < n,
        forall|k: int, l: int| 0 <= k < l < from.len() ==> #[trigger] from[k] < #[trigger] from[l],
        forall|k: int|
            0 <= k < from.len() ==> (#[trigger] survivors(items, gone, n)[k]) == reparented(items, gone, items[from[k]]),
        forall|k: int| 0 <= k < from.len() ==> !gone.contains(items[#[trigger] from[k]].id),
    decreases n,
{
    if n <= 0 {
        seq![]
    } else {
        let less = lemma_sources(items, gone, n - 1);
        if gone.contains(items[n - 1].id) {
            less
        } else {
            less.push(n - 1)
        }
    }
}

/// The `n`-th item up the chain of left origins; zero where the chain ends.
pub open spec fn ancestor(items: Seq<RgaItem>, origin: OpId, n: nat) -> OpId
    decreases n,
{
    if n == 0 {
        origin
    } else {
        let below = ancestor(items, origin, (n - 1) as nat);
        if exists|i: int| 0 <= i < items.len() && (#[trigger] items[i]).id == below {
            items[choose|i: int| 0 <= i < items.len() && (#[trigger] items[i]).id == below].origin_left
        } else {
            OpId::zero()
        }
    }
}

proof fn lemma_ancestor_of_origin(items: Seq<RgaItem>, origin: OpId, n: nat)
    requires
        rga::has_id(items, origin),
    ensures
        ancestor(items, origin, n + 1) == ancestor(items, items[rga::position(items, origin)].origin_left, n),
    decreases n,
{
    if n == 0 {
        reveal_with_fuel(ancestor, 2);
        assert(ancestor(items, origin, 0) == origin);
        assert(exists|i: int| 0 <= i < items.len() && (#[trigger] items[i]).id == origin);
    } else {
        lemma_ancestor_of_origin(items, origin, (n - 1) as nat);
    }
}

/// How far up the chain the nearest origin that stays is.
proof fn lemma_kept_is_nearest(items: Seq<RgaItem>, gone: Seq<OpId>, origin: OpId, hops: nat) -> (n: nat)
    ensures
        ({
            let kept = kept_ancestor(items, gone, origin, hops);
            &&& forall|m: nat| m < n ==> gone.contains(#[trigger] ancestor(items, origin, m))
            &&& n < hops && !gone.contains(ancestor(items, origin, n)) ==> kept == ancestor(items, origin, n)
            &&& n >= hops ==> kept == OpId::zero()
            &&& n < hops && gone.contains(ancestor(items, origin, n)) ==> kept == OpId::zero() && !rga::has_id(
                items,
                ancestor(items, origin, n),
            )
            &&& n <= hops
        }),
    decreases hops,
{
    if hops == 0 {
        0
    } else if !gone.contains(origin) {
        0
    } else if rga::has_id(items, origin) {
        let up = items[rga::position(items, origin)].origin_left;
        let n = lemma_kept_is_nearest(items, gone, up, (hops - 1) as nat);
        assert forall|m: nat| m < n + 1 implies gone.contains(#[trigger] ancestor(items, origin, m)) by {
            if m > 0 {
                lemma_ancestor_of_origin(items, origin, (m - 1) as nat);
                assert(gone.contains(ancestor(items, up, (m - 1) as nat)));
            }
        }
        lemma_ancestor_of_origin(items, origin, n);
        n + 1
    } else {
        0
    }
}

/// A cycle takes items away and leaves the others where they are: what is left
/// are items of before, in their order, each with its identifier, its stroke
/// and its state. An origin that stays is kept. One that goes gives way to the
/// nearest one up the chain of left origins that stays; or to the beginning,
/// where there is none within ten thousand.
pub proof fn law_survivors_keep_their_places(s: DocumentView, max: nat) -> (from: Seq<int>)
    requires
        document::consistent(s),
    ensures
        ({
            let t = swept_document(s, max).items;
            &&& from.len() == t.len()
            &&& forall|k: int| 0 <= k < from.len() ==> 0 <= #[trigger] from[k] < s.items.len()
            &&& forall|k: int, l: int| 0 <= k < l < from.len() ==> #[trigger] from[k] < #[trigger] from[l]
            &&& forall|k: int|
                0 <= k < t.len() ==> {
                    let was = s.items[from[k]];
                    let now = #[trigger] t[k];
                    &&& now.id == was.id
                    &&& now.content == was.content
                    &&& now.state == was.state
                    &&& now.origin_left == nearest_kept(s.items, t, was.origin_left)
                    &&& was.origin_right == OpId::zero() ==> now.origin_right == OpId::zero()
                    &&& was.origin_right != OpId::zero() ==> now.origin_right == nearest_kept(
                        s.items,
                        t,
                        was.origin_right,
                    )
                }
        }),
{
    let n = s.items.len() as int;
    let gone = collected(s, max);
    let t = swept_document(s, max).items;
    let from = lemma_sources(s.items, gone, n);
    assert forall|k: int| 0 <= k < t.len() implies {
        let was = s.items[from[k]];
        let now = #[trigger] t[k];
        &&& now.origin_left == nearest_kept(s.items, t, was.origin_left)
        &&& was.origin_right != OpId::zero() ==> now.origin_right == nearest_kept(s.items, t, was.origin_right)
    } by {
        lemma_nearest_kept(s, max, s.items[from[k]].origin_left);
        lemma_nearest_kept(s, max, s.items[from[k]].origin_right);
    }
    from
}

/// Whether an identifier is of an item of before and of none of now.
pub open spec fn lost(before: Seq<RgaItem>, now: Seq<RgaItem>, id: OpId) -> bool {
    &&& exists|i: int| 0 <= i < before.len() && (#[trigger] before[i]).id == id
    &&& !exists|k: int| 0 <= k < now.len() && (#[trigger] now[k]).id == id
}

/// The first identifier up the chain of left origins whose item is not lost,
/// among the first ten thousand; zero where there is none.
pub open spec fn nearest_kept(before: Seq<RgaItem>, now: Seq<RgaItem>, origin: OpId) -> OpId {
    if exists|n: nat| #[trigger] is_nearest(before, now, origin, n) {
        ancestor(before, origin, choose|n: nat| #[trigger] is_nearest(before, now, origin, n))
    } else {
        OpId::zero()
    }
}

/// Whether the item `n` steps up the chain of left origins, and no nearer one,
/// is not lost.
pub open spec fn is_nearest(before: Seq<RgaItem>, now: Seq<RgaItem>, origin: OpId, n: nat) -> bool {
    &&& n < 10_000
    &&& !lost(before, now, ancestor(before, origin, n))
    &&& forall|m: nat| m < n ==> lost(before, now, #[trigger] ancestor(before, origin, m))
}

proof fn lemma_lost(s: DocumentView, max: nat, id: OpId)
    requires
        document::consistent(s),
    ensures
        lost(s.items, swept_document(s, max).items, id) <==> collected(s, max).contains(id),
{
    let n = s.items.len() as int;
    lemma_swept(s.items, s.min_version, max, n, id);
    if rga::has_id(s.items, id) {
        let i = rga::position(s.items, id);
        assert(s.items[i].id == id);
        lemma_stays(s, max, i);
    }
}

proof fn lemma_nearest_kept(s: DocumentView, max: nat, origin: OpId)
    requires
        document::consistent(s),
    ensures
        (if collected(s, max).contains(origin) {
            kept_ancestor(s.items, collected(s, max), origin, MAX_CHAIN as nat)
        } else {
            origin
        }) == nearest_kept(s.items, swept_document(s, max).items, origin),
{
    let gone = collected(s, max);
    let t = swept_document(s, max).items;
    let n = lemma_kept_is_nearest(s.items, gone, origin, MAX_CHAIN as nat);
    assert forall|m: nat| lost(s.items, t, #[trigger] ancestor(s.items, origin, m)) == gone.contains(
        ancestor(s.items, origin, m),
    ) by {
        lemma_lost(s, max, ancestor(s.items, origin, m));
    }
    assert(ancestor(s.items, origin, 0) == origin);
    lemma_lost(s, max, ancestor(s.items, origin, n));
    if n < MAX_CHAIN && !gone.contains(ancestor(s.items, origin, n)) {
        assert(is_nearest(s.items, t, origin, n));
        let m = choose|m: nat| #[trigger] is_nearest(s.items, t, origin, m);
        if m < n {
            assert(lost(s.items, t, ancestor(s.items, origin, m)));
        } else if n < m {
            assert(lost(s.items, t, ancestor(s.items, origin, n)));
        }
        if !gone.contains(origin) && n > 0 {
            assert(gone.contains(ancestor(s.items, origin, 0)));
        }
    } else {
        if exists|m: nat| #[trigger] is_nearest(s.items, t, origin, m) {
            let m = choose|m: nat| #[trigger] is_nearest(s.items, t, origin, m);
            if m < n {
                assert(lost(s.items, t, ancestor(s.items, origin, m)));
            } else if n < m {
                assert(lost(s.items, t, ancestor(s.items, origin, n)));
            }
        }
    }
}

/// What is not collected keeps its stroke, what is collected loses it, and a
/// cycle touches nothing else of the document but the count of its cycles.
pub proof fn law_a_cycle_only_collects(s: DocumentView, max: nat)
    requires
        document::consistent(s),
    ensures
        ({
            let t = swept_document(s, max);
            &&& forall|id: OpId| #[trigger]
                t.strokes.contains_key(id) <==> exists|k: int| 0 <= k < t.items.len() && (#[trigger] t.items[k]).id == id
            &&& forall|id: OpId| #[trigger]
                t.strokes.contains_key(id) ==> s.strokes.contains_key(id) && t.strokes[id] == s.strokes[id]
            &&& t.actor == s.actor && t.clock == s.clock && t.version == s.version && t.metadata == s.metadata
            &&& t.pending == s.pending && t.undo == s.undo && t.simplify_epsilon == s.simplify_epsilon
            &&& t.min_version == s.min_version
            &&& s.gc_generation < u64::MAX ==> t.gc_generation == s.gc_generation + 1
        }),
{
    lemma_swept_consistent(s, max);
    let t = swept_document(s, max);
    assert forall|id: OpId| #[trigger] t.strokes.contains_key(id) <==> exists|k: int|
        0 <= k < t.items.len() && (#[trigger] t.items[k]).id == id by {
        assert(rga::has_id(t.items, id) <==> t.strokes.contains_key(id));
    }
}

/// A cycle reports that it has collected something exactly where items are gone.
pub proof fn lemma_removed(s: DocumentView, max: nat)
    requires
        document::consistent(s),
        s.items.len() <= usize::MAX,
    ensures
        swept_document(s, max).items.len() <= s.items.len(),
        report(s, max).tombstones_removed == s.items.len() - swept_document(s, max).items.len(),
{
    let n = s.items.len() as int;
    lemma_survivors(s.items, s.min_version, max, n);
    lemma_swept(s.items, s.min_version, max, n, OpId::zero());
}

/// A cycle that takes no item away changes no item and no stroke.
pub proof fn lemma_nothing_collected(s: DocumentView, max: nat)
    requires
        document::consistent(s),
        swept_document(s, max).items.len() == s.items.len(),
    ensures
        swept_document(s, max).items == s.items,
        swept_document(s, max).strokes == s.strokes,
{
    let n = s.items.len() as int;
    let gone = collected(s, max);
    lemma_survivors(s.items, s.min_version, max, n);
    assert(gone.len() == 0);
    lemma_all_survive(s.items, gone, n);
    assert(s.items.take(n) =~= s.items);
    assert(s.strokes.remove_keys(gone.to_set()) =~= s.strokes);
}

proof fn lemma_all_survive(items: Seq<RgaItem>, gone: Seq<OpId>, n: int)
    requires
        gone.len() == 0,
        0 <= n <= items.len(),
    ensures
        survivors(items, gone, n) == items.take(n),
    decreases n,
{
    if n > 0 {
        lemma_all_survive(items, gone, n - 1);
        assert(!gone.contains(items[n - 1].id));
        assert(!gone.contains(items[n - 1].origin_left));
        assert(!gone.contains(items[n - 1].origin_right));
        assert(items.take(n) =~= items.take(n - 1).push(items[n - 1]));
    } else {
        assert(items.take(0) =~= seq![]);
    }
}

/// A cycle reports how many items it took away, its number, and whether a
/// deleted item is left whose deletion all have seen.
pub proof fn law_cycle_is_reported(s: DocumentView, max: nat)
    requires
        document::consistent(s),
        s.items.len() <= usize::MAX,
        s.gc_generation < u64::MAX,
    ensures
        ({
            let t = swept_document(s, max);
            let r = report(s, max);
            &&& r.tombstones_removed == s.items.len() - t.items.len()
            &&& r.generation == s.gc_generation + 1
            &&& r.partial <==> exists|k: int|
                0 <= k < t.items.len() && match (#[trigger] t.items[k]).state {
                    ItemState::Active => false,
                    ItemState::Tombstone { deleted_at } => deleted_at.lamport.0 == 0 || (s.min_version.contains_key(
                        deleted_at.actor.0,
                    ) && deleted_at.lamport.0 <= s.min_version[deleted_at.actor.0]),
                }
        }),
{
    let n = s.items.len() as int;
    let gone = collected(s, max);
    let t = swept_document(s, max);
    lemma_survivors(s.items, s.min_version, max, n);
    lemma_swept(s.items, s.min_version, max, n, OpId::zero());
    assert(s.items.take(n) =~= s.items);
    let from = lemma_sources(s.items, gone, n);
    if exists|k: int| 0 <= k < t.items.len() && stable(#[trigger] t.items[k], s.min_version) {
        let k = choose|k: int| 0 <= k < t.items.len() && stable(#[trigger] t.items[k], s.min_version);
        assert(stable(s.items[from[k]], s.min_version));
        assert(!gone.contains(s.items[from[k]].id));
    }
    if cut_short(s, max) {
        let i = choose|i: int|
            0 <= i < s.items.len() && stable(#[trigger] s.items[i], s.min_version) && !gone.contains(s.items[i].id);
        lemma_stays(s, max, i);
        let k = choose|k: int| 0 <= k < t.items.len() && (#[trigger] t.items[k]).id == s.items[i].id;
        assert(s.items[from[k]].id == s.items[i].id);
        assert(stable(t.items[k], s.min_version));
    }
}

proof fn lemma_one_more(items: Seq<RgaItem>, mvv: Map<u64, u64>, max: nat, n: int)
    requires
        0 <= n <= items.len(),
    ensures
        ({
            let more = swept(items, mvv, max + 1, n);
            swept(items, mvv, max, n) == if more.len() <= max {
                more
            } else {
                more.drop_last()
            }
        }),
    decreases n,
{
    if n > 0 {
        lemma_one_more(items, mvv, max, n - 1);
        lemma_swept(items, mvv, max + 1, n - 1, OpId::zero());
        lemma_swept(items, mvv, max + 1, n, OpId::zero());
        let less = swept(items, mvv, max + 1, n - 1);
        let more = swept(items, mvv, max + 1, n);
        if more.len() > max && less.len() <= max {
            assert(more.drop_last() =~= less);
        }
    }
}

/// What is estimated to be freed: nothing where nothing may be collected, and
/// with each further stroke 168 bytes for its place, 128 for its properties and
/// 12 for each of its points.
pub proof fn law_freed_bytes_add_up(s: DocumentView, max: nat) -> (id: OpId)
    requires
        document::consistent(s),
        report(s, max + 1).bytes_freed_estimate < usize::MAX,
    ensures
        report(s, 0).bytes_freed_estimate == 0,
        ({
            let less = swept_document(s, max);
            let more = swept_document(s, max + 1);
            &&& more == less ==> report(s, max + 1).bytes_freed_estimate == report(s, max).bytes_freed_estimate
            &&& more != less ==> less.strokes.contains_key(id) && !more.strokes.contains_key(id) && report(
                s,
                max + 1,
            ).bytes_freed_estimate == report(s, max).bytes_freed_estimate + 168 + 128 + 12
                * s.strokes[id].data.points.len()
        }),
{
    let n = s.items.len() as int;
    let less = collected(s, max);
    let more = collected(s, max + 1);
    lemma_one_more(s.items, s.min_version, max, n);
    lemma_swept(s.items, s.min_version, 0, n, OpId::zero());
    assert(collected(s, 0) =~= seq![]);
    lemma_swept(s.items, s.min_version, max + 1, n, OpId::zero());
    lemma_weight_positive(s.strokes, less);
    lemma_weight_positive(s.strokes, more);
    if more.len() <= max {
        OpId::zero()
    } else {
        let id = more.last();
        assert(more.contains(id));
        lemma_swept(s.items, s.min_version, max + 1, n, id);
        let i = choose|i: int|
            0 <= i < n && (#[trigger] s.items[i]).id == id && goes(s.items, s.min_version, max + 1, i);
        assert(rga::has_id(s.items, id));
        assert(s.strokes.contains_key(id));
        lemma_swept_distinct(s.items, s.min_version, max + 1, n);
        assert(!less.contains(id)) by {
            if less.contains(id) {
                let k = choose|k: int| 0 <= k < less.len() && less[k] == id;
                assert(more[k] == more[more.len() - 1]);
            }
        }
        assert(!swept_document(s, max + 1).strokes.contains_key(id));
        assert(swept_document(s, max).strokes.contains_key(id));
        id
    }
}

proof fn lemma_weight_positive(strokes: Map<OpId, StrokeView>, ids: Seq<OpId>)
    ensures
        total_weight(strokes, ids) >= 0,
    decreases ids.len(),
{
    if ids.len() > 0 {
        lemma_weight_positive(strokes, ids.drop_last());
    }
}

proof fn lemma_swept_distinct(items: Seq<RgaItem>, mvv: Map<u64, u64>, max: nat, n: int)
    requires
        rga::distinct_ids(items),
        0 <= n <= items.len(),
    ensures
        forall|j: int, k: int|
            0 <= j < k < swept(items, mvv, max, n).len() ==> (#[trigger] swept(items, mvv, max, n)[j]) != (
            #[trigger] swept(items, mvv, max, n)[k]),
    decreases n,
{
    if n > 0 {
        lemma_swept_distinct(items, mvv, max, n - 1);
        let less = swept(items, mvv, max, n - 1);
        assert forall|j: int, k: int| 0 <= j < k < swept(items, mvv, max, n).len() implies (#[trigger] swept(
            items,
            mvv,
            max,
            n,
        )[j]) != (#[trigger] swept(items, mvv, max, n)[k]) by {
            if k == less.len() {
                assert(less.contains(less[j]));
                lemma_swept(items, mvv, max, n - 1, less[j]);
                let i = choose|i: int|
                    0 <= i < n - 1 && (#[trigger] items[i]).id == less[j] && goes(items, mvv, max, i);
                assert(items[i].id != items[n - 1].id);
            }
        }
    }
}

/// The tombstones that are counted are the items that have been deleted.
proof fn lemma_tombstones_counted(items: Seq<RgaItem>)
    ensures
        rga::tombstones(items) == items.filter(|item: RgaItem| item.state is Tombstone).len(),
    decreases items.len(),
{
    reveal(Seq::filter);
    if items.len() > 0 {
        lemma_tombstones_counted(items.drop_last());
    }
}

/// What a confirmation does: the document takes it over, and runs a cycle with
/// it where there are as many deleted items as the given number, or their share
/// of all items is above the given share. Otherwise nothing is collected.
pub proof fn law_confirmation_collects_when_due(
    s: DocumentView,
    mvv: Map<u64, u64>,
    config: GcConfig,
    q: spec_fn(usize, usize) -> F64,
)
    ensures
        ({
            let (t, result) = confirmed(s, mvv, config, q);
            let told = DocumentView { min_version: mvv, ..s };
            let deleted = s.items.filter(|item: RgaItem| item.state is Tombstone).len();
            let share = if s.items.len() == 0 {
                F64 { bits: 0 }
            } else {
                q(deleted as usize, s.items.len() as usize)
            };
            if deleted >= config.tombstone_count_threshold || config.tombstone_ratio_threshold.below(share) {
                &&& t == swept_document(told, config.max_gc_per_cycle as nat)
                &&& result == Some(report(told, config.max_gc_per_cycle as nat))
            } else {
                t == told && result is None
            }
        }),
{
    lemma_tombstones_counted(s.items);
}

/// Collection is due where more than three tenths of the items are deleted, or
/// ten thousand of them, and a cycle takes five thousand at most.
pub proof fn law_standard_limits()
    ensures
        standard().tombstone_ratio_threshold.bits == 0x3fd3_3333_3333_3333,
        standard().tombstone_count_threshold == 10_000,
        standard().max_gc_per_cycle == 5_000,
{
}

} // verus!
