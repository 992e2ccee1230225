//! The replicated growable array that holds the z-order of the strokes.

use crate::types::OpId;
use std::collections::HashMap;
use vstd::prelude::*;

verus! {

/// The identifier of a stroke: that of the operation that inserted it.
pub type StrokeId = OpId;

/// State of an item.
#[derive(Debug, Clone, Copy, PartialEq, Eq, Structural)]
pub enum ItemState {
    /// Visible and active.
    Active,
    /// Deleted but retained for convergence; `deleted_at` is the operation
    /// that deleted it, by which garbage collection knows when it is stable.
    Tombstone { deleted_at: OpId },
}

/// One slot of the array: the place of a stroke in the z-order.
#[derive(Debug, Clone, Copy, PartialEq, Eq, Structural)]
pub struct RgaItem {
    /// The operation that inserted the item.
    pub id: OpId,
    /// The item to the left at insert time; zero at the beginning.
    pub origin_left: OpId,
    /// The item to the right at insert time; zero where there is no right bound.
    pub origin_right: OpId,
    /// The stroke at this place.
    pub content: StrokeId,
    pub state: ItemState,
}

impl RgaItem {
    /// Whether the item has not been deleted.
    pub open spec fn visible(self) -> bool {
        self.state is Active
    }

    pub fn is_visible(&self) -> (yes: bool)
        ensures
            yes == self.visible(),
    {
        matches!(self.state, ItemState::Active)
    }

    pub fn is_tombstone(&self) -> (yes: bool)
        ensures
            yes == !self.visible(),
    {
        matches!(self.state, ItemState::Tombstone { .. })
    }
}

/// Whether some item has the identifier `id`.
pub open spec fn has_id(items: Seq<RgaItem>, id: OpId) -> bool {
    exists|i: int| 0 <= i < items.len() && (#[trigger] items[i]).id == id
}

/// The position of the item `id`; -1 where there is none.
pub open spec fn position(items: Seq<RgaItem>, id: OpId) -> int {
    if has_id(items, id) {
        choose|i: int| 0 <= i < items.len() && (#[trigger] items[i]).id == id
    } else {
        -1
    }
}

/// No two items share an identifier.
pub open spec fn distinct_ids(items: Seq<RgaItem>) -> bool {
    forall|i: int, j: int|
        0 <= i < items.len() && 0 <= j < items.len() && (#[trigger] items[i]).id == (#[trigger] items[j]).id
            ==> i == j
}

/// The position of an origin: -1 stands for the beginning of the array, and
/// for an origin that is not there.
pub open spec fn origin_position(items: Seq<RgaItem>, origin: OpId) -> int {
    if origin == OpId::zero() {
        -1
    } else {
        position(items, origin)
    }
}

/// Where the scan for the place of `item` begins: right of its left origin,
/// or at the end where that origin is missing.
pub open spec fn scan_start(items: Seq<RgaItem>, item: RgaItem) -> int {
    if item.origin_left == OpId::zero() {
        0
    } else if has_id(items, item.origin_left) {
        position(items, item.origin_left) + 1
    } else {
        items.len() as int
    }
}

/// Where the scan for the place of `item` ends: at its right origin, or at
/// the end of the array.
pub open spec fn scan_end(items: Seq<RgaItem>, item: RgaItem) -> int {
    if item.origin_right != OpId::zero() && has_id(items, item.origin_right) {
        position(items, item.origin_right)
    } else {
        items.len() as int
    }
}

/// Whether `item` belongs to the right of the existing item at `i`: that one
/// hangs below an item right of our origin, or it is a sibling with a higher
/// identifier.
pub open spec fn passes(items: Seq<RgaItem>, item: RgaItem, i: int) -> bool {
    let theirs = origin_position(items, items[i].origin_left);
    let ours = origin_position(items, item.origin_left);
    theirs > ours || (theirs == ours && items[i].id.rank() > item.id.rank())
}

/// The first place from `i` on whose item is not passed, bounded by `end`.
pub open spec fn scan(items: Seq<RgaItem>, item: RgaItem, i: int, end: int) -> int
    decreases end - i,
{
    if i < end && passes(items, item, i) {
        scan(items, item, i + 1, end)
    } else {
        i
    }
}

/// The place at which `item` joins the array.
pub open spec fn insert_position(items: Seq<RgaItem>, item: RgaItem) -> int {
    scan(items, item, scan_start(items, item), scan_end(items, item))
}

/// The array after `item` has been integrated; an item that is there already
/// changes nothing.
pub open spec fn integrated(items: Seq<RgaItem>, item: RgaItem) -> Seq<RgaItem> {
    if has_id(items, item.id) {
        items
    } else {
        items.insert(insert_position(items, item), item)
    }
}

/// A state after a deletion. Of several deletions the least is remembered, so
/// that it does not matter in which order they come.
pub open spec fn buried(state: ItemState, deleted_at: OpId) -> ItemState {
    match state {
        ItemState::Tombstone { deleted_at: known } if known.rank() <= deleted_at.rank() => state,
        _ => ItemState::Tombstone { deleted_at },
    }
}

/// The array after the item `target` has been deleted by `deleted_at`. An item
/// that is missing is left as it is.
pub open spec fn tombstoned(items: Seq<RgaItem>, target: OpId, deleted_at: OpId) -> Seq<RgaItem> {
    let at = position(items, target);
    if has_id(items, target) {
        items.update(at, RgaItem { state: buried(items[at].state, deleted_at), ..items[at] })
    } else {
        items
    }
}

/// The items that have not been deleted, in order.
pub open spec fn visible(items: Seq<RgaItem>) -> Seq<RgaItem> {
    items.filter(|item: RgaItem| item.visible())
}

/// The number of deleted items.
pub open spec fn tombstones(items: Seq<RgaItem>) -> nat
    decreases items.len(),
{
    if items.len() == 0 {
        0
    } else {
        tombstones(items.drop_last()) + if items.last().visible() {
            0nat
        } else {
            1nat
        }
    }
}

proof fn lemma_scan_bounds(items: Seq<RgaItem>, item: RgaItem, i: int, end: int)
    ensures
        i <= scan(items, item, i, end),
        i <= end ==> scan(items, item, i, end) <= end,
        i > end ==> scan(items, item, i, end) == i,
    decreases end - i,
{
    if i < end && passes(items, item, i) {
        lemma_scan_bounds(items, item, i + 1, end);
    }
}

/// An item always finds a place within the array.
pub proof fn lemma_insert_position(items: Seq<RgaItem>, item: RgaItem)
    ensures
        0 <= scan_start(items, item) <= insert_position(items, item) <= items.len(),
{
    lemma_scan_bounds(items, item, scan_start(items, item), scan_end(items, item));
}

/// In an array of distinct identifiers, [`position`] is the index.
pub proof fn lemma_position(items: Seq<RgaItem>, i: int)
    requires
        distinct_ids(items),
        0 <= i < items.len(),
    ensures
        has_id(items, items[i].id),
        position(items, items[i].id) == i,
{
}

/// There are at most as many tombstones as items.
pub proof fn lemma_tombstones_bound(items: Seq<RgaItem>)
    ensures
        tombstones(items) <= items.len(),
    decreases items.len(),
{
    if items.len() > 0 {
        lemma_tombstones_bound(items.drop_last());
    }
}

pub proof fn lemma_tombstones_insert(items: Seq<RgaItem>, at: int, item: RgaItem)
    requires
        0 <= at <= items.len(),
    ensures
        tombstones(items.insert(at, item)) == tombstones(items) + if item.visible() {
            0nat
        } else {
            1nat
        },
    decreases items.len(),
{
    let more = items.insert(at, item);
    if at == items.len() {
        assert(more.drop_last() =~= items);
    } else {
        lemma_tombstones_insert(items.drop_last(), at, item);
        assert(more.drop_last() =~= items.drop_last().insert(at, item));
        assert(more.last() == items.last());
    }
}

pub proof fn lemma_tombstones_update(items: Seq<RgaItem>, at: int, item: RgaItem)
    requires
        0 <= at < items.len(),
    ensures
        tombstones(items.update(at, item)) + (if items[at].visible() {
            0nat
        } else {
            1nat
        }) == tombstones(items) + if item.visible() {
            0nat
        } else {
            1nat
        },
    decreases items.len(),
{
    let other = items.update(at, item);
    if at == items.len() - 1 {
        assert(other.drop_last() =~= items.drop_last());
    } else {
        lemma_tombstones_update(items.drop_last(), at, item);
        assert(other.drop_last() =~= items.drop_last().update(at, item));
        assert(other.last() == items.last());
    }
}

/// Items are visible or tombstones.
pub proof fn lemma_tombstones_visible(items: Seq<RgaItem>)
    ensures
        visible(items).len() + tombstones(items) == items.len(),
    decreases items.len(),
{
    reveal(Seq::filter);
    if items.len() > 0 {
        lemma_tombstones_visible(items.drop_last());
    }
}

/// The visible items of a list are those of its parts.
pub proof fn lemma_visible_add(a: Seq<RgaItem>, b: Seq<RgaItem>)
    ensures
        visible(a + b) == visible(a) + visible(b),
    decreases b.len(),
{
    reveal(Seq::filter);
    if b.len() == 0 {
        assert(a + b =~= a);
        assert(visible(a) + visible(b) =~= visible(a));
    } else {
        lemma_visible_add(a, b.drop_last());
        assert((a + b).drop_last() =~= a + b.drop_last());
        assert((a + b).last() == b.last());
        assert(visible(a + b) =~= visible(a) + visible(b));
    }
}

/// Every visible item stems from the list.
pub proof fn lemma_visible_in(items: Seq<RgaItem>, k: int)
    requires
        0 <= k < visible(items).len(),
    ensures
        visible(items)[k].visible(),
        exists|i: int| 0 <= i < items.len() && items[i] == visible(items)[k],
    decreases items.len(),
{
    reveal(Seq::filter);
    if items.len() > 0 {
        let less = items.drop_last();
        if k < visible(less).len() {
            lemma_visible_in(less, k);
            let i = choose|i: int| 0 <= i < less.len() && less[i] == visible(less)[k];
            assert(items[i] == visible(items)[k]);
        } else {
            assert(items[items.len() - 1] == visible(items)[k]);
        }
    }
}

/// A new visible item whose left origin is the topmost visible one lands on
/// top of all visible items.
pub proof fn lemma_top(items: Seq<RgaItem>, at: int, item: RgaItem)
    requires
        distinct_ids(items),
        item.visible(),
        0 <= scan_start(items, item) <= at <= items.len(),
        visible(items).len() > 0 ==> item.origin_left == visible(items).last().id && item.origin_left != OpId::zero(),
    ensures
        visible(items.insert(at, item)) == visible(items).push(item),
{
    let l = items.take(at);
    let r = items.skip(at);
    assert(items =~= l + r);
    assert(items.insert(at, item) =~= l + seq![item] + r);
    lemma_visible_add(l, r);
    lemma_visible_add(l + seq![item], r);
    lemma_visible_add(l, seq![item]);
    assert(visible(seq![item]) =~= seq![item]) by {
        reveal_with_fuel(Seq::filter, 2);
    }
    assert(visible(r).len() == 0) by {
        if visible(r).len() > 0 {
            let k = visible(r).len() - 1;
            lemma_visible_in(r, k);
            let i = choose|i: int| 0 <= i < r.len() && r[i] == visible(r)[k];
            assert(visible(items).last() == visible(r)[k]);
            assert(items[at + i].id == item.origin_left);
            lemma_position(items, at + i);
        }
    }
    assert(visible(items) =~= visible(l));
    assert(visible(l + seq![item] + r) =~= visible(l) + seq![item]);
    assert(visible(l) + seq![item] =~= visible(items).push(item));
}

/// The ordered list of items, tombstones included.
///
/// Integration is linear in the number of items passed over and shifted;
/// look-up by identifier goes through the index.
#[derive(Debug)]
pub struct RgaArray {
    /// Items in document order.
    pub items: Vec<RgaItem>,
    /// The position of each item, keyed by [`OpId::key`].
    pub index: HashMap<u128, usize>,
    /// The number of tombstones.
    pub tombstone_count: usize,
    /// The number of items, tombstones included.
    pub total_count: usize,
}

impl View for RgaArray {
    type V = Seq<RgaItem>;

    open spec fn view(&self) -> Seq<RgaItem> {
        self.items@
    }
}

/// Whether the index holds exactly the positions of the items.
pub open spec fn indexes(index: Map<u128, usize>, items: Seq<RgaItem>) -> bool {
    &&& forall|i: int|
        0 <= i < items.len() ==> index.contains_key((#[trigger] items[i]).id.rank() as u128)
            && index[items[i].id.rank() as u128] == i
    &&& forall|k: u128| #[trigger]
        index.contains_key(k) ==> index[k] < items.len() && items[index[k] as int].id.rank() == k
}

impl RgaArray {
    /// The index and the counts agree with the items, and identifiers are unique.
    pub open spec fn wf(&self) -> bool {
        &&& distinct_ids(self@)
        &&& indexes(self.index@, self@)
        &&& self.total_count == self@.len()
        &&& self.tombstone_count == tombstones(self@)
    }

    pub fn new() -> (array: Self)
        ensures
            array.wf(),
            array@ == Seq::<RgaItem>::empty(),
    {
        RgaArray { items: Vec::new(), index: HashMap::new(), tombstone_count: 0, total_count: 0 }
    }

    /// The position of the item `id`, if it is there.
    pub fn position_of(&self, id: OpId) -> (at: Option<usize>)
        requires
            self.wf(),
        ensures
            match at {
                Some(i) => has_id(self@, id) && i == position(self@, id) && i < self@.len() && self@[i as int].id
                    == id,
                None => !has_id(self@, id),
            },
    {
        let found = self.index.get(&id.key());
        proof {
            assert forall|i: int| 0 <= i < self@.len() && (#[trigger] self@[i]).id == id implies found is Some by {
                assert(self.index@.contains_key(self@[i].id.rank() as u128));
            }
        }
        match found {
            Some(at) => {
                proof {
                    assert(self.index@.contains_key(id.rank() as u128));
                    crate::types::lemma_rank_injective(self@[*at as int].id, id);
                    lemma_position(self@, *at as int);
                }
                Some(*at)
            },
            None => None,
        }
    }

    /// Whether an item with this identifier is in the array.
    pub fn contains(&self, id: OpId) -> (yes: bool)
        requires
            self.wf(),
        ensures
            yes == has_id(self@, id),
    {
        self.position_of(id).is_some()
    }

    /// The position of an origin, shifted by one: 0 stands for the beginning.
    fn origin_slot(&self, origin: OpId) -> (slot: usize)
        requires
            self.wf(),
        ensures
            slot == origin_position(self@, origin) + 1,
            slot <= self@.len(),
    {
        if origin.is_zero() {
            0
        } else {
            match self.position_of(origin) {
                Some(at) => at + 1,
                None => 0,
            }
        }
    }

    /// Integrates a new, possibly remote, item at its place.
    ///
    /// The place lies between the origins of the item. Items that hang below
    /// something right of the left origin are passed; among siblings the
    /// higher identifier goes first. An item that is there already is ignored.
    pub fn integrate(&mut self, item: RgaItem)
        requires
            old(self).wf(),
            old(self)@.len() < usize::MAX,
        ensures
            final(self).wf(),
            final(self)@ == integrated(old(self)@, item),
    {
        if self.contains(item.id) {
            return ;
        }
        let start: usize = if item.origin_left.is_zero() {
            0
        } else {
            match self.position_of(item.origin_left) {
                Some(at) => at + 1,
                None => self.items.len(),
            }
        };
        let end: usize = if item.origin_right.is_zero() {
            self.items.len()
        } else {
            match self.position_of(item.origin_right) {
                Some(at) => at,
                None => self.items.len(),
            }
        };
        let ours: usize = self.origin_slot(item.origin_left);
        let mut place: usize = start;
        while place < end
            invariant_except_break
                scan(self@, item, place as int, end as int) == insert_position(self@, item),
            invariant
                self.wf(),
                start <= place,
                end <= self@.len(),
                self@ == old(self)@,
                ours == origin_position(self@, item.origin_left) + 1,
            ensures
                place == insert_position(self@, item),
            decreases end - place,
        {
            let existing = self.items[place];
            let theirs: usize = self.origin_slot(existing.origin_left);
            if theirs < ours {
                break;
            }
            if theirs == ours && !(existing.id > item.id) {
                break;
            }
            place += 1;
        }
        proof {
            lemma_insert_position(self@, item);
            lemma_tombstones_insert(self@, place as int, item);
            lemma_tombstones_bound(self@);
        }
        let deleted = item.is_tombstone();
        self.items.insert(place, item);
        proof {
            assert(self@.remove(place as int) =~= old(self)@);
        }
        self.rebuild_index_from(place, Ghost(old(self)@));
        self.total_count = self.total_count + 1;
        if deleted {
            self.tombstone_count = self.tombstone_count + 1;
        }
    }

    /// Puts a new item behind all others, whatever its origins.
    pub(crate) fn append(&mut self, item: RgaItem)
        requires
            old(self).wf(),
            old(self)@.len() < usize::MAX,
            !has_id(old(self)@, item.id),
        ensures
            final(self).wf(),
            final(self)@ == old(self)@.push(item),
    {
        let place: usize = self.items.len();
        proof {
            lemma_tombstones_insert(self@, place as int, item);
            lemma_tombstones_bound(self@);
            assert(self@.insert(place as int, item) =~= self@.push(item));
        }
        let deleted = item.is_tombstone();
        self.items.push(item);
        proof {
            assert(self@.remove(place as int) =~= old(self)@);
        }
        self.rebuild_index_from(place, Ghost(old(self)@));
        self.total_count = self.total_count + 1;
        if deleted {
            self.tombstone_count = self.tombstone_count + 1;
        }
    }

    /// Enters the positions of all items from `from` on into the index.
    fn rebuild_index_from(&mut self, from: usize, Ghost(before): Ghost<Seq<RgaItem>>)
        requires
            distinct_ids(old(self)@),
            from < old(self)@.len(),
            distinct_ids(before),
            indexes(old(self).index@, before),
            before == old(self)@.remove(from as int),
        ensures
            indexes(final(self).index@, final(self)@),
            final(self)@ == old(self)@,
            final(self).total_count == old(self).total_count,
            final(self).tombstone_count == old(self).tombstone_count,
    {
        proof {
            assert forall|j: int| 0 <= j < from implies self.index@.contains_key((#[trigger] self@[j]).id.rank() as u128)
                && self.index@[self@[j].id.rank() as u128] == j by {
                assert(before[j] == self@[j]);
            }
        }
        let mut i: usize = from;
        while i < self.items.len()
            invariant
                from <= i <= self@.len(),
                self.items == old(self).items,
                self.total_count == old(self).total_count,
                self.tombstone_count == old(self).tombstone_count,
                distinct_ids(self@),
                indexes(old(self).index@, before),
                before == self@.remove(from as int),
                forall|j: int|
                    0 <= j < i ==> self.index@.contains_key((#[trigger] self@[j]).id.rank() as u128)
                        && self.index@[self@[j].id.rank() as u128] == j,
                forall|k: u128| #[trigger]
                    self.index@.contains_key(k) ==> old(self).index@.contains_key(k) || exists|j: int|
                        from <= j < i && (#[trigger] self@[j]).id.rank() == k,
            decreases self@.len() - i,
        {
            proof {
                assert forall|j: int| 0 <= j < i implies (#[trigger] self@[j]).id.rank() != self@[i as int].id.rank() by {
                    crate::types::lemma_rank_injective(self@[j].id, self@[i as int].id);
                }
            }
            let key: u128 = self.items[i].id.key();
            self.index.insert(key, i);
            i += 1;
        }
        proof {
            assert forall|k: u128| #[trigger] self.index@.contains_key(k) implies self.index@[k] < self@.len()
                && self@[self.index@[k] as int].id.rank() == k by {
                if old(self).index@.contains_key(k) {
                    let at = old(self).index@[k] as int;
                    let now = if at < from { at } else { at + 1 };
                    assert(before[at] == self@[now]);
                    assert(self.index@[self@[now].id.rank() as u128] == now);
                }
            }
        }
    }

    /// Rebuilds the whole index from the items.
    pub fn rebuild_index(&mut self)
        requires
            distinct_ids(old(self)@),
        ensures
            indexes(final(self).index@, final(self)@),
            final(self)@ == old(self)@,
            final(self).total_count == old(self).total_count,
            final(self).tombstone_count == old(self).tombstone_count,
    {
        self.index.clear();
        let mut i: usize = 0;
        while i < self.items.len()
            invariant
                i <= self@.len(),
                self.items == old(self).items,
                self.total_count == old(self).total_count,
                self.tombstone_count == old(self).tombstone_count,
                distinct_ids(self@),
                forall|j: int|
                    0 <= j < i ==> self.index@.contains_key((#[trigger] self@[j]).id.rank() as u128)
                        && self.index@[self@[j].id.rank() as u128] == j,
                forall|k: u128| #[trigger]
                    self.index@.contains_key(k) ==> self.index@[k] < i && self@[self.index@[k] as int].id.rank() == k,
            decreases self@.len() - i,
        {
            proof {
                assert forall|j: int| 0 <= j < i implies (#[trigger] self@[j]).id.rank() != self@[i as int].id.rank() by {
                    crate::types::lemma_rank_injective(self@[j].id, self@[i as int].id);
                }
            }
            let key: u128 = self.items[i].id.key();
            self.index.insert(key, i);
            i += 1;
        }
    }

    /// Deletes an item. Says whether it was there and not yet deleted.
    pub fn mark_deleted(&mut self, target: OpId, deleted_at: OpId) -> (changed: bool)
        requires
            old(self).wf(),
        ensures
            final(self).wf(),
            final(self)@ == tombstoned(old(self)@, target, deleted_at),
            changed == (has_id(old(self)@, target) && old(self)@[position(old(self)@, target)].visible()),
    {
        match self.position_of(target) {
            Some(at) => {
                let item = self.items[at];
                match item.state {
                    ItemState::Active => {
                        let dead = RgaItem { state: ItemState::Tombstone { deleted_at }, ..item };
                        proof {
                            lemma_tombstones_update(self@, at as int, dead);
                            lemma_tombstones_bound(self@.update(at as int, dead));
                        }
                        self.items.set(at, dead);
                        self.tombstone_count = self.tombstone_count + 1;
                        true
                    },
                    ItemState::Tombstone { deleted_at: known } => {
                        if known.key() > deleted_at.key() {
                            let dead = RgaItem { state: ItemState::Tombstone { deleted_at }, ..item };
                            proof {
                                lemma_tombstones_update(self@, at as int, dead);
                            }
                            self.items.set(at, dead);
                        } else {
                            proof {
                                assert(tombstoned(self@, target, deleted_at) =~= self@);
                            }
                        }
                        false
                    },
                }
            },
            None => false,
        }
    }

    /// The visible items, in order.
    pub fn visible_items(&self) -> (list: Vec<RgaItem>)
        ensures
            list@ == visible(self@),
    {
        let mut list: Vec<RgaItem> = Vec::new();
        let mut i: usize = 0;
        while i < self.items.len()
            invariant
                i <= self@.len(),
                list@ == visible(self@.take(i as int)),
            decreases self@.len() - i,
        {
            proof {
                reveal_with_fuel(Seq::filter, 2);
                assert(self@.take(i + 1).drop_last() =~= self@.take(i as int));
            }
            let item = self.items[i];
            if item.is_visible() {
                list.push(item);
            }
            i += 1;
        }
        proof {
            assert(self@.take(self@.len() as int) =~= self@);
        }
        list
    }
}

impl Default for RgaArray {
    fn default() -> (array: Self)
        ensures
            array.wf(),
            array@ == Seq::<RgaItem>::empty(),
    {
        RgaArray::new()
    }
}

/// Every item is either visible or deleted, and is counted as one of them.
pub proof fn law_items_are_visible_or_deleted(items: Seq<RgaItem>)
    ensures
        tombstones(items) == items.filter(|item: RgaItem| item.state is Tombstone).len(),
        visible(items) == items.filter(|item: RgaItem| item.state is Active),
        visible(items).len() + tombstones(items) == items.len(),
    decreases items.len(),
{
    reveal(Seq::filter);
    if items.len() > 0 {
        law_items_are_visible_or_deleted(items.drop_last());
    }
}

} // verus!
