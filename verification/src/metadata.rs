//! Canvas metadata: a last-writer-wins map with well-known keys.

use crate::float::F64;
use crate::stroke;
use crate::stroke::LwwRegister;
use crate::types::OpId;
use vstd::prelude::*;

verus! {

/// A map in which each key has a last-writer-wins register of its own. A
/// deleted key keeps its register, with no value.
#[derive(Debug)]
pub struct LwwMap<K, V> {
    /// One entry per key, in the order in which the keys came.
    pub entries: Vec<(K, LwwRegister<Option<V>>)>,
}

/// An optional value seen through its view.
pub open spec fn option_view<V: View>(value: Option<V>) -> Option<V::V> {
    match value {
        Some(v) => Some(v@),
        None => None,
    }
}

/// The register with its value seen through the view of `V`.
pub open spec fn register_view<V: View>(register: LwwRegister<Option<V>>) -> LwwRegister<Option<V::V>> {
    LwwRegister { value: option_view(register.value), timestamp: register.timestamp }
}

/// Whether some entry has the key `k`.
pub open spec fn has_key<K: View, V>(entries: Seq<(K, LwwRegister<Option<V>>)>, k: K::V) -> bool {
    exists|i: int| 0 <= i < entries.len() && (#[trigger] entries[i]).0@ == k
}

/// The entry with the key `k`.
pub open spec fn entry_of<K: View, V>(entries: Seq<(K, LwwRegister<Option<V>>)>, k: K::V) -> int {
    choose|i: int| 0 <= i < entries.len() && (#[trigger] entries[i]).0@ == k
}

/// The map after `value` has been written under `k`; `None` deletes.
pub open spec fn entered<K, V>(
    m: Map<K, LwwRegister<Option<V>>>,
    k: K,
    value: Option<V>,
    ts: OpId,
) -> Map<K, LwwRegister<Option<V>>> {
    m.insert(
        k,
        if m.contains_key(k) {
            stroke::written(m[k], value, ts)
        } else {
            LwwRegister { value, timestamp: ts }
        },
    )
}

impl<K: View, V: View> View for LwwMap<K, V> {
    type V = Map<K::V, LwwRegister<Option<V::V>>>;

    open spec fn view(&self) -> Map<K::V, LwwRegister<Option<V::V>>> {
        Map::new(
            |k: K::V| has_key(self.entries@, k),
            |k: K::V| register_view(self.entries@[entry_of(self.entries@, k)].1),
        )
    }
}

impl<K: View + PartialEq, V: View> LwwMap<K, V> {
    /// No key has two entries.
    pub open spec fn wf(&self) -> bool {
        forall|i: int, j: int|
            0 <= i < self.entries@.len() && 0 <= j < self.entries@.len() && (#[trigger] self.entries@[i]).0@ == (
            #[trigger] self.entries@[j]).0@ ==> i == j
    }

    pub fn new() -> (map: Self)
        ensures
            map.wf(),
            map@ == Map::<K::V, LwwRegister<Option<V::V>>>::empty(),
            map.entries@.len() == 0,
    {
        let map = LwwMap { entries: Vec::new() };
        proof {
            assert(map@ =~= Map::<K::V, LwwRegister<Option<V::V>>>::empty());
        }
        map
    }

    fn find(&self, key: &K) -> (at: Option<usize>)
        requires
            self.wf(),
            vstd::laws_eq::obeys_view_eq::<K>(),
        ensures
            match at {
                Some(i) => i < self.entries@.len() && self.entries@[i as int].0@ == key@ && self@.contains_key(key@)
                    && self@[key@] == register_view(self.entries@[i as int].1),
                None => !self@.contains_key(key@),
            },
    {
        let mut i: usize = 0;
        while i < self.entries.len()
            invariant
                i <= self.entries@.len(),
                vstd::laws_eq::obeys_view_eq::<K>(),
                forall|j: int| 0 <= j < i ==> (#[trigger] self.entries@[j]).0@ != key@,
                self.wf(),
            decreases self.entries@.len() - i,
        {
            proof {
                reveal(vstd::laws_eq::obeys_view_eq);
            }
            if self.entries[i].0 == *key {
                return Some(i);
            }
            i += 1;
        }
        None
    }

    fn enter(&mut self, key: K, value: Option<V>, ts: OpId)
        requires
            old(self).wf(),
            vstd::laws_eq::obeys_view_eq::<K>(),
        ensures
            final(self).wf(),
            final(self)@ == entered(old(self)@, key@, option_view(value), ts),
    {
        let ghost k = key@;
        let ghost v = option_view(value);
        match self.find(&key) {
            Some(i) => {
                self.entries[i].1.apply(value, ts);
                proof {
                    let was = old(self).entries@;
                    let now = self.entries@;
                    assert forall|j: int| 0 <= j < now.len() implies (#[trigger] now[j]).0 == was[j].0 by {}
                    assert forall|j: int| 0 <= j < now.len() && j != i implies #[trigger] now[j] == was[j] by {}
                    assert forall|x: K::V| has_key(now, x) <==> #[trigger] has_key(was, x) by {
                        if has_key(was, x) {
                            assert(now[entry_of(was, x)].0@ == x);
                        }
                        if has_key(now, x) {
                            assert(was[entry_of(now, x)].0@ == x);
                        }
                    }
                    assert forall|x: K::V| has_key(now, x) implies #[trigger] self@[x] == entered(old(self)@, k, v, ts)[x] by {
                        let j = entry_of(now, x);
                        assert(was[j].0@ == x);
                        assert(entry_of(was, x) == j);
                        if x == k {
                            assert(j == i);
                        } else {
                            assert(j != i);
                        }
                    }
                    assert(self@ =~= entered(old(self)@, k, v, ts));
                }
            },
            None => {
                self.entries.push((key, LwwRegister::new(value, ts)));
                proof {
                    let was = old(self).entries@;
                    let now = self.entries@;
                    assert(now[was.len() as int].0@ == k);
                    assert forall|j: int| 0 <= j < was.len() implies #[trigger] now[j] == was[j] by {}
                    assert forall|j: int| 0 <= j < was.len() implies (#[trigger] was[j]).0@ != k by {
                        assert(!has_key(was, k));
                    }
                    assert forall|x: K::V| has_key(now, x) <==> #[trigger] has_key(was, x) || x == k by {
                        if has_key(was, x) {
                            assert(now[entry_of(was, x)].0@ == x);
                        }
                        if has_key(now, x) && x != k {
                            assert(was[entry_of(now, x)].0@ == x);
                        }
                    }
                    assert forall|x: K::V| has_key(now, x) implies #[trigger] self@[x] == entered(old(self)@, k, v, ts)[x] by {
                        let j = entry_of(now, x);
                        if x != k {
                            assert(has_key(was, x));
                            assert(was[j].0@ == x);
                            assert(entry_of(was, x) == j);
                        }
                    }
                    assert(self@ =~= entered(old(self)@, k, v, ts));
                }
            },
        }
    }

    /// Writes a value under a key; the later operation wins.
    pub fn set(&mut self, key: K, value: V, ts: OpId)
        requires
            old(self).wf(),
            vstd::laws_eq::obeys_view_eq::<K>(),
        ensures
            final(self).wf(),
            final(self)@ == entered(old(self)@, key@, Some(value@), ts),
    {
        self.enter(key, Some(value), ts);
    }

    /// Deletes a key; the later operation wins.
    pub fn delete(&mut self, key: K, ts: OpId)
        requires
            old(self).wf(),
            vstd::laws_eq::obeys_view_eq::<K>(),
        ensures
            final(self).wf(),
            final(self)@ == entered(old(self)@, key@, None, ts),
    {
        self.enter(key, None, ts);
    }

    /// The value under a key, unless it was never written or is deleted.
    pub fn get(&self, key: &K) -> (value: Option<&V>)
        requires
            self.wf(),
            vstd::laws_eq::obeys_view_eq::<K>(),
        ensures
            match value {
                Some(v) => self@.contains_key(key@) && self@[key@].value == Some(v@),
                None => !self@.contains_key(key@) || self@[key@].value is None,
            },
    {
        match self.find(key) {
            Some(i) => {
                match &self.entries[i].1.value {
                    Some(v) => Some(v),
                    None => None,
                }
            },
            None => None,
        }
    }

    /// All keys with their values, in the order in which the keys came.
    pub fn iter(&self) -> (list: Vec<(&K, &Option<V>)>)
        ensures
            list@.len() == self.entries@.len(),
            forall|i: int|
                0 <= i < list@.len() ==> *(#[trigger] list@[i]).0 == self.entries@[i].0 && *list@[i].1
                    == self.entries@[i].1.value,
    {
        let mut list: Vec<(&K, &Option<V>)> = Vec::new();
        let mut i: usize = 0;
        while i < self.entries.len()
            invariant
                i <= self.entries@.len(),
                list@.len() == i,
                forall|j: int|
                    0 <= j < list@.len() ==> *(#[trigger] list@[j]).0 == self.entries@[j].0 && *list@[j].1
                        == self.entries@[j].1.value,
            decreases self.entries@.len() - i,
        {
            list.push((&self.entries[i].0, &self.entries[i].1.value));
            i += 1;
        }
        list
    }
}

/// Well-known metadata keys.
#[derive(Debug)]
pub enum MetadataKey {
    ViewportX,
    ViewportY,
    ViewportZoom,
    BackgroundColor,
    GridEnabled,
    GridSpacing,
    Custom(String),
}

/// The contents of a [`MetadataKey`].
#[verifier::ext_equal]
pub enum MetadataKeyView {
    ViewportX,
    ViewportY,
    ViewportZoom,
    BackgroundColor,
    GridEnabled,
    GridSpacing,
    Custom(Seq<char>),
}

impl View for MetadataKey {
    type V = MetadataKeyView;

    open spec fn view(&self) -> MetadataKeyView {
        match self {
            MetadataKey::ViewportX => MetadataKeyView::ViewportX,
            MetadataKey::ViewportY => MetadataKeyView::ViewportY,
            MetadataKey::ViewportZoom => MetadataKeyView::ViewportZoom,
            MetadataKey::BackgroundColor => MetadataKeyView::BackgroundColor,
            MetadataKey::GridEnabled => MetadataKeyView::GridEnabled,
            MetadataKey::GridSpacing => MetadataKeyView::GridSpacing,
            MetadataKey::Custom(name) => MetadataKeyView::Custom(name@),
        }
    }
}

impl vstd::std_specs::cmp::PartialEqSpecImpl for MetadataKey {
    open spec fn obeys_eq_spec() -> bool {
        true
    }

    open spec fn eq_spec(&self, other: &Self) -> bool {
        self@ == other@
    }
}

impl PartialEq for MetadataKey {
    fn eq(&self, other: &Self) -> (same: bool) {
        match (self, other) {
            (MetadataKey::ViewportX, MetadataKey::ViewportX) => true,
            (MetadataKey::ViewportY, MetadataKey::ViewportY) => true,
            (MetadataKey::ViewportZoom, MetadataKey::ViewportZoom) => true,
            (MetadataKey::BackgroundColor, MetadataKey::BackgroundColor) => true,
            (MetadataKey::GridEnabled, MetadataKey::GridEnabled) => true,
            (MetadataKey::GridSpacing, MetadataKey::GridSpacing) => true,
            (MetadataKey::Custom(a), MetadataKey::Custom(b)) => *a == *b,
            _ => false,
        }
    }
}

/// Keys are equal where their contents are.
pub proof fn lemma_key_equality()
    ensures
        vstd::laws_eq::obeys_view_eq::<MetadataKey>(),
{
    reveal(vstd::laws_eq::obeys_view_eq);
}

impl Clone for MetadataKey {
    fn clone(&self) -> (copy: Self)
        ensures
            copy@ == self@,
    {
        match self {
            MetadataKey::ViewportX => MetadataKey::ViewportX,
            MetadataKey::ViewportY => MetadataKey::ViewportY,
            MetadataKey::ViewportZoom => MetadataKey::ViewportZoom,
            MetadataKey::BackgroundColor => MetadataKey::BackgroundColor,
            MetadataKey::GridEnabled => MetadataKey::GridEnabled,
            MetadataKey::GridSpacing => MetadataKey::GridSpacing,
            MetadataKey::Custom(name) => MetadataKey::Custom(name.clone()),
        }
    }
}

/// A typed metadata value.
#[derive(Debug)]
pub enum MetadataValue {
    F64(F64),
    Bool(bool),
    U32(u32),
    String(String),
}

/// The contents of a [`MetadataValue`].
#[verifier::ext_equal]
pub enum MetadataValueView {
    F64(F64),
    Bool(bool),
    U32(u32),
    String(Seq<char>),
}

impl View for MetadataValue {
    type V = MetadataValueView;

    open spec fn view(&self) -> MetadataValueView {
        match self {
            MetadataValue::F64(v) => MetadataValueView::F64(*v),
            MetadataValue::Bool(v) => MetadataValueView::Bool(*v),
            MetadataValue::U32(v) => MetadataValueView::U32(*v),
            MetadataValue::String(v) => MetadataValueView::String(v@),
        }
    }
}

impl Clone for MetadataValue {
    fn clone(&self) -> (copy: Self)
        ensures
            copy@ == self@,
    {
        match self {
            MetadataValue::F64(v) => MetadataValue::F64(*v),
            MetadataValue::Bool(v) => MetadataValue::Bool(*v),
            MetadataValue::U32(v) => MetadataValue::U32(*v),
            MetadataValue::String(v) => MetadataValue::String(v.clone()),
        }
    }
}

/// The map after writes, one after another; each is a key, a value, or `None`
/// for a deletion, and a time.
pub open spec fn all_entered<K, V>(
    m: Map<K, LwwRegister<Option<V>>>,
    writes: Seq<(K, Option<V>, OpId)>,
) -> Map<K, LwwRegister<Option<V>>>
    decreases writes.len(),
{
    if writes.len() == 0 {
        m
    } else {
        let (k, value, ts) = writes.last();
        entered(all_entered(m, writes.drop_last()), k, value, ts)
    }
}

/// Whether the write `i` is the latest of its key: later than what the map has,
/// and later than every other write of the key, but for repetitions of it.
pub open spec fn latest_write<K, V>(
    m: Map<K, LwwRegister<Option<V>>>,
    writes: Seq<(K, Option<V>, OpId)>,
    i: int,
) -> bool {
    &&& 0 <= i < writes.len()
    &&& m.contains_key(writes[i].0) ==> m[writes[i].0].timestamp.rank() < writes[i].2.rank()
    &&& forall|j: int|
        0 <= j < writes.len() && (#[trigger] writes[j]).0 == writes[i].0 ==> writes[j].2.rank() < writes[i].2.rank()
            || writes[j] == writes[i]
}

proof fn lemma_latest_so_far<K, V>(
    m: Map<K, LwwRegister<Option<V>>>,
    writes: Seq<(K, Option<V>, OpId)>,
    i: int,
    n: int,
)
    requires
        latest_write(m, writes, i),
        0 <= n <= writes.len(),
    ensures
        ({
            let (k, value, ts) = writes[i];
            let now = all_entered(m, writes.take(n));
            &&& now.contains_key(k) ==> now[k].timestamp.rank() < ts.rank() || now[k] == (LwwRegister {
                value,
                timestamp: ts,
            })
            &&& i < n ==> now.contains_key(k) && now[k] == (LwwRegister { value, timestamp: ts })
        }),
    decreases n,
{
    if n == 0 {
        assert(writes.take(0) =~= seq![]);
    } else {
        lemma_latest_so_far(m, writes, i, n - 1);
        assert(writes.take(n).drop_last() =~= writes.take(n - 1));
        assert(writes.take(n).last() == writes[n - 1]);
    }
}

/// The latest write of a key wins, in whatever order the writes come.
pub proof fn law_latest_write_wins<K, V>(
    m: Map<K, LwwRegister<Option<V>>>,
    writes: Seq<(K, Option<V>, OpId)>,
    i: int,
)
    requires
        latest_write(m, writes, i),
    ensures
        all_entered(m, writes).contains_key(writes[i].0),
        all_entered(m, writes)[writes[i].0] == (LwwRegister { value: writes[i].1, timestamp: writes[i].2 }),
{
    lemma_latest_so_far(m, writes, i, writes.len() as int);
    assert(writes.take(writes.len() as int) =~= writes);
}

/// A write concerns its key alone: it is taken over where it is later than what
/// was written under that key last, or the first there; and every other key
/// keeps what it has.
pub proof fn law_writes_concern_their_key<K, V>(
    m: Map<K, LwwRegister<Option<V>>>,
    k: K,
    value: Option<V>,
    ts: OpId,
    other: K,
)
    ensures
        ({
            let now = entered(m, k, value, ts);
            let wins = !m.contains_key(k) || ts.lamport.0 > m[k].timestamp.lamport.0 || (ts.lamport
                == m[k].timestamp.lamport && ts.actor.0 > m[k].timestamp.actor.0);
            &&& now.contains_key(k)
            &&& wins ==> now[k].value == value && now[k].timestamp == ts
            &&& !wins ==> now[k] == m[k]
            &&& other != k ==> now.contains_key(other) == m.contains_key(other)
            &&& other != k && m.contains_key(other) ==> now[other] == m[other]
        }),
{
    if m.contains_key(k) {
        stroke::law_later_write_wins(m[k], value, ts);
    }
}

} // verus!
