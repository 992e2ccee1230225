//! Actors, logical time, operation identifiers and vector clocks.

use std::cmp::Ordering;
use std::collections::BTreeMap;
use vstd::prelude::*;

verus! {

/// Unique actor (client) identifier, assigned by the server.
#[derive(Debug, Clone, Copy, PartialEq, Eq, Hash, PartialOrd, Ord, Structural)]
pub struct ActorId(pub u64);

/// Lamport logical timestamp.
#[derive(Debug, Clone, Copy, PartialEq, Eq, Hash, PartialOrd, Ord, Structural)]
pub struct LamportTs(pub u64);

impl LamportTs {
    /// Advances the clock by one and returns the new time.
    pub fn tick(&mut self) -> (now: Self)
        requires
            old(self).0 < u64::MAX,
        ensures
            now.0 == old(self).0 + 1,
            *final(self) == now,
    {
        self.0 = self.0 + 1;
        *self
    }

    /// Moves the clock up to `other` when `other` is ahead.
    pub fn merge(&mut self, other: LamportTs)
        ensures
            final(self).0 == (if other.0 > old(self).0 { other.0 } else { old(self).0 }),
    {
        if other.0 > self.0 {
            self.0 = other.0;
        }
    }
}

/// Globally unique operation identifier; also the identifier of every item
/// that the operation creates.
///
/// Identifiers are totally ordered: the higher Lamport time wins, and on a tie
/// the higher actor.
#[derive(Debug, Clone, Copy, PartialEq, Eq, Hash, Ord, Structural)]
pub struct OpId {
    pub lamport: LamportTs,
    pub actor: ActorId,
}

impl OpId {
    /// The identifier that stands for "no operation".
    #[verifier::allow_in_spec]
    pub fn zero() -> OpId
        returns
            (OpId { lamport: LamportTs(0), actor: ActorId(0) }),
    {
        OpId { lamport: LamportTs(0), actor: ActorId(0) }
    }

    /// The identifier as one number, ordered as identifiers are.
    pub open spec fn rank(self) -> int {
        self.lamport.0 * 0x1_0000_0000_0000_0000 + self.actor.0
    }

    pub fn is_zero(&self) -> (zero: bool)
        ensures
            zero == (*self == OpId::zero()),
    {
        self.lamport.0 == 0 && self.actor.0 == 0
    }

    /// The identifier as a map key: see [`OpId::rank`].
    pub fn key(&self) -> (key: u128)
        ensures
            key == self.rank(),
    {
        self.lamport.0 as u128 * 0x1_0000_0000_0000_0000 + self.actor.0 as u128
    }
}

impl PartialOrd for OpId {
    fn partial_cmp(&self, other: &Self) -> (order: Option<Ordering>) {
        if self.lamport.0 < other.lamport.0 {
            Some(Ordering::Less)
        } else if self.lamport.0 > other.lamport.0 {
            Some(Ordering::Greater)
        } else if self.actor.0 < other.actor.0 {
            Some(Ordering::Less)
        } else if self.actor.0 > other.actor.0 {
            Some(Ordering::Greater)
        } else {
            Some(Ordering::Equal)
        }
    }
}

impl vstd::std_specs::cmp::PartialOrdSpecImpl for OpId {
    open spec fn obeys_partial_cmp_spec() -> bool {
        true
    }

    open spec fn partial_cmp_spec(&self, other: &Self) -> Option<Ordering> {
        if self.rank() < other.rank() {
            Some(Ordering::Less)
        } else if self.rank() > other.rank() {
            Some(Ordering::Greater)
        } else {
            Some(Ordering::Equal)
        }
    }
}

/// Distinct identifiers have distinct ranks.
pub proof fn lemma_rank_injective(a: OpId, b: OpId)
    ensures
        a.rank() == b.rank() <==> a == b,
{
}

/// Vector clock: the highest Lamport time seen from each actor.
#[derive(Debug)]
pub struct VectorClock {
    pub clocks: BTreeMap<u64, u64>,
}

impl View for VectorClock {
    type V = Map<u64, u64>;

    open spec fn view(&self) -> Map<u64, u64> {
        self.clocks@
    }
}

/// What a clock shows for an actor: its entry, or 0 where it has none.
pub open spec fn seen(m: Map<u64, u64>, actor: u64) -> u64 {
    if m.contains_key(actor) {
        m[actor]
    } else {
        0
    }
}

/// `m` after one actor has been seen at `ts`: times never move back.
pub open spec fn advanced(m: Map<u64, u64>, actor: u64, ts: u64) -> Map<u64, u64> {
    m.insert(actor, if ts > seen(m, actor) { ts } else { seen(m, actor) })
}

/// Point-wise later time of two clocks.
pub open spec fn merged(m: Map<u64, u64>, n: Map<u64, u64>) -> Map<u64, u64> {
    Map::new(
        |a: u64| m.contains_key(a) || n.contains_key(a),
        |a: u64| if seen(n, a) > seen(m, a) { seen(n, a) } else { seen(m, a) },
    )
}

/// Whether the clock `m` has seen all that `n` has.
pub open spec fn dominated(n: Map<u64, u64>, m: Map<u64, u64>) -> bool {
    forall|a: u64| seen(m, a) >= seen(n, a)
}

/// `m` after each of the listed entries has been seen, in turn.
pub open spec fn advanced_all(m: Map<u64, u64>, s: Seq<(ActorId, u64)>) -> Map<u64, u64>
    decreases s.len(),
{
    if s.len() == 0 {
        m
    } else {
        advanced(advanced_all(m, s.drop_last()), s.last().0.0, s.last().1)
    }
}

/// For each listed entry that is ahead of `known`, the range of times between.
pub open spec fn unseen_ranges(s: Seq<(ActorId, u64)>, known: Map<u64, u64>) -> Seq<(ActorId, u64, u64)>
    decreases s.len(),
{
    if s.len() == 0 {
        seq![]
    } else {
        let rest = unseen_ranges(s.drop_last(), known);
        let (actor, ts) = s.last();
        if ts > seen(known, actor.0) {
            rest.push((actor, (seen(known, actor.0) + 1) as u64, ts))
        } else {
            rest
        }
    }
}

/// `s` lists the entries of `m`, each once, in ascending actor order.
pub open spec fn enumerates(m: Map<u64, u64>, s: Seq<(ActorId, u64)>) -> bool {
    &&& forall|i: int, j: int| 0 <= i < j < s.len() ==> (#[trigger] s[i]).0.0 < (#[trigger] s[j]).0.0
    &&& forall|i: int| 0 <= i < s.len() ==> m.contains_key((#[trigger] s[i]).0.0) && m[s[i].0.0] == s[i].1
    &&& forall|a: u64| #[trigger] m.contains_key(a) ==> exists|i: int| 0 <= i < s.len() && (#[trigger] s[i]).0.0 == a
}

/// The entries of a clock in ascending actor order.
pub open spec fn entries(m: Map<u64, u64>) -> Seq<(ActorId, u64)> {
    choose|s: Seq<(ActorId, u64)>| enumerates(m, s)
}

/// A clock has one enumeration only.
pub proof fn lemma_entries(m: Map<u64, u64>, s: Seq<(ActorId, u64)>)
    requires
        enumerates(m, s),
    ensures
        entries(m) == s,
{
    lemma_enumeration_prefix(m, s, entries(m), s.len() as int);
    lemma_enumeration_prefix(m, entries(m), s, entries(m).len() as int);
    assert(entries(m) =~= s);
}

proof fn lemma_greatest(keys: Set<u64>) -> (max: u64)
    requires
        keys.finite(),
        keys.len() > 0,
    ensures
        keys.contains(max),
        forall|k: u64| keys.contains(k) ==> k <= max,
    decreases keys.len(),
{
    let k = keys.choose();
    let rest = keys.remove(k);
    if rest.len() == 0 {
        assert forall|j: u64| keys.contains(j) implies j <= k by {
            if j != k {
                assert(rest.contains(j));
            }
        }
        k
    } else {
        let m = lemma_greatest(rest);
        let max = if m > k { m } else { k };
        assert forall|j: u64| keys.contains(j) implies j <= max by {
            if j != k {
                assert(rest.contains(j));
            }
        }
        max
    }
}

/// Every clock of finitely many actors can be enumerated.
pub proof fn lemma_entries_exist(m: Map<u64, u64>)
    requires
        m.dom().finite(),
    ensures
        enumerates(m, entries(m)),
    decreases m.dom().len(),
{
    if m.dom().len() == 0 {
        let s: Seq<(ActorId, u64)> = seq![];
        assert forall|a: u64| #[trigger] m.contains_key(a) implies false by {
            assert(m.dom().contains(a));
        }
        assert(enumerates(m, s));
    } else {
        let max = lemma_greatest(m.dom());
        let less = m.remove(max);
        lemma_entries_exist(less);
        let t = entries(less);
        let s = t.push((ActorId(max), m[max]));
        assert forall|i: int, j: int| 0 <= i < j < s.len() implies (#[trigger] s[i]).0.0 < (#[trigger] s[j]).0.0 by {
            assert(t[i] == s[i]);
            if j < t.len() {
                assert(t[j] == s[j]);
            } else {
                assert(less.contains_key(t[i].0.0));
            }
        }
        assert forall|i: int| 0 <= i < s.len() implies m.contains_key((#[trigger] s[i]).0.0) && m[s[i].0.0] == s[i].1 by {
            if i < t.len() {
                assert(t[i] == s[i]);
                assert(less.contains_key(t[i].0.0));
            }
        }
        assert forall|a: u64| #[trigger] m.contains_key(a) implies exists|i: int|
            0 <= i < s.len() && (#[trigger] s[i]).0.0 == a by {
            if a == max {
                assert(s[t.len() as int].0.0 == a);
            } else {
                assert(less.contains_key(a));
                let i = choose|i: int| 0 <= i < t.len() && (#[trigger] t[i]).0.0 == a;
                assert(s[i] == t[i]);
            }
        }
        assert(enumerates(m, s));
    }
}

/// Two enumerations agree on every prefix of the first.
proof fn lemma_enumeration_prefix(m: Map<u64, u64>, s: Seq<(ActorId, u64)>, t: Seq<(ActorId, u64)>, n: int)
    requires
        enumerates(m, s),
        enumerates(m, t),
        0 <= n <= s.len(),
    ensures
        n <= t.len(),
        forall|i: int| 0 <= i < n ==> s[i] == t[i],
    decreases n,
{
    if n > 0 {
        lemma_enumeration_prefix(m, s, t, n - 1);
        let a = s[n - 1].0.0;
        assert(m.contains_key(a));
        let k = choose|k: int| 0 <= k < t.len() && (#[trigger] t[k]).0.0 == a;
        if k < n - 1 {
            assert(s[k] == t[k]);
            assert(s[k].0.0 < s[n - 1].0.0);
        }
        let b = t[n - 1].0.0;
        assert(m.contains_key(b));
        let l = choose|l: int| 0 <= l < s.len() && (#[trigger] s[l]).0.0 == b;
        if l < n - 1 {
            assert(s[l] == t[l]);
            assert(t[l].0.0 < t[n - 1].0.0);
        }
        if k > n - 1 {
            assert(t[n - 1].0.0 < t[k].0.0);
            if l > n - 1 {
                assert(s[n - 1].0.0 < s[l].0.0);
            }
        }
        assert(k == n - 1);
        assert(s[n - 1].0 == ActorId(a));
        assert(t[n - 1].0 == ActorId(a));
    }
}

/// Seeing the entries of a clock one after another merges that clock.
pub proof fn lemma_advanced_all(m: Map<u64, u64>, n: Map<u64, u64>, s: Seq<(ActorId, u64)>)
    requires
        enumerates(n, s),
    ensures
        advanced_all(m, s) == merged(m, n),
{
    assert(s.take(s.len() as int) =~= s);
    let r = advanced_all(m, s);
    assert forall|a: u64|
        (r.contains_key(a) <==> #[trigger] merged(m, n).contains_key(a)) && (r.contains_key(a) ==> r[a]
            == merged(m, n)[a]) by {
        lemma_advanced_prefix(m, n, s, s.len() as int, a);
        if n.contains_key(a) {
            let i = choose|i: int| 0 <= i < s.len() && (#[trigger] s[i]).0.0 == a;
            assert(listed(s, s.len() as int, a));
        }
    }
    assert(r =~= merged(m, n));
}

/// Whether actor `a` is among the first `k` entries.
spec fn listed(s: Seq<(ActorId, u64)>, k: int, a: u64) -> bool {
    exists|i: int| 0 <= i < k && (#[trigger] s[i]).0.0 == a
}

proof fn lemma_advanced_prefix(m: Map<u64, u64>, n: Map<u64, u64>, s: Seq<(ActorId, u64)>, k: int, a: u64)
    requires
        enumerates(n, s),
        0 <= k <= s.len(),
    ensures
        advanced_all(m, s.take(k)).contains_key(a) <==> m.contains_key(a) || listed(s, k, a),
        seen(advanced_all(m, s.take(k)), a) == (if listed(s, k, a) && seen(n, a) > seen(m, a) {
            seen(n, a)
        } else {
            seen(m, a)
        }),
    decreases k,
{
    if k == 0 {
        assert(s.take(0) =~= seq![]);
    } else {
        lemma_advanced_prefix(m, n, s, k - 1, a);
        assert(s.take(k).drop_last() =~= s.take(k - 1));
        if a == s[k - 1].0.0 {
            assert(listed(s, k, a));
            assert(!listed(s, k - 1, a));
        } else {
            assert(listed(s, k, a) == listed(s, k - 1, a)) by {
                if listed(s, k, a) {
                    let i = choose|i: int| 0 <= i < k && (#[trigger] s[i]).0.0 == a;
                    assert(i != k - 1);
                }
                if listed(s, k - 1, a) {
                    let i = choose|i: int| 0 <= i < k - 1 && (#[trigger] s[i]).0.0 == a;
                    assert(s[i].0.0 == a);
                }
            }
        }
    }
}

impl VectorClock {
    pub fn new() -> (clock: Self)
        ensures
            clock@ == Map::<u64, u64>::empty(),
    {
        VectorClock { clocks: BTreeMap::new() }
    }

    pub fn get(&self, actor: ActorId) -> (ts: u64)
        ensures
            ts == seen(self@, actor.0),
    {
        match self.clocks.get(&actor.0) {
            Some(ts) => *ts,
            None => 0,
        }
    }

    /// Records that `actor` has been seen at `ts`. Times never move back.
    pub fn advance(&mut self, actor: ActorId, ts: u64)
        ensures
            final(self)@ == advanced(old(self)@, actor.0, ts),
    {
        let known: u64 = self.get(actor);
        self.clocks.insert(actor.0, if ts > known { ts } else { known });
    }

    /// The number of actors with an entry.
    pub fn len(&self) -> (n: usize)
        ensures
            n == self@.len(),
    {
        self.clocks.len()
    }

    /// The entries `(actor, highest time seen)` in actor order.
    pub fn iter(&self) -> (list: Vec<(ActorId, u64)>)
        ensures
            enumerates(self@, list@),
            list@ == entries(self@),
    {
        let mut list: Vec<(ActorId, u64)> = Vec::new();
        let pairs = self.clocks.iter();
        let ghost all = vstd::std_specs::iter::IteratorSpec::remaining(&pairs);
        let ghost keys = all.map_values(|kv: (&u64, &u64)| *kv.0);
        for kv in it: pairs
            invariant
                it.seq() == all,
                list@.len() == it.index(),
                forall|i: int| 0 <= i < list@.len() ==> #[trigger] list@[i] == (ActorId(*all[i].0), *all[i].1),
        {
            list.push((ActorId(*kv.0), *kv.1));
        }
        proof {
            broadcast use vstd::std_specs::btree::group_btree_axioms;
            broadcast use vstd::laws_cmp::group_laws_cmp;
            assert(vstd::laws_cmp::obeys_cmp::<u64>());
            assert(vstd::std_specs::btree::increasing_seq(keys));
            assert forall|i: int, j: int| 0 <= i < j < list@.len() implies (#[trigger] list@[i]).0.0 < (
            #[trigger] list@[j]).0.0 by {
                assert(vstd::std_specs::cmp::OrdSpec::cmp_spec(&keys[i], &keys[j]) is Less);
            }
            assert forall|i: int| 0 <= i < list@.len() implies self@.contains_key((#[trigger] list@[i]).0.0)
                && self@[list@[i].0.0] == list@[i].1 by {
                assert(self@.contains_key(*all[i].0));
            }
            assert forall|a: u64| #[trigger] self@.contains_key(a) implies exists|i: int|
                0 <= i < list@.len() && (#[trigger] list@[i]).0.0 == a by {
                assert(all.contains((&a, &self@[a])));
                let i = choose|i: int| 0 <= i < all.len() && all[i] == (&a, &self@[a]);
                assert(list@[i].0.0 == a);
            }
            lemma_entries(self@, list@);
        }
        list
    }

    /// Whether this clock has seen everything that `other` has seen.
    pub fn dominates(&self, other: &VectorClock) -> (yes: bool)
        ensures
            yes == dominated(other@, self@),
    {
        let list = other.iter();
        let mut i: usize = 0;
        while i < list.len()
            invariant
                i <= list.len(),
                enumerates(other@, list@),
                forall|k: int| 0 <= k < i ==> seen(self@, (#[trigger] list@[k]).0.0) >= list@[k].1,
            decreases list.len() - i,
        {
            if self.get(list[i].0) < list[i].1 {
                assert(seen(self@, list@[i as int].0.0) < seen(other@, list@[i as int].0.0));
                return false;
            }
            i += 1;
        }
        true
    }

    /// Takes the later time of each entry.
    pub fn merge(&mut self, other: &VectorClock)
        ensures
            final(self)@ == merged(old(self)@, other@),
    {
        let list = other.iter();
        let mut i: usize = 0;
        while i < list.len()
            invariant
                i <= list.len(),
                enumerates(other@, list@),
                self@ == advanced_all(old(self)@, list@.take(i as int)),
            decreases list.len() - i,
        {
            proof {
                assert(list@.take(i + 1).drop_last() =~= list@.take(i as int));
            }
            self.advance(list[i].0, list[i].1);
            i += 1;
        }
        proof {
            assert(list@.take(list@.len() as int) =~= list@);
            lemma_advanced_all(old(self)@, other@, list@);
        }
    }

    /// What `other` has not seen yet, as ranges
    /// `(actor, first time unseen, last time seen here)` in actor order.
    pub fn diff(&self, other: &VectorClock) -> (ranges: Vec<(ActorId, u64, u64)>)
        ensures
            ranges@ == unseen_ranges(entries(self@), other@),
    {
        let list = self.iter();
        let mut ranges: Vec<(ActorId, u64, u64)> = Vec::new();
        let mut i: usize = 0;
        while i < list.len()
            invariant
                i <= list.len(),
                ranges@ == unseen_ranges(list@.take(i as int), other@),
            decreases list.len() - i,
        {
            proof {
                assert(list@.take(i + 1).drop_last() =~= list@.take(i as int));
            }
            let known: u64 = other.get(list[i].0);
            if list[i].1 > known {
                ranges.push((list[i].0, known + 1, list[i].1));
            }
            i += 1;
        }
        proof {
            assert(list@.take(list@.len() as int) =~= list@);
        }
        ranges
    }
}

impl Clone for VectorClock {
    fn clone(&self) -> (copy: Self)
        ensures
            copy@ == self@,
    {
        VectorClock { clocks: self.clocks.clone() }
    }
}

impl Default for VectorClock {
    fn default() -> (clock: Self)
        ensures
            clock@ == Map::<u64, u64>::empty(),
    {
        VectorClock::new()
    }
}

/// Identifiers are totally ordered: of two different ones, one comes first.
pub proof fn law_identifiers_are_ordered(a: OpId, b: OpId)
    ensures
        a == b <==> a.rank() == b.rank(),
        a.lamport.0 < b.lamport.0 ==> a.rank() < b.rank(),
        a.lamport == b.lamport && a.actor.0 < b.actor.0 ==> a.rank() < b.rank(),
{
    if a.rank() == b.rank() {
        lemma_rank_injective(a, b);
    }
}

/// Merging is commutative, associative and idempotent.
pub proof fn law_merging_joins(m: Map<u64, u64>, n: Map<u64, u64>, o: Map<u64, u64>)
    ensures
        merged(m, n) == merged(n, m),
        merged(merged(m, n), o) == merged(m, merged(n, o)),
        merged(m, m) == m,
{
    assert(merged(m, n) =~= merged(n, m));
    assert(merged(merged(m, n), o) =~= merged(m, merged(n, o)));
    assert(merged(m, m) =~= m);
}

/// A merged clock has seen what either has, and nothing that neither has.
pub proof fn law_merged_is_the_least_bound(m: Map<u64, u64>, n: Map<u64, u64>, o: Map<u64, u64>)
    ensures
        dominated(m, merged(m, n)),
        dominated(n, merged(m, n)),
        dominated(m, o) && dominated(n, o) ==> dominated(merged(m, n), o),
{
    assert forall|a: u64| dominated(m, o) && dominated(n, o) implies seen(o, a) >= seen(merged(m, n), a) by {
        assert(seen(o, a) >= seen(m, a));
        assert(seen(o, a) >= seen(n, a));
    }
}

/// To have seen all that another has seen is reflexive and transitive, and two
/// clocks that have seen all of each other have seen the same.
pub proof fn law_domination_is_an_order(m: Map<u64, u64>, n: Map<u64, u64>, o: Map<u64, u64>)
    ensures
        dominated(m, m),
        dominated(m, n) && dominated(n, o) ==> dominated(m, o),
        dominated(m, n) && dominated(n, m) ==> forall|a: u64| seen(m, a) == seen(n, a),
{
    if dominated(m, n) && dominated(n, o) {
        assert forall|a: u64| seen(o, a) >= seen(m, a) by {
            assert(seen(n, a) >= seen(m, a));
            assert(seen(o, a) >= seen(n, a));
        }
    }
    if dominated(m, n) && dominated(n, m) {
        assert forall|a: u64| seen(m, a) == seen(n, a) by {
            assert(seen(n, a) >= seen(m, a));
            assert(seen(m, a) >= seen(n, a));
        }
    }
}

/// Whether a time of an actor is in one of the ranges.
pub open spec fn in_ranges(ranges: Seq<(ActorId, u64, u64)>, actor: u64, ts: u64) -> bool {
    exists|i: int|
        0 <= i < ranges.len() && (#[trigger] ranges[i]).0.0 == actor && ranges[i].1 <= ts <= ranges[i].2
}

/// The ranges of a difference cover exactly the times that one clock has seen
/// and the other has not.
pub proof fn law_difference_is_exact(m: Map<u64, u64>, known: Map<u64, u64>, actor: u64, ts: u64)
    requires
        m.dom().finite(),
    ensures
        in_ranges(unseen_ranges(entries(m), known), actor, ts) <==> seen(known, actor) < ts <= seen(m, actor),
{
    lemma_entries_exist(m);
    lemma_ranges(entries(m), known, actor, ts);
    if m.contains_key(actor) {
        let i = choose|i: int| 0 <= i < entries(m).len() && (#[trigger] entries(m)[i]).0.0 == actor;
        assert(m[entries(m)[i].0.0] == entries(m)[i].1);
        assert(entries(m)[i].1 == seen(m, actor));
        if seen(known, actor) < ts <= seen(m, actor) {
            assert(has_entry(entries(m), actor, ts, known));
        }
    }
    if has_entry(entries(m), actor, ts, known) {
        let i = choose|i: int|
            0 <= i < entries(m).len() && (#[trigger] entries(m)[i]).0.0 == actor && seen(known, actor) < ts
                <= entries(m)[i].1;
        assert(m.contains_key(entries(m)[i].0.0));
    }
}

/// Nothing is to be sent to a clock exactly where it has seen everything.
pub proof fn law_no_difference_where_dominated(m: Map<u64, u64>, known: Map<u64, u64>)
    requires
        m.dom().finite(),
    ensures
        unseen_ranges(entries(m), known).len() == 0 <==> dominated(m, known),
{
    let ranges = unseen_ranges(entries(m), known);
    if ranges.len() == 0 {
        assert forall|a: u64| seen(known, a) >= seen(m, a) by {
            law_difference_is_exact(m, known, a, seen(m, a));
        }
    }
    if dominated(m, known) && ranges.len() > 0 {
        lemma_ranges_are_proper(entries(m), known, 0);
        law_difference_is_exact(m, known, ranges[0].0.0, ranges[0].1);
        assert(in_ranges(ranges, ranges[0].0.0, ranges[0].1));
        assert(seen(known, ranges[0].0.0) >= seen(m, ranges[0].0.0));
    }
}

/// Whether an entry of the actor reaches past the known time.
spec fn has_entry(s: Seq<(ActorId, u64)>, actor: u64, ts: u64, known: Map<u64, u64>) -> bool {
    exists|i: int|
        0 <= i < s.len() && (#[trigger] s[i]).0.0 == actor && seen(known, actor) < ts <= s[i].1
}

proof fn lemma_ranges(s: Seq<(ActorId, u64)>, known: Map<u64, u64>, actor: u64, ts: u64)
    ensures
        in_ranges(unseen_ranges(s, known), actor, ts) <==> has_entry(s, actor, ts, known),
    decreases s.len(),
{
    if s.len() > 0 {
        let less = s.drop_last();
        let rest = unseen_ranges(less, known);
        let all = unseen_ranges(s, known);
        lemma_ranges(less, known, actor, ts);
        if in_ranges(all, actor, ts) {
            let i = choose|i: int|
                0 <= i < all.len() && (#[trigger] all[i]).0.0 == actor && all[i].1 <= ts <= all[i].2;
            if i < rest.len() {
                assert(rest[i] == all[i]);
                assert(in_ranges(rest, actor, ts));
                let k = choose|k: int|
                    0 <= k < less.len() && (#[trigger] less[k]).0.0 == actor && seen(known, actor) < ts <= less[k].1;
                assert(s[k] == less[k]);
            } else {
                assert(s[s.len() - 1].0.0 == actor);
            }
        }
        if has_entry(s, actor, ts, known) {
            let k = choose|k: int|
                0 <= k < s.len() && (#[trigger] s[k]).0.0 == actor && seen(known, actor) < ts <= s[k].1;
            if k < less.len() {
                assert(less[k] == s[k]);
                let i = choose|i: int|
                    0 <= i < rest.len() && (#[trigger] rest[i]).0.0 == actor && rest[i].1 <= ts <= rest[i].2;
                assert(all[i] == rest[i]);
            } else {
                assert(all[all.len() - 1].0.0 == actor);
            }
        }
    }
}

proof fn lemma_ranges_are_proper(s: Seq<(ActorId, u64)>, known: Map<u64, u64>, i: int)
    requires
        0 <= i < unseen_ranges(s, known).len(),
    ensures
        unseen_ranges(s, known)[i].1 <= unseen_ranges(s, known)[i].2,
    decreases s.len(),
{
    if s.len() > 0 {
        let rest = unseen_ranges(s.drop_last(), known);
        if i < rest.len() {
            lemma_ranges_are_proper(s.drop_last(), known, i);
            assert(unseen_ranges(s, known)[i] == rest[i]);
        }
    }
}

/// Advancing a clock raises the time of one actor to the given one, if that is
/// later, and leaves the others alone.
pub proof fn law_advancing_raises_one_actor(m: Map<u64, u64>, actor: u64, ts: u64, other: u64)
    ensures
        ({
            let now = advanced(m, actor, ts);
            &&& now.contains_key(actor)
            &&& m.contains_key(actor) && m[actor] >= ts ==> now[actor] == m[actor]
            &&& !m.contains_key(actor) || m[actor] < ts ==> now[actor] == ts
            &&& other != actor ==> now.contains_key(other) == m.contains_key(other)
            &&& other != actor && m.contains_key(other) ==> now[other] == m[other]
        }),
{
}

/// What a clock has seen of an actor is what it holds, and nothing where it
/// holds nothing; one has seen all that another has where it holds no less of
/// every actor.
pub proof fn law_seeing_is_holding(m: Map<u64, u64>, n: Map<u64, u64>, actor: u64)
    ensures
        m.contains_key(actor) ==> seen(m, actor) == m[actor],
        !m.contains_key(actor) ==> seen(m, actor) == 0,
        dominated(n, m) <==> forall|a: u64| #[trigger]
            n.contains_key(a) ==> n[a] == 0 || (m.contains_key(a) && n[a] <= m[a]),
{
    if forall|a: u64| #[trigger] n.contains_key(a) ==> n[a] == 0 || (m.contains_key(a) && n[a] <= m[a]) {
        assert forall|a: u64| seen(m, a) >= seen(n, a) by {
            assert(n.contains_key(a) ==> n[a] == 0 || (m.contains_key(a) && n[a] <= m[a]));
        }
    }
    if dominated(n, m) {
        assert forall|a: u64| #[trigger] n.contains_key(a) implies n[a] == 0 || (m.contains_key(a) && n[a] <= m[a]) by {
            assert(seen(m, a) >= seen(n, a));
        }
    }
}

/// A merged clock holds of every actor the later of the two times.
pub proof fn law_merging_takes_the_later(m: Map<u64, u64>, n: Map<u64, u64>, a: u64)
    ensures
        merged(m, n).contains_key(a) <==> m.contains_key(a) || n.contains_key(a),
        m.contains_key(a) && !n.contains_key(a) ==> merged(m, n)[a] == m[a],
        !m.contains_key(a) && n.contains_key(a) ==> merged(m, n)[a] == n[a],
        m.contains_key(a) && n.contains_key(a) ==> merged(m, n)[a] == if m[a] < n[a] {
            n[a]
        } else {
            m[a]
        },
{
}

/// The ranges of a difference come in the order of the actors, one to an actor.
pub proof fn law_ranges_are_in_order(m: Map<u64, u64>, known: Map<u64, u64>, i: int, j: int)
    requires
        m.dom().finite(),
        0 <= i < j < unseen_ranges(entries(m), known).len(),
    ensures
        unseen_ranges(entries(m), known)[i].0.0 < unseen_ranges(entries(m), known)[j].0.0,
{
    lemma_entries_exist(m);
    lemma_ranges_ordered(entries(m), known, i, j);
}

proof fn lemma_ranges_ordered(s: Seq<(ActorId, u64)>, known: Map<u64, u64>, i: int, j: int)
    requires
        forall|a: int, b: int| 0 <= a < b < s.len() ==> (#[trigger] s[a]).0.0 < (#[trigger] s[b]).0.0,
        0 <= i < j < unseen_ranges(s, known).len(),
    ensures
        unseen_ranges(s, known)[i].0.0 < unseen_ranges(s, known)[j].0.0,
    decreases s.len(),
{
    let less = s.drop_last();
    let rest = unseen_ranges(less, known);
    assert forall|a: int, b: int| 0 <= a < b < less.len() implies (#[trigger] less[a]).0.0 < (#[trigger] less[b]).0.0 by {
        assert(less[a] == s[a] && less[b] == s[b]);
    }
    if j < rest.len() {
        lemma_ranges_ordered(less, known, i, j);
    } else {
        let k = lemma_range_source(less, known, i);
        assert(less[k] == s[k]);
        assert(s[k].0.0 < s[s.len() - 1].0.0);
    }
}

proof fn lemma_range_source(s: Seq<(ActorId, u64)>, known: Map<u64, u64>, i: int) -> (k: int)
    requires
        0 <= i < unseen_ranges(s, known).len(),
    ensures
        0 <= k < s.len(),
        s[k].0 == unseen_ranges(s, known)[i].0,
    decreases s.len(),
{
    let less = s.drop_last();
    if i < unseen_ranges(less, known).len() {
        let k = lemma_range_source(less, known, i);
        assert(less[k] == s[k]);
        k
    } else {
        s.len() - 1
    }
}

} // verus!
