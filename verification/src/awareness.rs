//! Ephemeral awareness state: where the cursors of the other actors are.
//!
//! Awareness is not replicated state: it is not stored, makes no operations
//! and is not replayed. Each actor sends its cursor now and then, the server
//! relays it, and what has not been heard of for a while is dropped.
//!
//! A cursor takes 28 bytes: actor (8), x (4), y (4), time (8) and color (4),
//! all little-endian.

use crate::encoding;
use crate::float::F32;
use crate::types::ActorId;
use crate::wire;
use std::collections::HashMap;
use vstd::prelude::*;

verus! {

/// The size of a cursor on the wire.
pub const CURSOR_BYTES: usize = 28;

/// How long a cursor is taken to be current, where nothing else is said.
pub const DEFAULT_TTL_MS: u64 = 30_000;

/// Where the cursor of one actor is.
#[derive(Debug, Clone, Copy, PartialEq, Eq, Structural)]
pub struct CursorState {
    pub actor: ActorId,
    /// Canvas coordinates, not those of the screen.
    pub x: F32,
    pub y: F32,
    /// When the state was captured, in milliseconds of Unix time.
    pub updated_at_ms: u64,
    /// The color in which to show the cursor, packed as `0xRRGGBBAA`.
    pub color: u32,
}

impl CursorState {
    pub fn new(actor: ActorId, x: F32, y: F32, updated_at_ms: u64, color: u32) -> (state: Self)
        ensures
            state == (CursorState { actor, x, y, updated_at_ms, color }),
    {
        CursorState { actor, x, y, updated_at_ms, color }
    }
}

/// The bytes of a cursor.
pub open spec fn cursor_bytes(c: CursorState) -> Seq<u8> {
    wire::le(c.actor.0 as nat, 8) + encoding::f32_bytes(c.x) + encoding::f32_bytes(c.y) + wire::le(
        c.updated_at_ms as nat,
        8,
    ) + wire::le(c.color as nat, 4)
}

/// The cursor in the first 28 bytes, if there are that many.
pub open spec fn parse_cursor(s: Seq<u8>) -> Option<CursorState> {
    if s.len() < CURSOR_BYTES {
        None
    } else {
        Some(
            CursorState {
                actor: ActorId(wire::le_value(s.take(8)) as u64),
                x: F32 { bits: wire::le_value(s.skip(8).take(4)) as u32 },
                y: F32 { bits: wire::le_value(s.skip(12).take(4)) as u32 },
                updated_at_ms: wire::le_value(s.skip(16).take(8)) as u64,
                color: wire::le_value(s.skip(24).take(4)) as u32,
            },
        )
    }
}

/// The cursors one after another.
pub open spec fn cursors_bytes(list: Seq<CursorState>) -> Seq<u8>
    decreases list.len(),
{
    if list.len() == 0 {
        seq![]
    } else {
        cursor_bytes(list[0]) + cursors_bytes(list.drop_first())
    }
}

/// Whether a state is taken over: it is the first of its actor, or newer than
/// the one that is there.
pub open spec fn accepted(m: Map<u64, CursorState>, state: CursorState) -> bool {
    !m.contains_key(state.actor.0) || state.updated_at_ms > m[state.actor.0].updated_at_ms
}

/// The cursors after a state has arrived.
pub open spec fn updated(m: Map<u64, CursorState>, state: CursorState) -> Map<u64, CursorState> {
    if accepted(m, state) {
        m.insert(state.actor.0, state)
    } else {
        m
    }
}

/// Whether a state is no older than `ttl` at the time `now`.
pub open spec fn fresh(state: CursorState, now: u64, ttl: u64) -> bool {
    (if now > state.updated_at_ms {
        now - state.updated_at_ms
    } else {
        0
    }) <= ttl
}

/// The cursors without those that have grown stale.
pub open spec fn unstale(m: Map<u64, CursorState>, now: u64, ttl: u64) -> Map<u64, CursorState> {
    m.restrict(m.dom().filter(|a: u64| fresh(m[a], now, ttl)))
}

/// The cursors and the number of accepted states after a buffer of cursors:
/// whole cursors are taken in order, what is left over is ignored.
pub open spec fn applied_bulk(m: Map<u64, CursorState>, s: Seq<u8>) -> (Map<u64, CursorState>, nat)
    decreases s.len(),
{
    match parse_cursor(s) {
        Some(state) => {
            let (rest, n) = applied_bulk(updated(m, state), s.skip(CURSOR_BYTES as int));
            (rest, n + if accepted(m, state) {
                1nat
            } else {
                0nat
            })
        },
        None => (m, 0),
    }
}

/// The list names each cursor of the map once, in some order.
pub open spec fn lists(m: Map<u64, CursorState>, list: Seq<CursorState>) -> bool {
    &&& forall|i: int, j: int|
        0 <= i < list.len() && 0 <= j < list.len() && (#[trigger] list[i]).actor == (#[trigger] list[j]).actor ==> i
            == j
    &&& forall|i: int|
        0 <= i < list.len() ==> m.contains_key((#[trigger] list[i]).actor.0) && m[list[i].actor.0] == list[i]
    &&& forall|a: u64| #[trigger]
        m.contains_key(a) ==> exists|i: int| 0 <= i < list.len() && (#[trigger] list[i]).actor.0 == a
    &&& list.len() == m.len()
}

/// Encodes a cursor.
pub fn encode_cursor(state: &CursorState) -> (out: Vec<u8>)
    ensures
        out@ == cursor_bytes(*state),
{
    let mut out: Vec<u8> = Vec::new();
    wire::encode_u64(state.actor.0, &mut out);
    wire::encode_u32(state.x.bits, &mut out);
    wire::encode_u32(state.y.bits, &mut out);
    wire::encode_u64(state.updated_at_ms, &mut out);
    wire::encode_u32(state.color, &mut out);
    proof {
        assert(out@ =~= cursor_bytes(*state));
    }
    out
}

fn decode_cursor_at(bytes: &[u8], at: usize) -> (state: Option<CursorState>)
    requires
        at <= bytes@.len(),
    ensures
        state == parse_cursor(bytes@.skip(at as int)),
{
    if bytes.len() - at < CURSOR_BYTES {
        return None;
    }
    proof {
        let s = bytes@.skip(at as int);
        assert(s.skip(8) =~= bytes@.skip(at + 8));
        assert(s.skip(12) =~= bytes@.skip(at + 12));
        assert(s.skip(16) =~= bytes@.skip(at + 16));
        assert(s.skip(24) =~= bytes@.skip(at + 24));
    }
    let (actor, _): (u64, usize) = wire::decode_u64_at(bytes, at)?;
    let (x, _): (u32, usize) = wire::decode_u32_at(bytes, at + 8)?;
    let (y, _): (u32, usize) = wire::decode_u32_at(bytes, at + 12)?;
    let (ts, _): (u64, usize) = wire::decode_u64_at(bytes, at + 16)?;
    let (color, _): (u32, usize) = wire::decode_u32_at(bytes, at + 24)?;
    Some(CursorState { actor: ActorId(actor), x: F32 { bits: x }, y: F32 { bits: y }, updated_at_ms: ts, color })
}

/// Decodes a cursor. `None` where there are fewer than 28 bytes.
pub fn decode_cursor(bytes: &[u8]) -> (state: Option<CursorState>)
    ensures
        state == parse_cursor(bytes@),
{
    proof {
        assert(bytes@.skip(0) =~= bytes@);
    }
    decode_cursor_at(bytes, 0)
}

/// Encodes cursors one after another.
pub fn encode_cursors(list: &[CursorState]) -> (out: Vec<u8>)
    ensures
        out@ == cursors_bytes(list@),
{
    let mut out: Vec<u8> = Vec::new();
    let mut i: usize = 0;
    proof {
        assert(list@.skip(0) =~= list@);
        assert(out@ + cursors_bytes(list@) =~= cursors_bytes(list@));
    }
    while i < list.len()
        invariant
            i <= list@.len(),
            out@ + cursors_bytes(list@.skip(i as int)) == cursors_bytes(list@),
        decreases list@.len() - i,
    {
        let ghost before = out@;
        let part = encode_cursor(&list[i]);
        wire::put_bytes(part.as_slice(), &mut out);
        proof {
            assert(list@.skip(i as int).drop_first() =~= list@.skip(i + 1));
            assert(before + cursors_bytes(list@.skip(i as int)) =~= out@ + cursors_bytes(list@.skip(i + 1)));
        }
        i += 1;
    }
    proof {
        assert(out@ =~= out@ + cursors_bytes(list@.skip(list@.len() as int)));
    }
    out
}

/// The latest known cursor of each actor.
#[derive(Debug)]
pub struct AwarenessStore {
    /// Keyed by actor.
    pub cursors: HashMap<u64, CursorState>,
    /// The age in milliseconds from which a state is stale.
    pub ttl_ms: u64,
}

impl View for AwarenessStore {
    type V = Map<u64, CursorState>;

    open spec fn view(&self) -> Map<u64, CursorState> {
        self.cursors@
    }
}

impl AwarenessStore {
    /// Each cursor stands under its own actor.
    pub open spec fn wf(&self) -> bool {
        forall|a: u64| #[trigger] self@.contains_key(a) ==> self@[a].actor.0 == a
    }

    /// An empty store whose states grow stale after half a minute.
    pub fn new() -> (store: Self)
        ensures
            store.wf(),
            store@ == Map::<u64, CursorState>::empty(),
            store.ttl_ms == DEFAULT_TTL_MS,
    {
        AwarenessStore { cursors: HashMap::new(), ttl_ms: DEFAULT_TTL_MS }
    }

    pub fn with_ttl(ttl_ms: u64) -> (store: Self)
        ensures
            store.wf(),
            store@ == Map::<u64, CursorState>::empty(),
            store.ttl_ms == ttl_ms,
    {
        AwarenessStore { cursors: HashMap::new(), ttl_ms }
    }

    /// Takes a state over if it is newer than the one that is there, and says
    /// whether it did.
    pub fn update(&mut self, state: CursorState) -> (changed: bool)
        requires
            old(self).wf(),
        ensures
            final(self).wf(),
            final(self)@ == updated(old(self)@, state),
            final(self).ttl_ms == old(self).ttl_ms,
            changed == accepted(old(self)@, state),
    {
        let accept = match self.cursors.get(&state.actor.0) {
            Some(known) => state.updated_at_ms > known.updated_at_ms,
            None => true,
        };
        if accept {
            self.cursors.insert(state.actor.0, state);
            proof {
                assert forall|a: u64| #[trigger] self@.contains_key(a) implies self@[a].actor.0 == a by {
                    assert(a == state.actor.0 || old(self)@.contains_key(a));
                }
            }
        }
        accept
    }

    /// Forgets an actor, as when it disconnects.
    pub fn remove(&mut self, actor: ActorId) -> (state: Option<CursorState>)
        requires
            old(self).wf(),
        ensures
            final(self).wf(),
            final(self)@ == old(self)@.remove(actor.0),
            final(self).ttl_ms == old(self).ttl_ms,
            state == old(self)@.get(actor.0),
    {
        self.cursors.remove(&actor.0)
    }

    pub fn get(&self, actor: ActorId) -> (state: Option<&CursorState>)
        ensures
            match state {
                Some(c) => self@.contains_key(actor.0) && *c == self@[actor.0],
                None => !self@.contains_key(actor.0),
            },
    {
        self.cursors.get(&actor.0)
    }

    /// All known states, stale ones included, in no particular order.
    pub fn all(&self) -> (list: Vec<CursorState>)
        requires
            self.wf(),
        ensures
            lists(self@, list@),
    {
        let mut list: Vec<CursorState> = Vec::new();
        let pairs = self.cursors.iter();
        let ghost all = vstd::std_specs::iter::IteratorSpec::remaining(&pairs);
        for kv in it: pairs
            invariant
                it.seq() == all,
                list@.len() == it.index(),
                forall|i: int| 0 <= i < list@.len() ==> #[trigger] list@[i] == *all[i].1,
        {
            list.push(*kv.1);
        }
        proof {
            assert forall|i: int| 0 <= i < list@.len() implies self@.contains_key((#[trigger] list@[i]).actor.0)
                && self@[list@[i].actor.0] == list@[i] && *all[i].0 == list@[i].actor.0 by {
                assert(self@.contains_key(*all[i].0));
            }
            assert forall|i: int, j: int|
                0 <= i < list@.len() && 0 <= j < list@.len() && (#[trigger] list@[i]).actor == (
                #[trigger] list@[j]).actor implies i == j by {
                assert(all[i] == all[j]);
            }
            assert forall|a: u64| #[trigger] self@.contains_key(a) implies exists|i: int|
                0 <= i < list@.len() && (#[trigger] list@[i]).actor.0 == a by {
                assert(all.contains((&a, &self@[a])));
                let i = choose|i: int| 0 <= i < all.len() && all[i] == (&a, &self@[a]);
                assert(list@[i] == self@[a]);
            }
        }
        list
    }

    /// Drops the states that are stale at the time `now_ms`, and says how many.
    pub fn evict_stale(&mut self, now_ms: u64) -> (evicted: usize)
        requires
            old(self).wf(),
        ensures
            final(self).wf(),
            final(self)@ == unstale(old(self)@, now_ms, old(self).ttl_ms),
            final(self).ttl_ms == old(self).ttl_ms,
            evicted == old(self)@.len() - final(self)@.len(),
    {
        let list = self.all();
        let ghost before = self@;
        let mut i: usize = 0;
        while i < list.len()
            invariant
                i <= list@.len(),
                lists(before, list@),
                self.ttl_ms == old(self).ttl_ms,
                before == old(self)@,
                old(self).wf(),
                forall|a: u64| #[trigger] self@.contains_key(a) ==> before.contains_key(a) && self@[a] == before[a],
                forall|a: u64| #[trigger]
                    before.contains_key(a) && fresh(before[a], now_ms, self.ttl_ms) ==> self@.contains_key(a),
                forall|j: int|
                    0 <= j < i && !fresh(#[trigger] list@[j], now_ms, self.ttl_ms) ==> !self@.contains_key(
                        list@[j].actor.0,
                    ),
            decreases list@.len() - i,
        {
            let state = list[i];
            let age: u64 = if now_ms > state.updated_at_ms {
                now_ms - state.updated_at_ms
            } else {
                0
            };
            if age > self.ttl_ms {
                let ghost prior = self@;
                self.cursors.remove(&state.actor.0);
                proof {
                    assert forall|a: u64| #[trigger] self@.contains_key(a) implies before.contains_key(a) && self@[a]
                        == before[a] by {
                        assert(prior.contains_key(a));
                    }
                }
            }
            i += 1;
        }
        proof {
            let after = unstale(before, now_ms, self.ttl_ms);
            assert forall|a: u64| self@.contains_key(a) <==> #[trigger] after.contains_key(a) by {
                if self@.contains_key(a) {
                    let j = choose|j: int| 0 <= j < list@.len() && (#[trigger] list@[j]).actor.0 == a;
                    assert(list@[j] == before[a]);
                }
            }
            assert(self@ =~= after);
            assert(self@.dom().subset_of(before.dom()));
            vstd::set_lib::lemma_len_subset(self@.dom(), before.dom());
        }
        list.len() - self.cursors.len()
    }

    /// The number of actors with a known state.
    pub fn actor_count(&self) -> (n: usize)
        ensures
            n == self@.len(),
    {
        self.cursors.len()
    }

    /// All known states as one buffer, in no particular order.
    pub fn encode_all(&self) -> (out: Vec<u8>)
        requires
            self.wf(),
        ensures
            exists|list: Seq<CursorState>| lists(self@, list) && out@ == cursors_bytes(list),
    {
        let list = self.all();
        encode_cursors(list.as_slice())
    }

    /// Takes over a buffer of cursors, and says how many changed something.
    pub fn apply_bulk(&mut self, data: &[u8]) -> (changed: usize)
        requires
            old(self).wf(),
        ensures
            final(self).wf(),
            final(self).ttl_ms == old(self).ttl_ms,
            (final(self)@, changed as nat) == applied_bulk(old(self)@, data@),
    {
        let mut changed: usize = 0;
        let mut at: usize = 0;
        proof {
            assert(data@.skip(0) =~= data@);
        }
        while data.len() - at >= CURSOR_BYTES
            invariant
                self.wf(),
                self.ttl_ms == old(self).ttl_ms,
                at <= data@.len(),
                changed <= at,
                ({
                    let (rest, n) = applied_bulk(self@, data@.skip(at as int));
                    (rest, (n + changed as nat)) == applied_bulk(old(self)@, data@)
                }),
            decreases data@.len() - at,
        {
            proof {
                assert(data@.skip(at as int).skip(CURSOR_BYTES as int) =~= data@.skip(at + CURSOR_BYTES));
            }
            match decode_cursor_at(data, at) {
                Some(state) => {
                    if self.update(state) {
                        changed = changed + 1;
                    }
                },
                None => {},
            }
            at = at + CURSOR_BYTES;
        }
        changed
    }
}

impl Default for AwarenessStore {
    fn default() -> (store: Self)
        ensures
            store.wf(),
            store@ == Map::<u64, CursorState>::empty(),
            store.ttl_ms == DEFAULT_TTL_MS,
    {
        AwarenessStore::new()
    }
}

proof fn lemma_cursor_parts(c: CursorState, rest: Seq<u8>)
    ensures
        ({
            let s = cursor_bytes(c) + rest;
            &&& cursor_bytes(c).len() == CURSOR_BYTES
            &&& parse_cursor(s) == Some(c)
            &&& s.skip(CURSOR_BYTES as int) == rest
        }),
{
    let a = wire::le(c.actor.0 as nat, 8);
    let b = wire::le(c.x.bits as nat, 4);
    let d = wire::le(c.y.bits as nat, 4);
    let e = wire::le(c.updated_at_ms as nat, 8);
    let f = wire::le(c.color as nat, 4);
    let s = cursor_bytes(c) + rest;
    wire::lemma_spans();
    wire::lemma_le_round_trip(c.actor.0 as nat, 8, b + d + e + f + rest);
    wire::lemma_le_round_trip(c.x.bits as nat, 4, d + e + f + rest);
    wire::lemma_le_round_trip(c.y.bits as nat, 4, e + f + rest);
    wire::lemma_le_round_trip(c.updated_at_ms as nat, 8, f + rest);
    wire::lemma_le_round_trip(c.color as nat, 4, rest);
    assert(s =~= a + (b + d + e + f + rest));
    assert(s.skip(8) =~= b + (d + e + f + rest));
    assert(s.skip(12) =~= d + (e + f + rest));
    assert(s.skip(16) =~= e + (f + rest));
    assert(s.skip(24) =~= f + rest);
    assert(s.skip(28) =~= rest);
}

/// A cursor takes 28 bytes and is decoded again.
pub proof fn law_cursor_round_trip(c: CursorState)
    ensures
        cursor_bytes(c).len() == CURSOR_BYTES,
        parse_cursor(cursor_bytes(c)) == Some(c),
{
    lemma_cursor_parts(c, seq![]);
    assert(cursor_bytes(c) + Seq::<u8>::empty() =~= cursor_bytes(c));
}

/// Whether the list has a cursor of the actor.
spec fn listed(list: Seq<CursorState>, a: u64) -> bool {
    exists|i: int| 0 <= i < list.len() && (#[trigger] list[i]).actor.0 == a
}

proof fn lemma_bulk(m: Map<u64, CursorState>, list: Seq<CursorState>)
    requires
        forall|i: int, j: int|
            0 <= i < list.len() && 0 <= j < list.len() && (#[trigger] list[i]).actor == (#[trigger] list[j]).actor
                ==> i == j,
        forall|i: int| 0 <= i < list.len() ==> !m.contains_key((#[trigger] list[i]).actor.0),
    ensures
        applied_bulk(m, cursors_bytes(list)).1 == list.len(),
        forall|a: u64| #[trigger]
            applied_bulk(m, cursors_bytes(list)).0.contains_key(a) <==> m.contains_key(a) || listed(list, a),
        forall|a: u64| m.contains_key(a) ==> #[trigger] applied_bulk(m, cursors_bytes(list)).0[a] == m[a],
        forall|i: int|
            0 <= i < list.len() ==> applied_bulk(m, cursors_bytes(list)).0[(#[trigger] list[i]).actor.0] == list[i],
    decreases list.len(),
{
    if list.len() > 0 {
        let c = list[0];
        let tail = list.drop_first();
        let more = m.insert(c.actor.0, c);
        lemma_cursor_parts(c, cursors_bytes(tail));
        assert forall|i: int, j: int|
            0 <= i < tail.len() && 0 <= j < tail.len() && (#[trigger] tail[i]).actor == (#[trigger] tail[j]).actor implies
            i == j by {
            assert(tail[i] == list[i + 1] && tail[j] == list[j + 1]);
        }
        assert forall|i: int| 0 <= i < tail.len() implies !more.contains_key((#[trigger] tail[i]).actor.0) by {
            assert(tail[i] == list[i + 1]);
            if tail[i].actor == c.actor {
                assert(list[i + 1].actor == list[0].actor);
            }
        }
        lemma_bulk(more, tail);
        let r = applied_bulk(more, cursors_bytes(tail)).0;
        assert(updated(m, c) == more);
        assert forall|a: u64| #[trigger] r.contains_key(a) <==> m.contains_key(a) || listed(list, a) by {
            if listed(tail, a) {
                let i = choose|i: int| 0 <= i < tail.len() && (#[trigger] tail[i]).actor.0 == a;
                assert(list[i + 1].actor.0 == a);
            }
            if listed(list, a) {
                let i = choose|i: int| 0 <= i < list.len() && (#[trigger] list[i]).actor.0 == a;
                if i > 0 {
                    assert(tail[i - 1].actor.0 == a);
                }
            }
            assert(list[0] == c);
        }
        assert forall|i: int| 0 <= i < list.len() implies r[(#[trigger] list[i]).actor.0] == list[i] by {
            if i > 0 {
                assert(tail[i - 1] == list[i]);
            } else {
                assert(more.contains_key(c.actor.0));
            }
        }
        assert forall|a: u64| m.contains_key(a) implies #[trigger] r[a] == m[a] by {
            assert(more.contains_key(a));
            assert(a != c.actor.0);
        }
    }
}

/// A store that takes over the buffer of another, and knows nothing yet, knows
/// what that one knows.
pub proof fn law_bulk_round_trip(m: Map<u64, CursorState>, list: Seq<CursorState>)
    requires
        lists(m, list),
    ensures
        applied_bulk(Map::empty(), cursors_bytes(list)) == (m, list.len()),
{
    lemma_bulk(Map::empty(), list);
    let r = applied_bulk(Map::empty(), cursors_bytes(list)).0;
    assert forall|a: u64| #[trigger] r.contains_key(a) <==> m.contains_key(a) by {
        if listed(list, a) {
            let i = choose|i: int| 0 <= i < list.len() && (#[trigger] list[i]).actor.0 == a;
            assert(m.contains_key(list[i].actor.0));
        }
    }
    assert forall|a: u64| #[trigger] r.contains_key(a) implies r[a] == m[a] by {
        let i = choose|i: int| 0 <= i < list.len() && (#[trigger] list[i]).actor.0 == a;
        assert(r[list[i].actor.0] == list[i]);
    }
    assert(r =~= m);
}

/// Two states that were not captured at the same time, or are of different
/// actors, leave the same cursors in either order.
pub proof fn law_updates_commute(m: Map<u64, CursorState>, a: CursorState, b: CursorState)
    requires
        a.actor != b.actor || a.updated_at_ms != b.updated_at_ms || a == b,
    ensures
        updated(updated(m, a), b) == updated(updated(m, b), a),
{
    assert(updated(updated(m, a), b) =~= updated(updated(m, b), a));
}

/// A cursor is evicted exactly when it is older than the age limit.
pub proof fn law_stale_cursors_go(m: Map<u64, CursorState>, now: u64, ttl: u64, actor: u64)
    requires
        m.contains_key(actor),
    ensures
        unstale(m, now, ttl).contains_key(actor) <==> now <= m[actor].updated_at_ms + ttl,
        unstale(m, now, ttl).contains_key(actor) ==> unstale(m, now, ttl)[actor] == m[actor],
{
}

/// The newest state of a cursor wins: an older one, or one of the same time,
/// changes nothing, and a newer one, or the first of its actor, is taken over
/// as it is. The cursors of other actors stay.
pub proof fn law_newest_cursor_wins(m: Map<u64, CursorState>, state: CursorState, other: u64)
    ensures
        ({
            let now = updated(m, state);
            let a = state.actor.0;
            &&& now.contains_key(a)
            &&& !m.contains_key(a) || state.updated_at_ms > m[a].updated_at_ms ==> now[a] == state && accepted(m, state)
            &&& m.contains_key(a) && state.updated_at_ms <= m[a].updated_at_ms ==> now[a] == m[a] && !accepted(m, state)
            &&& other != a ==> now.contains_key(other) == m.contains_key(other)
            &&& other != a && m.contains_key(other) ==> now[other] == m[other]
        }),
{
}

/// A buffer of cursors is taken in from front to back, 28 bytes to a cursor;
/// what is left over at the end is not looked at. The count is that of the
/// states that were taken over.
pub proof fn law_bulk_is_taken_in_one_by_one(m: Map<u64, CursorState>, state: CursorState, rest: Seq<u8>)
    ensures
        ({
            let (now, n) = applied_bulk(m, cursor_bytes(state) + rest);
            let (then, k) = applied_bulk(updated(m, state), rest);
            now == then && n == k + if accepted(m, state) {
                1int
            } else {
                0
            }
        }),
        rest.len() < 28 ==> applied_bulk(m, rest) == (m, 0nat),
{
    lemma_cursor_head(state, rest);
}

proof fn lemma_cursor_head(state: CursorState, rest: Seq<u8>)
    ensures
        parse_cursor(cursor_bytes(state) + rest) == Some(state),
        (cursor_bytes(state) + rest).skip(CURSOR_BYTES as int) == rest,
{
    law_cursor_round_trip(state);
    let b = cursor_bytes(state);
    let s = b + rest;
    assert(s.take(8) =~= b.take(8));
    assert(s.skip(8).take(4) =~= b.skip(8).take(4));
    assert(s.skip(12).take(4) =~= b.skip(12).take(4));
    assert(s.skip(16).take(8) =~= b.skip(16).take(8));
    assert(s.skip(24).take(4) =~= b.skip(24).take(4));
    assert(s.skip(CURSOR_BYTES as int) =~= rest);
}

/// The bytes of a cursor: actor, two coordinates, time and colour, one behind
/// the other, each with its lowest byte first.
pub proof fn law_cursor_layout(c: CursorState)
    ensures
        wire::le_value(cursor_bytes(c).subrange(0, 8)) == c.actor.0,
        wire::le_value(cursor_bytes(c).subrange(8, 12)) == c.x.bits,
        wire::le_value(cursor_bytes(c).subrange(12, 16)) == c.y.bits,
        wire::le_value(cursor_bytes(c).subrange(16, 24)) == c.updated_at_ms,
        wire::le_value(cursor_bytes(c).subrange(24, 28)) == c.color,
{
    let b = cursor_bytes(c);
    wire::lemma_spans();
    wire::lemma_le_round_trip(c.actor.0 as nat, 8, seq![]);
    wire::lemma_le_round_trip(c.x.bits as nat, 4, seq![]);
    wire::lemma_le_round_trip(c.y.bits as nat, 4, seq![]);
    wire::lemma_le_round_trip(c.updated_at_ms as nat, 8, seq![]);
    wire::lemma_le_round_trip(c.color as nat, 4, seq![]);
    assert(b.subrange(0, 8) =~= wire::le(c.actor.0 as nat, 8));
    assert(b.subrange(8, 12) =~= wire::le(c.x.bits as nat, 4));
    assert(b.subrange(12, 16) =~= wire::le(c.y.bits as nat, 4));
    assert(b.subrange(16, 24) =~= wire::le(c.updated_at_ms as nat, 8));
    assert(b.subrange(24, 28) =~= wire::le(c.color as nat, 4));
    lemma_le_whole(c.actor.0 as nat, 8);
    lemma_le_whole(c.x.bits as nat, 4);
    lemma_le_whole(c.y.bits as nat, 4);
    lemma_le_whole(c.updated_at_ms as nat, 8);
    lemma_le_whole(c.color as nat, 4);
}

proof fn lemma_le_whole(v: nat, width: nat)
    requires
        v < wire::span(width),
    ensures
        wire::le_value(wire::le(v, width)) == v,
{
    wire::lemma_le_round_trip(v, width, seq![]);
    let b = wire::le(v, width);
    assert((b + Seq::<u8>::empty()).take(width as int) =~= b);
}

/// Evicting cursors keeps the states of those that stay, and brings none in.
pub proof fn law_evicting_brings_nothing_in(m: Map<u64, CursorState>, now: u64, ttl: u64, actor: u64)
    ensures
        unstale(m, now, ttl).contains_key(actor) ==> m.contains_key(actor),
{
}

} // verus!
