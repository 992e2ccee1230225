//! Cursors of peers.

use vectis_crdt::awareness::{decode_cursor, encode_cursor, AwarenessStore, CursorState};
use vectis_crdt::float::F32;
use vectis_crdt::types::ActorId;

fn f(x: f32) -> F32 {
    F32 { bits: x.to_bits() }
}

fn g(x: F32) -> f32 {
    f32::from_bits(x.bits)
}

fn cursor(actor: u64, x: f32, y: f32, at: u64, color: u32) -> CursorState {
    CursorState::new(ActorId(actor), f(x), f(y), at, color)
}

#[test]
fn cursor_encode_decode_roundtrip() {
    let state = cursor(42, 100.5, 200.75, 1_700_000_000_000, 0xFF6600FF);
    let bytes = encode_cursor(&state);
    let decoded = decode_cursor(&bytes).unwrap();
    assert_eq!(decoded.actor.0, 42);
    assert!((g(decoded.x) - 100.5).abs() < 1e-6);
    assert!((g(decoded.y) - 200.75).abs() < 1e-6);
    assert_eq!(decoded.updated_at_ms, 1_700_000_000_000);
    assert_eq!(decoded.color, 0xFF6600FF);
}

#[test]
fn awareness_lww_ordering() {
    let mut store = AwarenessStore::new();
    let actor = ActorId(1);
    store.update(cursor(1, 10.0, 10.0, 1000, 0));
    store.update(cursor(1, 20.0, 20.0, 2000, 0));
    store.update(cursor(1, 5.0, 5.0, 500, 0));
    let s = store.get(actor).unwrap();
    assert!((g(s.x) - 20.0).abs() < 1e-6, "newer position must win");
}

#[test]
fn awareness_evict_stale() {
    let mut store = AwarenessStore::with_ttl(1000);
    store.update(cursor(1, 0.0, 0.0, 0, 0));
    store.update(cursor(2, 0.0, 0.0, 500, 0));
    let evicted = store.evict_stale(1100);
    assert_eq!(evicted, 1);
    assert_eq!(store.actor_count(), 1);
    assert!(store.get(ActorId(1)).is_none());
    assert!(store.get(ActorId(2)).is_some());
}

#[test]
fn awareness_bulk_encode_decode() {
    let mut store = AwarenessStore::new();
    store.update(cursor(1, 1.0, 1.0, 100, 0xFF0000FF));
    store.update(cursor(2, 2.0, 2.0, 200, 0x00FF00FF));
    let bulk = store.encode_all();
    assert_eq!(bulk.len(), 56); // 2 × 28 bytes

    let mut store2 = AwarenessStore::new();
    let updated = store2.apply_bulk(&bulk);
    assert_eq!(updated, 2);
    assert_eq!(store2.actor_count(), 2);
}

#[test]
fn cursor_layout_is_fixed() {
    let bytes = encode_cursor(&cursor(0x0102, 1.0, -2.0, 0x0304, 0x05060708));
    assert_eq!(bytes.len(), 28);
    assert_eq!(&bytes[0..8], &[2, 1, 0, 0, 0, 0, 0, 0]);
    assert_eq!(&bytes[8..12], &1.0f32.to_le_bytes());
    assert_eq!(&bytes[12..16], &(-2.0f32).to_le_bytes());
    assert_eq!(&bytes[16..24], &[4, 3, 0, 0, 0, 0, 0, 0]);
    assert_eq!(&bytes[24..28], &[8, 7, 6, 5]);
    assert!(decode_cursor(&bytes[..27]).is_none());
}

#[test]
fn only_newer_states_are_taken_over() {
    let mut store = AwarenessStore::new();
    assert!(store.update(cursor(1, 1.0, 0.0, 10, 0)));
    assert!(!store.update(cursor(1, 2.0, 0.0, 10, 0)));
    assert!(!store.update(cursor(1, 3.0, 0.0, 9, 0)));
    assert_eq!(g(store.get(ActorId(1)).unwrap().x), 1.0);
    assert!(store.update(cursor(1, 4.0, 0.0, 11, 0)));
    assert_eq!(g(store.get(ActorId(1)).unwrap().x), 4.0);
}

#[test]
fn cursors_of_different_times_commute() {
    let a = cursor(1, 1.0, 0.0, 10, 0);
    let b = cursor(1, 2.0, 0.0, 20, 0);
    let c = cursor(2, 3.0, 0.0, 10, 0);
    let mut forward = AwarenessStore::new();
    let mut backward = AwarenessStore::new();
    for s in [a, b, c] {
        forward.update(s);
    }
    for s in [c, b, a] {
        backward.update(s);
    }
    for actor in [ActorId(1), ActorId(2)] {
        assert_eq!(forward.get(actor), backward.get(actor));
    }
    assert_eq!(forward.get(ActorId(1)), Some(&b));
}

#[test]
fn eviction_at_the_limit() {
    let mut store = AwarenessStore::with_ttl(100);
    store.update(cursor(1, 0.0, 0.0, 50, 0));
    assert_eq!(store.evict_stale(150), 0);
    assert_eq!(store.evict_stale(151), 1);
    store.update(cursor(1, 0.0, 0.0, 500, 0));
    assert_eq!(store.evict_stale(10), 0); // a clock that runs behind
}

#[test]
fn removed_cursor_is_gone() {
    let mut store = AwarenessStore::new();
    let a = cursor(1, 1.0, 0.0, 10, 0);
    store.update(a);
    assert_eq!(store.remove(ActorId(2)), None);
    assert_eq!(store.remove(ActorId(1)), Some(a));
    assert_eq!(store.actor_count(), 0);
    assert_eq!(store.all(), vec![]);
}

#[test]
fn bulk_with_a_rest_and_old_states() {
    let mut store = AwarenessStore::new();
    store.update(cursor(1, 1.0, 0.0, 100, 0));
    let mut bulk = encode_cursor(&cursor(1, 9.0, 0.0, 50, 0));
    bulk.extend(encode_cursor(&cursor(2, 5.0, 0.0, 50, 0)));
    bulk.extend([1, 2, 3]);
    assert_eq!(store.apply_bulk(&bulk), 1);
    assert_eq!(g(store.get(ActorId(1)).unwrap().x), 1.0);
    assert_eq!(g(store.get(ActorId(2)).unwrap().x), 5.0);
}
