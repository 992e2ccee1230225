//! Identifiers, clocks and vector clocks.

use vectis_crdt::types::{ActorId, LamportTs, OpId, VectorClock};

fn id(lamport: u64, actor: u64) -> OpId {
    OpId { lamport: LamportTs(lamport), actor: ActorId(actor) }
}

fn clock(entries: &[(u64, u64)]) -> VectorClock {
    let mut vc = VectorClock::new();
    for &(actor, ts) in entries {
        vc.advance(ActorId(actor), ts);
    }
    vc
}

#[test]
fn lamport_tick() {
    let mut ts = LamportTs(0);
    let t1 = ts.tick();
    assert_eq!(t1.0, 1);
    let t2 = ts.tick();
    assert_eq!(t2.0, 2);
}

#[test]
fn opid_ordering() {
    let a = id(5, 1);
    let b = id(5, 2);
    let c = id(6, 1);
    assert!(b > a); // same lamport, higher actor wins
    assert!(c > b); // higher lamport wins
}

#[test]
fn vector_clock_dominates() {
    let mut vc1 = VectorClock::new();
    vc1.advance(ActorId(1), 5);
    vc1.advance(ActorId(2), 3);

    let mut vc2 = VectorClock::new();
    vc2.advance(ActorId(1), 4);
    vc2.advance(ActorId(2), 3);

    assert!(vc1.dominates(&vc2));
    assert!(!vc2.dominates(&vc1));
}

#[test]
fn lamport_merge_takes_the_later_time() {
    let mut ts = LamportTs(7);
    ts.merge(LamportTs(3));
    assert_eq!(ts.0, 7);
    ts.merge(LamportTs(9));
    assert_eq!(ts.0, 9);
}

#[test]
fn zero_identifier() {
    assert!(OpId::zero().is_zero());
    assert!(!id(0, 1).is_zero());
    assert!(!id(1, 0).is_zero());
    assert_eq!(OpId::zero(), id(0, 0));
}

#[test]
fn identifier_order_is_total() {
    let ids = [id(0, 0), id(0, 5), id(1, 0), id(1, u64::MAX), id(2, 1), id(u64::MAX, 0)];
    for (i, a) in ids.iter().enumerate() {
        for (j, b) in ids.iter().enumerate() {
            assert_eq!(a < b, i < j);
            assert_eq!(a == b, i == j);
            assert_eq!(a.cmp(b), i.cmp(&j));
            assert_eq!(a.key() == b.key(), i == j);
        }
    }
}

#[test]
fn advancing_never_moves_back() {
    let mut vc = clock(&[(1, 5)]);
    vc.advance(ActorId(1), 3);
    assert_eq!(vc.get(ActorId(1)), 5);
    vc.advance(ActorId(1), 8);
    assert_eq!(vc.get(ActorId(1)), 8);
    assert_eq!(vc.get(ActorId(2)), 0);
    assert_eq!(vc.len(), 1);
}

#[test]
fn entries_come_in_actor_order() {
    let vc = clock(&[(9, 1), (2, 7), (5, 3)]);
    assert_eq!(vc.iter(), vec![(ActorId(2), 7), (ActorId(5), 3), (ActorId(9), 1)]);
}

#[test]
fn merging_is_commutative_associative_and_idempotent() {
    let a = clock(&[(1, 5), (2, 1)]);
    let b = clock(&[(2, 4), (3, 2)]);
    let c = clock(&[(1, 6)]);
    let mut ab = a.clone();
    ab.merge(&b);
    let mut ba = b.clone();
    ba.merge(&a);
    assert_eq!(ab.iter(), ba.iter());
    assert_eq!(ab.iter(), vec![(ActorId(1), 5), (ActorId(2), 4), (ActorId(3), 2)]);
    let mut ab_c = ab.clone();
    ab_c.merge(&c);
    let mut bc = b.clone();
    bc.merge(&c);
    let mut a_bc = a.clone();
    a_bc.merge(&bc);
    assert_eq!(ab_c.iter(), a_bc.iter());
    let mut aa = a.clone();
    aa.merge(&a);
    assert_eq!(aa.iter(), a.iter());
}

#[test]
fn merged_clock_is_the_least_bound() {
    let a = clock(&[(1, 5), (2, 1)]);
    let b = clock(&[(2, 4)]);
    let mut m = a.clone();
    m.merge(&b);
    assert!(m.dominates(&a));
    assert!(m.dominates(&b));
    let above = clock(&[(1, 9), (2, 4)]);
    assert!(above.dominates(&m));
}

#[test]
fn difference_gives_the_unseen_ranges() {
    let mine = clock(&[(1, 5), (2, 3), (4, 8)]);
    let theirs = clock(&[(1, 2), (2, 3)]);
    assert_eq!(mine.diff(&theirs), vec![(ActorId(1), 3, 5), (ActorId(4), 1, 8)]);
    assert_eq!(theirs.diff(&mine), vec![]);
    assert!(mine.dominates(&theirs));
    assert!(!theirs.dominates(&mine));
}
