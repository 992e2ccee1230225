//! The last-writer-wins map, decimal and hexadecimal texts, comparison of floats.

use vectis_crdt::float::{F32, F64};
use vectis_crdt::metadata::{LwwMap, MetadataKey, MetadataValue};
use vectis_crdt::text::{decimal_text, hex_text};
use vectis_crdt::types::{ActorId, LamportTs, OpId};

fn at(lamport: u64) -> OpId {
    OpId { lamport: LamportTs(lamport), actor: ActorId(1) }
}

#[test]
fn the_last_write_wins() {
    let mut map: LwwMap<MetadataKey, MetadataValue> = LwwMap::new();
    let key = || MetadataKey::Custom("k".to_string());
    assert!(map.get(&key()).is_none());
    map.set(key(), MetadataValue::U32(1), at(5));
    map.set(key(), MetadataValue::U32(2), at(4));
    assert!(matches!(map.get(&key()), Some(MetadataValue::U32(1))));
    map.delete(key(), at(6));
    assert!(map.get(&key()).is_none());
    map.set(key(), MetadataValue::U32(3), at(6));
    assert!(map.get(&key()).is_none());
    map.set(key(), MetadataValue::U32(4), at(7));
    assert!(matches!(map.get(&key()), Some(MetadataValue::U32(4))));
    map.set(MetadataKey::GridEnabled, MetadataValue::Bool(true), at(1));
    let listed = map.iter();
    assert_eq!(listed.len(), 2);
    assert!(listed[1].1.is_some());
}

#[test]
fn numbers_in_decimal() {
    assert_eq!(decimal_text(0), "0");
    assert_eq!(decimal_text(907), "907");
    assert_eq!(decimal_text(u64::MAX), format!("{}", u64::MAX));
}

#[test]
fn bytes_in_hexadecimal() {
    assert_eq!(hex_text(&[0xde, 0xad, 0x01], 2), "de ad");
    assert_eq!(hex_text(&[0xde, 0xad, 0x01], 9), "de ad 01");
    assert_eq!(hex_text(&[], 3), "");
}

#[test]
fn floats_are_compared_as_numbers() {
    let list = [
        f32::NEG_INFINITY, -2.5, -1.0, -f32::MIN_POSITIVE, -0.0, 0.0, 1e-45, 0.5, 1.0, 2.0, f32::MAX,
        f32::INFINITY, f32::NAN, -f32::NAN,
    ];
    for a in list {
        for b in list {
            let (x, y) = (F32 { bits: a.to_bits() }, F32 { bits: b.to_bits() });
            assert_eq!(x.less(y), a < b);
            assert_eq!(x.at_most(y), a <= b);
            assert_eq!(x.same(y), a == b);
            let (p, q) = (F64 { bits: (a as f64).to_bits() }, F64 { bits: (b as f64).to_bits() });
            assert_eq!(p.less(q), (a as f64) < (b as f64));
            assert_eq!(p.is_nan(), a.is_nan());
        }
        assert_eq!(F32 { bits: a.to_bits() }.is_nan(), a.is_nan());
    }
    assert_eq!(F32::zero().bits, 0.0f32.to_bits());
    assert_eq!(F32::half().bits, 0.5f32.to_bits());
    assert_eq!(F32::one().bits, 1.0f32.to_bits());
    assert_eq!(F32::infinity().bits, f32::INFINITY.to_bits());
    assert_eq!(F32::neg_infinity().bits, f32::NEG_INFINITY.to_bits());
}

#[test]
fn the_latest_write_wins_in_any_order() {
    let writes = [(at(3), Some(1u32)), (at(5), None), (at(9), Some(4)), (at(7), Some(2))];
    for first in 0..4 {
        for step in [1, 3] {
            let mut map: LwwMap<MetadataKey, MetadataValue> = LwwMap::new();
            for i in 0..4 {
                let (ts, value) = writes[(first + step * i) % 4];
                match value {
                    Some(v) => map.set(MetadataKey::GridSpacing, MetadataValue::U32(v), ts),
                    None => map.delete(MetadataKey::GridSpacing, ts),
                }
            }
            assert!(matches!(map.get(&MetadataKey::GridSpacing), Some(MetadataValue::U32(4))));
            assert_eq!(map.entries[0].1.timestamp, at(9));
        }
    }
}
