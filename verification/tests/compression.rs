//! Compression of large payloads.

use vectis_crdt::compression::{
    compress, compress_with_stats, decompress, decompression_result, is_compression_available, is_decompressible,
    COMPRESS_THRESHOLD,
};
use vectis_crdt::float::F64;

#[test]
fn compress_below_threshold_is_passthrough() {
    let data = vec![0u8; COMPRESS_THRESHOLD - 1];
    let out = compress(&data);
    assert_eq!(out, data);
}

#[test]
fn compression_available_reflects_feature() {
    let _ = is_compression_available();
}

#[test]
fn compress_decompress_roundtrip() {
    let data: Vec<u8> = (0u8..=255).cycle().take(1024).collect();
    let compressed = compress(&data);
    let decompressed = decompress(&compressed).unwrap();
    assert_eq!(decompressed, data);
}

#[test]
fn threshold_itself_is_compressed() {
    let data = vec![7u8; COMPRESS_THRESHOLD];
    let out = compress(&data);
    assert!(out.len() < data.len());
    assert_eq!(&out[..4], &(COMPRESS_THRESHOLD as u32).to_le_bytes());
    assert!(is_decompressible(&out));
    assert_eq!(decompress(&out).unwrap(), data);
}

#[test]
fn incompressible_payload_survives() {
    let mut x: u32 = 12345;
    let data: Vec<u8> = (0..5000)
        .map(|_| {
            x = x.wrapping_mul(1664525).wrapping_add(1013904223);
            (x >> 24) as u8
        })
        .collect();
    let out = compress(&data);
    assert!(out.len() <= data.len() * 110 / 100 + 24);
    assert_eq!(decompress(&out).unwrap(), data);
}

#[test]
fn long_runs_survive() {
    for byte in [0u8, 255] {
        let data = vec![byte; 1_000_000];
        let out = compress(&data);
        assert!(out.len() < 10_000);
        assert!(is_decompressible(&out));
        assert_eq!(decompress(&out).unwrap(), data);
    }
}

#[test]
fn damaged_payload_is_an_error() {
    // One literal byte is announced more than there are.
    let mut bytes = vec![10, 0, 0, 0, 0xf0, 255, 5];
    bytes.extend(vec![1u8; 274]);
    let error = decompress(&bytes).unwrap_err();
    assert_eq!(error.to_string(), "decoding error: lz4 decompress: literal is out of bounds of the input");
}

#[test]
fn outcome_of_the_decompressor_is_handed_on() {
    assert_eq!(decompression_result(&[9], Ok(vec![1, 2])).unwrap(), vec![1, 2]);
    assert_eq!(decompression_result(&[9; 199], Err("why".to_string())).unwrap(), vec![9; 199]);
    let error = decompression_result(&[9; 200], Err("why".to_string())).unwrap_err();
    assert_eq!(error.to_string(), "decoding error: lz4 decompress: why");
}

#[test]
fn payloads_that_were_not_compressed_come_back() {
    for data in [vec![], vec![1, 2], b"a short text".to_vec(), vec![200u8; 150]] {
        assert_eq!(decompress(&compress(&data)).unwrap(), data);
    }
    // Short bytes that are a block themselves cannot be told apart.
    assert_eq!(decompress(&compress(&[1, 0, 0, 0, 0x10, b'a'])).unwrap(), b"a");
}

#[test]
fn runs_too_long_to_decompress_are_seen() {
    let mut bytes = vec![0u8; 10];
    bytes.extend(vec![255u8; 16_843_009]);
    assert!(!is_decompressible(&bytes));
    bytes[11_000_000] = 0;
    assert!(is_decompressible(&bytes));
    assert!(is_decompressible(&[]));
}

#[test]
fn stats_give_both_sizes() {
    let divide = |a: usize, b: usize| F64 { bits: (a as f64 / b as f64).to_bits() };
    let data = vec![1u8; 1000];
    let (out, stats) = compress_with_stats(&data);
    assert_eq!(stats.original_bytes, 1000);
    assert_eq!(stats.compressed_bytes, out.len());
    assert_eq!(f64::from_bits(stats.ratio(&divide).bits), out.len() as f64 / 1000.0);
    let (_, empty) = compress_with_stats(&[]);
    assert_eq!(f64::from_bits(empty.ratio(&divide).bits), 1.0);
}
