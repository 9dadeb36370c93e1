//! Chunk ranges on the wire.

use iroh_rings::transfers::ranges::{
    decode_ranges_wire, encode_ranges_wire, missing_ranges, ChunkRanges, RangeDataTruncated,
};

fn assert_ranges_roundtrip(ranges: ChunkRanges) {
    let encoded = encode_ranges_wire(&ranges);
    let count = u32::from_le_bytes(encoded[..4].try_into().unwrap());
    let decoded = decode_ranges_wire(count, &encoded[4..]).unwrap();
    assert_eq!(decoded, ranges);
}

#[test]
fn encode_decode_empty_ranges_succeeds() {
    let ranges = ChunkRanges::from_ranges(&[]);
    let encoded = encode_ranges_wire(&ranges);
    assert_eq!(&encoded[..4], &0u32.to_le_bytes());
    let decoded = decode_ranges_wire(0, &[]).unwrap();
    assert_eq!(decoded, ChunkRanges::from_ranges(&[]));
}

#[test]
fn encode_decode_single_range_succeeds() {
    assert_ranges_roundtrip(ChunkRanges::from_ranges(&[(0, 10)]));
}

#[test]
fn encode_decode_multiple_ranges_succeeds() {
    assert_ranges_roundtrip(ChunkRanges::from_ranges(&[(0, 4), (10, 20)]));
}

#[test]
fn decode_truncated_data_errors() {
    let result = decode_ranges_wire(1, &[0u8; 8]);
    assert!(result.is_err());
}

#[test]
fn truncated_data_is_reported_with_its_index() {
    assert_eq!(decode_ranges_wire(1, &[0u8; 8]).unwrap_err(), RangeDataTruncated { index: 0 });
    assert_eq!(decode_ranges_wire(3, &[0u8; 40]).unwrap_err(), RangeDataTruncated { index: 2 });
    assert_eq!(decode_ranges_wire(u32::MAX, &[0u8; 16]).unwrap_err(), RangeDataTruncated { index: 1 });
    assert!(decode_ranges_wire(1, &[0u8; 40]).is_ok());
}

#[test]
fn ranges_have_the_documented_bytes() {
    let encoded = encode_ranges_wire(&ChunkRanges::from_ranges(&[(1, 258)]));
    assert_eq!(
        encoded,
        vec![1, 0, 0, 0, 1, 0, 0, 0, 0, 0, 0, 0, 2, 1, 0, 0, 0, 0, 0, 0]
    );
}

#[test]
fn overlapping_and_adjacent_ranges_are_merged() {
    let set = ChunkRanges::from_ranges(&[(5, 10), (0, 5), (8, 12), (20, 20), (9, 3)]);
    assert_eq!(set.ranges(), vec![(0, Some(12))]);
    let mut raw = Vec::new();
    for n in [5u64, 10, 0, 5, 8, 12] {
        raw.extend_from_slice(&n.to_le_bytes());
    }
    assert_eq!(decode_ranges_wire(3, &raw).unwrap(), set);
}

#[test]
fn what_is_missing_is_everything_else() {
    let missing = missing_ranges(ChunkRanges::from_ranges(&[(0, 4), (10, 20)]));
    assert_eq!(missing.ranges(), vec![(4, Some(10)), (20, None)]);
    let everything = missing_ranges(ChunkRanges::from_ranges(&[]));
    assert_eq!(everything.ranges(), vec![(0, None)]);
}

#[test]
fn an_unbounded_last_range_is_not_written() {
    let unbounded = missing_ranges(ChunkRanges::from_ranges(&[(0, 4), (10, 20)]));
    let encoded = encode_ranges_wire(&unbounded);
    assert_eq!(&encoded[..4], &1u32.to_le_bytes());
    assert_eq!(encoded.len(), 20);
}
