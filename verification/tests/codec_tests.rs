use metasteg::codec::{metasteg_decode, metasteg_encode};
use metasteg::oracle::create_oracle;
use std::collections::HashMap;

fn full_carrier() -> Vec<u8> {
    let mut carrier: Vec<u8> = vec![42, 42, 200, 0, 42];
    for v in (0..=255u8).rev() {
        carrier.push(v);
    }
    carrier
}

#[test]
fn encode_looks_each_byte_up_in_order() {
    let mut oracle: HashMap<u8, u32> = HashMap::new();
    oracle.insert(b'a', 10);
    oracle.insert(b'b', 4_000_000_000);
    oracle.insert(b'c', 0);
    assert_eq!(
        metasteg_encode(b"abcabba", &oracle),
        Ok(vec![10, 4_000_000_000, 0, 10, 4_000_000_000, 4_000_000_000, 10])
    );
}

#[test]
fn encode_of_empty_payload_is_empty() {
    let oracle: HashMap<u8, u32> = HashMap::new();
    assert_eq!(metasteg_encode(&[], &oracle), Ok(vec![]));
}

#[test]
fn encode_fails_with_the_first_byte_that_has_no_entry() {
    let mut oracle: HashMap<u8, u32> = HashMap::new();
    oracle.insert(1, 100);
    oracle.insert(2, 200);
    assert_eq!(metasteg_encode(&[1, 2, 9, 1, 8], &oracle), Err(9));
    assert_eq!(metasteg_encode(&[8, 9], &oracle), Err(8));
}

#[test]
fn encode_with_an_empty_oracle_fails_on_the_first_byte() {
    let oracle: HashMap<u8, u32> = HashMap::new();
    assert_eq!(metasteg_encode(&[77, 1], &oracle), Err(77));
}

#[test]
fn encode_keeps_the_length() {
    let oracle = create_oracle(&full_carrier()).unwrap();
    for n in [0usize, 1, 2, 17, 300] {
        let payload: Vec<u8> = (0..n).map(|i| (i * 7 % 256) as u8).collect();
        assert_eq!(metasteg_encode(&payload, &oracle).unwrap().len(), n);
    }
}

#[test]
fn decode_reads_the_carrier_at_each_offset() {
    let carrier: Vec<u8> = vec![10, 20, 30, 40];
    assert_eq!(metasteg_decode(&[3, 0, 0, 2, 1], &carrier), Ok(vec![40, 10, 10, 30, 20]));
}

#[test]
fn decode_of_no_offsets_is_empty() {
    assert_eq!(metasteg_decode(&[], &[1, 2, 3]), Ok(vec![]));
    assert_eq!(metasteg_decode(&[], &[]), Ok(vec![]));
}

#[test]
fn decode_refuses_the_offset_equal_to_the_length() {
    let carrier: Vec<u8> = vec![10, 20, 30, 40];
    assert_eq!(metasteg_decode(&[4], &carrier), Err(4));
}

#[test]
fn decode_accepts_the_last_offset() {
    let carrier: Vec<u8> = vec![10, 20, 30, 40];
    assert_eq!(metasteg_decode(&[3], &carrier), Ok(vec![40]));
}

#[test]
fn decode_boundary_holds_for_carriers_of_many_lengths() {
    for n in 1usize..=300 {
        let carrier: Vec<u8> = (0..n).map(|i| (i % 251) as u8).collect();
        assert_eq!(metasteg_decode(&[n as u32], &carrier), Err(n as u32));
        assert_eq!(metasteg_decode(&[n as u32 - 1], &carrier), Ok(vec![carrier[n - 1]]));
    }
}

#[test]
fn decode_over_an_empty_carrier_refuses_offset_zero() {
    assert_eq!(metasteg_decode(&[0], &[]), Err(0));
}

#[test]
fn decode_fails_with_the_first_offending_offset() {
    let carrier: Vec<u8> = vec![10, 20, 30, 40];
    assert_eq!(metasteg_decode(&[1, 9, 2, 4, 7], &carrier), Err(9));
    assert_eq!(metasteg_decode(&[u32::MAX, 9], &carrier), Err(u32::MAX));
}

#[test]
fn decode_keeps_the_length() {
    let carrier = full_carrier();
    for n in [0usize, 1, 5, 64, 1000] {
        let offsets: Vec<u32> = (0..n).map(|i| (i % carrier.len()) as u32).collect();
        assert_eq!(metasteg_decode(&offsets, &carrier).unwrap().len(), n);
    }
}

#[test]
fn round_trip_recovers_every_payload() {
    let carrier = full_carrier();
    let oracle = create_oracle(&carrier).unwrap();
    let payloads: Vec<Vec<u8>> = vec![
        vec![],
        vec![0],
        vec![255, 0, 255],
        b"The quick brown fox jumps over the lazy dog".to_vec(),
        (0..=255u8).collect(),
        (0..=255u8).rev().chain(0..=255u8).collect(),
    ];
    for payload in payloads {
        let encoded = metasteg_encode(&payload, &oracle).unwrap();
        assert_eq!(encoded.len(), payload.len());
        assert_eq!(metasteg_decode(&encoded, &carrier), Ok(payload));
    }
}

#[test]
fn encoded_offsets_are_first_occurrences() {
    let carrier = full_carrier();
    let oracle = create_oracle(&carrier).unwrap();
    let encoded = metasteg_encode(&[42, 200, 0, 255, 1], &oracle).unwrap();
    assert_eq!(encoded, vec![0, 2, 3, 5, 259]);
}
