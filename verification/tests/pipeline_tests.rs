use metasteg::codec::{metasteg_decode, metasteg_encode};
use metasteg::framing::{deserialize_offsets, serialize_offsets};
use metasteg::oracle::create_oracle;
use metasteg::pipeline::{decode_payload, encode_payload, MetastegError};

fn identity_carrier() -> Vec<u8> {
    (0..=255u8).collect()
}

#[test]
fn scenario_abc_over_the_identity_carrier() {
    let carrier = identity_carrier();
    let oracle = create_oracle(&carrier).unwrap();
    for v in 0..=255u8 {
        assert_eq!(oracle[&v], v as u32);
    }
    let encoded = metasteg_encode(&[65, 66, 67], &oracle).unwrap();
    assert_eq!(encoded, vec![65, 66, 67]);
    let serialized = serialize_offsets(&encoded);
    assert_eq!(serialized, vec![0, 0, 0, 0x41, 0, 0, 0, 0x42, 0, 0, 0, 0x43]);
    let offsets = deserialize_offsets(&serialized).unwrap();
    assert_eq!(metasteg_decode(&offsets, &carrier), Ok(vec![65, 66, 67]));
}

#[test]
fn scenario_abc_through_the_whole_transforms() {
    let carrier = identity_carrier();
    let wire = encode_payload(b"ABC", &carrier).unwrap();
    assert_eq!(wire, vec![0, 0, 0, 0x41, 0, 0, 0, 0x42, 0, 0, 0, 0x43]);
    assert_eq!(decode_payload(&wire, &carrier), Ok(b"ABC".to_vec()));
}

#[test]
fn encode_payload_fails_with_unrepresentable_byte() {
    let carrier: Vec<u8> = (0..=255u8).filter(|b| *b != 0x7f && *b != 0x80).collect();
    assert_eq!(encode_payload(b"abc", &carrier), Err(MetastegError::UnrepresentableByte(0x7f)));
    assert_eq!(encode_payload(&[], &[]), Err(MetastegError::UnrepresentableByte(0)));
}

#[test]
fn encode_payload_does_not_depend_on_the_payload_when_the_carrier_is_incomplete() {
    let carrier: Vec<u8> = vec![0, 1, 2];
    assert_eq!(encode_payload(&[0, 1, 2], &carrier), Err(MetastegError::UnrepresentableByte(3)));
}

#[test]
fn decode_payload_fails_with_invalid_serialized_length() {
    let carrier = identity_carrier();
    assert_eq!(
        decode_payload(&[0, 0, 0, 1, 0], &carrier),
        Err(MetastegError::InvalidSerializedLength(5))
    );
    assert_eq!(decode_payload(&[0, 0, 0], &[]), Err(MetastegError::InvalidSerializedLength(3)));
}

#[test]
fn decode_payload_checks_the_length_before_the_offsets() {
    let carrier: Vec<u8> = vec![1, 2];
    assert_eq!(
        decode_payload(&[255, 255, 255, 255, 0, 0], &carrier),
        Err(MetastegError::InvalidSerializedLength(6))
    );
}

#[test]
fn decode_payload_fails_with_invalid_offset() {
    let carrier = identity_carrier();
    assert_eq!(
        decode_payload(&[0, 0, 0, 5, 0, 0, 1, 0, 0, 0, 0, 6], &carrier),
        Err(MetastegError::InvalidOffset(256))
    );
    assert_eq!(
        decode_payload(&[0, 0, 0, 255], &carrier),
        Ok(vec![255])
    );
}

#[test]
fn decode_payload_of_nothing_is_empty() {
    assert_eq!(decode_payload(&[], &identity_carrier()), Ok(vec![]));
    assert_eq!(decode_payload(&[], &[]), Ok(vec![]));
}

#[test]
fn whole_round_trip_over_a_shuffled_carrier() {
    let mut carrier: Vec<u8> = Vec::new();
    for i in 0..1024usize {
        carrier.push((i * 167 % 256) as u8);
    }
    let payload: Vec<u8> = (0..5000usize).map(|i| (i * i % 256) as u8).collect();
    let wire = encode_payload(&payload, &carrier).unwrap();
    assert_eq!(wire.len(), 4 * payload.len());
    assert_eq!(decode_payload(&wire, &carrier), Ok(payload));
}

#[test]
fn wire_form_is_the_serialized_encoding() {
    let carrier: Vec<u8> = (0..=255u8).rev().collect();
    let payload: Vec<u8> = vec![0, 255, 1, 254];
    let oracle = create_oracle(&carrier).unwrap();
    let encoded = metasteg_encode(&payload, &oracle).unwrap();
    assert_eq!(encoded, vec![255, 0, 254, 1]);
    assert_eq!(encode_payload(&payload, &carrier), Ok(serialize_offsets(&encoded)));
}

#[test]
fn decoding_with_another_carrier_reads_that_carrier() {
    let carrier = identity_carrier();
    let other: Vec<u8> = (0..=255u8).rev().collect();
    let wire = encode_payload(&[1, 2, 3], &carrier).unwrap();
    assert_eq!(decode_payload(&wire, &other), Ok(vec![254, 253, 252]));
}

#[test]
fn errors_compare_by_variant_and_value() {
    assert_eq!(MetastegError::InvalidOffset(3), MetastegError::InvalidOffset(3));
    assert_ne!(MetastegError::InvalidOffset(3), MetastegError::InvalidOffset(4));
    assert_ne!(MetastegError::UnrepresentableByte(3), MetastegError::UnencodableByte(3));
    let e = MetastegError::InvalidSerializedLength(7);
    let copy = e;
    assert_eq!(format!("{:?}", copy), "InvalidSerializedLength(7)");
}
