//! What holds of the transforms taken together.

use crate::codec::{all_mapped, all_valid, decode, encode, lemma_first_invalid_unique};
use crate::framing::{
    deserialize, from_be_bytes, lemma_be_bytes_round_trip, lemma_from_be_bytes_round_trip,
    lemma_serialize_word, serialize,
};
use crate::oracle::{
    addressable, build, first_missing, is_first_missing, is_first_occurrence, is_oracle_of,
    lemma_addressable_is_prefix, lemma_first_missing_exists, lemma_first_missing_unique,
    lemma_first_occurrence_exists, within_reach,
};
use crate::pipeline::{decode_pipeline, encode_pipeline, MetastegError};
use vstd::prelude::*;

verus! {

/// A carrier of at most 2^32 bytes holds nothing out of an offset's reach.
pub proof fn lemma_short_carrier_within_reach(carrier: Seq<u8>)
    requires
        carrier.len() <= 0x1_0000_0000,
    ensures
        addressable(carrier) == carrier,
        within_reach(carrier),
{
}

/// An oracle can be built exactly for the carriers that hold every byte
/// value; for any other, the failure names the smallest byte value that the
/// carrier does not hold. This is said of carriers that hold nothing out of
/// an offset's reach: a byte value found only past the first 2^32 bytes
/// counts as missing when the oracle is built.
pub proof fn lemma_build_completeness(carrier: Seq<u8>)
    requires
        within_reach(carrier),
    ensures
        build(carrier) is Ok <==> forall|value: u8| carrier.contains(value),
        forall|value: u8|
            build(carrier) == Err::<Map<u8, u32>, u8>(value) <==> is_first_missing(carrier, value),
{
    let reach = addressable(carrier);
    lemma_addressable_is_prefix(carrier);
    assert forall|value: u8| reach.contains(value) == carrier.contains(value) by {}
    if forall|value: u8| reach.contains(value) {
        assert forall|value: u8| !is_first_missing(carrier, value) by {
            assert(reach.contains(value));
        }
    } else {
        lemma_first_missing_exists(reach);
        let m = first_missing(reach);
        assert(is_first_missing(carrier, m)) by {
            assert forall|w: u8| w < m implies carrier.contains(w) by {
                assert(reach.contains(w));
            }
        }
        assert forall|value: u8| is_first_missing(carrier, value) implies value == m by {
            assert(is_first_missing(reach, value)) by {
                assert forall|w: u8| w < value implies reach.contains(w) by {
                    assert(carrier.contains(w));
                }
            }
            lemma_first_missing_unique(reach, value);
        }
    }
}

/// A built oracle has an entry for every byte value, and the entry is the
/// smallest position at which the carrier holds that value.
pub proof fn lemma_build_first_occurrence(carrier: Seq<u8>)
    requires
        build(carrier) is Ok,
    ensures
        is_oracle_of(build(carrier)->Ok_0, carrier),
{
    let reach = addressable(carrier);
    let oracle = build(carrier)->Ok_0;
    lemma_addressable_is_prefix(carrier);
    assert forall|value: u8|
        oracle.contains_key(value) implies #[trigger] is_first_occurrence(
        carrier,
        value,
        oracle[value] as int,
    ) by {
        assert(reach.contains(value));
        lemma_first_occurrence_exists(reach, value);
    }
}

/// An oracle built from a carrier maps every payload: encoding with it
/// cannot fail.
pub proof fn lemma_built_oracle_encodes_all(carrier: Seq<u8>, payload: Seq<u8>)
    requires
        build(carrier) is Ok,
    ensures
        encode(payload, build(carrier)->Ok_0) is Ok,
        !(encode_pipeline(payload, carrier) matches Err(MetastegError::UnencodableByte(_))),
{
    let oracle = build(carrier)->Ok_0;
    assert(all_mapped(payload, oracle));
}

/// Over a carrier that holds every byte value within an offset's reach,
/// decoding what was encoded gives the payload back.
pub proof fn lemma_round_trip(carrier: Seq<u8>, payload: Seq<u8>)
    requires
        forall|value: u8| carrier.contains(value),
        within_reach(carrier),
    ensures
        build(carrier) is Ok,
        encode(payload, build(carrier)->Ok_0) is Ok,
        decode(encode(payload, build(carrier)->Ok_0)->Ok_0, carrier) == Ok::<Seq<u8>, u32>(
            payload,
        ),
{
    lemma_build_completeness(carrier);
    lemma_built_oracle_encodes_all(carrier, payload);
    lemma_build_first_occurrence(carrier);
    let oracle = build(carrier)->Ok_0;
    let encoded = encode(payload, oracle)->Ok_0;
    assert forall|i: int| 0 <= i < encoded.len() implies (#[trigger] encoded[i]) < carrier.len()
        && carrier[encoded[i] as int] == payload[i] by {
        assert(oracle.contains_key(payload[i]));
    }
    assert(all_valid(encoded, carrier));
    assert(decode(encoded, carrier)->Ok_0 =~= payload);
}

/// Encoding keeps the payload's length, and decoding the offsets' length.
pub proof fn lemma_length_preserved(
    payload: Seq<u8>,
    oracle: Map<u8, u32>,
    encoded: Seq<u32>,
    carrier: Seq<u8>,
)
    ensures
        encode(payload, oracle) matches Ok(offsets) ==> offsets.len() == payload.len(),
        decode(encoded, carrier) matches Ok(bytes) ==> bytes.len() == encoded.len(),
{
}

/// Reading the wire form of an offset sequence gives the sequence back.
pub proof fn lemma_framing_round_trip(offsets: Seq<u32>)
    ensures
        serialize(offsets).len() == 4 * offsets.len(),
        deserialize(serialize(offsets)) == Ok::<Seq<u32>, nat>(offsets),
{
    let bytes = serialize(offsets);
    assert(bytes.len() == 4 * offsets.len());
    let back = deserialize(bytes)->Ok_0;
    assert(back.len() == offsets.len());
    assert forall|i: int| 0 <= i < offsets.len() implies back[i] == offsets[i] by {
        lemma_serialize_word(offsets, i);
        lemma_be_bytes_round_trip(offsets[i]);
    }
    assert(back =~= offsets);
}

/// Writing the offsets read from a well-formed wire form gives the wire
/// form back: no two offset sequences share one.
pub proof fn lemma_framing_inverse(bytes: Seq<u8>)
    requires
        bytes.len() % 4 == 0,
    ensures
        deserialize(bytes) is Ok,
        serialize(deserialize(bytes)->Ok_0) == bytes,
{
    let offsets = deserialize(bytes)->Ok_0;
    let again = serialize(offsets);
    assert(again.len() == bytes.len());
    assert forall|k: int| 0 <= k < bytes.len() implies again[k] == bytes[k] by {
        let i = k / 4;
        let word = bytes.subrange(4 * i, 4 * i + 4);
        lemma_from_be_bytes_round_trip(word);
        assert(offsets[i] == from_be_bytes(word));
        assert(word[k % 4] == bytes[4 * i + k % 4]);
    }
    assert(again =~= bytes);
}

/// The carrier's length is the smallest offset that decoding refuses: the
/// length itself fails and is reported, the offset just below it succeeds.
pub proof fn lemma_decode_boundary(carrier: Seq<u8>)
    ensures
        carrier.len() <= u32::MAX ==> decode(seq![carrier.len() as u32], carrier) == Err::<
            Seq<u8>,
            u32,
        >(carrier.len() as u32),
        0 < carrier.len() <= 0x1_0000_0000 ==> decode(
            seq![(carrier.len() - 1) as u32],
            carrier,
        ) == Ok::<Seq<u8>, u32>(seq![carrier[carrier.len() - 1]]),
{
    if carrier.len() <= u32::MAX {
        let encoded = seq![carrier.len() as u32];
        assert(encoded[0] == carrier.len());
        lemma_first_invalid_unique(encoded, carrier, 0);
    }
    if 0 < carrier.len() <= 0x1_0000_0000 {
        let encoded = seq![(carrier.len() - 1) as u32];
        assert(encoded[0] == carrier.len() - 1);
        assert(all_valid(encoded, carrier));
        assert(decode(encoded, carrier)->Ok_0 =~= seq![carrier[carrier.len() - 1]]);
    }
}

/// A wire form whose length is no multiple of four is refused, whatever it
/// holds, and the failure reports that length.
pub proof fn lemma_malformed_framing(bytes: Seq<u8>, carrier: Seq<u8>)
    requires
        bytes.len() % 4 != 0,
    ensures
        deserialize(bytes) == Err::<Seq<u32>, nat>(bytes.len()),
        decode_pipeline(bytes, carrier) == Err::<Seq<u8>, MetastegError>(
            MetastegError::InvalidSerializedLength(bytes.len() as usize),
        ),
{
}

/// Over a carrier that holds every byte value within an offset's reach, the
/// wire form of a payload decodes to that payload.
pub proof fn lemma_pipeline_round_trip(carrier: Seq<u8>, payload: Seq<u8>)
    requires
        forall|value: u8| carrier.contains(value),
        within_reach(carrier),
    ensures
        encode_pipeline(payload, carrier) is Ok,
        decode_pipeline(encode_pipeline(payload, carrier)->Ok_0, carrier) == Ok::<
            Seq<u8>,
            MetastegError,
        >(payload),
{
    lemma_round_trip(carrier, payload);
    lemma_framing_round_trip(encode(payload, build(carrier)->Ok_0)->Ok_0);
}

} // verus!
