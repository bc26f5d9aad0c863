//! The two whole transforms, from bytes to bytes: a payload into its wire
//! form over a carrier, and a wire form back into the payload.

use crate::codec::{decode, encode, metasteg_decode, metasteg_encode};
use crate::framing::{deserialize, deserialize_offsets, serialize, serialize_offsets};
use crate::oracle::{addressable, build, create_oracle, is_first_missing};
use vstd::prelude::*;

verus! {

/// Why a transform was given up.
#[derive(Debug, Clone, Copy, PartialEq, Eq, Structural)]
pub enum MetastegError {
    /// The carrier holds this byte value nowhere that an offset can name.
    UnrepresentableByte(u8),
    /// The oracle has no entry for this payload byte.
    UnencodableByte(u8),
    /// This offset is not below the carrier's length.
    InvalidOffset(u32),
    /// A wire form of this many bytes is no whole number of offsets.
    InvalidSerializedLength(usize),
}

/// The wire form of `payload` over `carrier`: oracle, offsets, bytes, or
/// the first failure on the way.
pub open spec fn encode_pipeline(payload: Seq<u8>, carrier: Seq<u8>) -> Result<
    Seq<u8>,
    MetastegError,
> {
    match build(carrier) {
        Err(value) => Err(MetastegError::UnrepresentableByte(value)),
        Ok(oracle) => match encode(payload, oracle) {
            Err(byte) => Err(MetastegError::UnencodableByte(byte)),
            Ok(offsets) => Ok(serialize(offsets)),
        },
    }
}

/// The payload that `serialized` spells over `carrier`: offsets, bytes, or
/// the first failure on the way.
pub open spec fn decode_pipeline(serialized: Seq<u8>, carrier: Seq<u8>) -> Result<
    Seq<u8>,
    MetastegError,
> {
    match deserialize(serialized) {
        Err(n) => Err(MetastegError::InvalidSerializedLength(n as usize)),
        Ok(offsets) => match decode(offsets, carrier) {
            Err(offset) => Err(MetastegError::InvalidOffset(offset)),
            Ok(bytes) => Ok(bytes),
        },
    }
}

/// Encodes `payload` over `image` and returns the wire form of the offsets.
pub fn encode_payload(payload: &[u8], image: &[u8]) -> (r: Result<Vec<u8>, MetastegError>)
    ensures
        match r {
            Ok(bytes) => encode_pipeline(payload@, image@) == Ok::<Seq<u8>, MetastegError>(bytes@),
            Err(e) => encode_pipeline(payload@, image@) == Err::<Seq<u8>, MetastegError>(e),
        },
        r is Ok <==> forall|value: u8| addressable(image@).contains(value),
        r matches Ok(bytes) ==> bytes@.len() == 4 * payload@.len(),
        r matches Err(e) ==> e matches MetastegError::UnrepresentableByte(value)
            && is_first_missing(addressable(image@), value),
{
    let oracle = match create_oracle(image) {
        Ok(x) => x,
        Err(value) => return Err(MetastegError::UnrepresentableByte(value)),
    };
    let encoded = match metasteg_encode(payload, &oracle) {
        Ok(x) => x,
        Err(byte) => return Err(MetastegError::UnencodableByte(byte)),
    };
    Ok(serialize_offsets(encoded.as_slice()))
}

/// Reads the offsets that `serialized` spells and decodes them over `image`.
pub fn decode_payload(serialized: &[u8], image: &[u8]) -> (r: Result<Vec<u8>, MetastegError>)
    ensures
        match r {
            Ok(bytes) => decode_pipeline(serialized@, image@) == Ok::<Seq<u8>, MetastegError>(
                bytes@,
            ),
            Err(e) => decode_pipeline(serialized@, image@) == Err::<Seq<u8>, MetastegError>(e),
        },
        r matches Ok(bytes) ==> 4 * bytes@.len() == serialized@.len(),
        serialized@.len() % 4 != 0 <==> r matches Err(MetastegError::InvalidSerializedLength(_)),
        r matches Err(MetastegError::InvalidSerializedLength(n)) ==> n == serialized@.len(),
        !(r matches Err(MetastegError::UnrepresentableByte(_))),
        !(r matches Err(MetastegError::UnencodableByte(_))),
{
    let payload = match deserialize_offsets(serialized) {
        Ok(x) => x,
        Err(n) => return Err(MetastegError::InvalidSerializedLength(n)),
    };
    match metasteg_decode(payload.as_slice(), image) {
        Ok(x) => Ok(x),
        Err(offset) => Err(MetastegError::InvalidOffset(offset)),
    }
}

} // verus!
