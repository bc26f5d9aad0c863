//! Encoding a payload as offsets into a carrier, and decoding offsets back
//! into the bytes that the carrier holds there.

use std::collections::HashMap;
use vstd::prelude::*;

verus! {

/// `i` is the first position of `payload` whose byte `oracle` does not map.
pub open spec fn is_first_unmapped(payload: Seq<u8>, oracle: Map<u8, u32>, i: int) -> bool {
    &&& 0 <= i < payload.len()
    &&& !oracle.contains_key(payload[i])
    &&& forall|j: int| 0 <= j < i ==> oracle.contains_key(#[trigger] payload[j])
}

/// The first position of `payload` whose byte `oracle` does not map, where
/// there is one.
pub open spec fn first_unmapped(payload: Seq<u8>, oracle: Map<u8, u32>) -> int {
    choose|i: int| is_first_unmapped(payload, oracle, i)
}

/// Every byte of `payload` has an entry in `oracle`.
pub open spec fn all_mapped(payload: Seq<u8>, oracle: Map<u8, u32>) -> bool {
    forall|i: int| 0 <= i < payload.len() ==> oracle.contains_key(#[trigger] payload[i])
}

/// The offsets that `oracle` gives the bytes of `payload`, in order, or the
/// first byte of `payload` that `oracle` does not map.
pub open spec fn encode(payload: Seq<u8>, oracle: Map<u8, u32>) -> Result<Seq<u32>, u8> {
    if all_mapped(payload, oracle) {
        Ok(Seq::new(payload.len(), |i: int| oracle[payload[i]]))
    } else {
        Err(payload[first_unmapped(payload, oracle)])
    }
}

/// `i` is the first position of `encoded` whose offset lies outside `carrier`.
pub open spec fn is_first_invalid(encoded: Seq<u32>, carrier: Seq<u8>, i: int) -> bool {
    &&& 0 <= i < encoded.len()
    &&& encoded[i] >= carrier.len()
    &&& forall|j: int| 0 <= j < i ==> (#[trigger] encoded[j]) < carrier.len()
}

/// The first position of `encoded` whose offset lies outside `carrier`,
/// where there is one.
pub open spec fn first_invalid(encoded: Seq<u32>, carrier: Seq<u8>) -> int {
    choose|i: int| is_first_invalid(encoded, carrier, i)
}

/// Every offset of `encoded` is a position of `carrier`.
pub open spec fn all_valid(encoded: Seq<u32>, carrier: Seq<u8>) -> bool {
    forall|i: int| 0 <= i < encoded.len() ==> (#[trigger] encoded[i]) < carrier.len()
}

/// The bytes that `carrier` holds at the offsets of `encoded`, in order, or
/// the first offset of `encoded` that is no position of `carrier`.
pub open spec fn decode(encoded: Seq<u32>, carrier: Seq<u8>) -> Result<Seq<u8>, u32> {
    if all_valid(encoded, carrier) {
        Ok(Seq::new(encoded.len(), |i: int| carrier[encoded[i] as int]))
    } else {
        Err(encoded[first_invalid(encoded, carrier)])
    }
}

/// A payload has at most one first unmapped position.
pub proof fn lemma_first_unmapped_unique(payload: Seq<u8>, oracle: Map<u8, u32>, i: int)
    requires
        is_first_unmapped(payload, oracle, i),
    ensures
        first_unmapped(payload, oracle) == i,
        !all_mapped(payload, oracle),
{
    let c = first_unmapped(payload, oracle);
    assert(is_first_unmapped(payload, oracle, c));
    if c < i {
        assert(oracle.contains_key(payload[c]));
    } else if i < c {
        assert(oracle.contains_key(payload[i]));
    }
}

/// An offset sequence has at most one first invalid position.
pub proof fn lemma_first_invalid_unique(encoded: Seq<u32>, carrier: Seq<u8>, i: int)
    requires
        is_first_invalid(encoded, carrier, i),
    ensures
        first_invalid(encoded, carrier) == i,
        !all_valid(encoded, carrier),
{
    let c = first_invalid(encoded, carrier);
    assert(is_first_invalid(encoded, carrier, c));
    if c < i {
        assert(encoded[c] < carrier.len());
    } else if i < c {
        assert(encoded[i] < carrier.len());
    }
}

/// Rewrites `payload` as the offsets that `oracle` holds for its bytes.
/// Fails with the first byte that `oracle` has no entry for.
pub fn metasteg_encode(payload: &[u8], oracle: &HashMap<u8, u32>) -> (r: Result<Vec<u32>, u8>)
    ensures
        match r {
            Ok(encoded) => encode(payload@, oracle@) == Ok::<Seq<u32>, u8>(encoded@),
            Err(byte) => encode(payload@, oracle@) == Err::<Seq<u32>, u8>(byte),
        },
        r is Ok <==> all_mapped(payload@, oracle@),
        r matches Ok(encoded) ==> encoded@.len() == payload@.len(),
        r matches Err(byte) ==> exists|i: int|
            is_first_unmapped(payload@, oracle@, i) && byte == payload@[i],
{
    let mut encoded: Vec<u32> = Vec::new();
    let mut i: usize = 0;
    while i < payload.len()
        invariant
            i <= payload@.len(),
            encoded@.len() == i,
            forall|j: int| 0 <= j < i ==> oracle@.contains_key(#[trigger] payload@[j]),
            forall|j: int| 0 <= j < i ==> encoded@[j] == oracle@[payload@[j]],
        decreases payload@.len() - i,
    {
        let byte: u8 = payload[i];
        match oracle.get(&byte) {
            Some(offset) => {
                encoded.push(*offset);
            },
            None => {
                proof {
                    lemma_first_unmapped_unique(payload@, oracle@, i as int);
                    assert(is_first_unmapped(payload@, oracle@, i as int));
                }
                return Err(byte);
            },
        }
        i += 1;
    }
    assert(encoded@ =~= encode(payload@, oracle@)->Ok_0);
    Ok(encoded)
}

/// Reads the bytes that `buf` holds at the offsets of `payload`. Fails with
/// the first offset that is not below the length of `buf`.
pub fn metasteg_decode(payload: &[u32], buf: &[u8]) -> (r: Result<Vec<u8>, u32>)
    ensures
        match r {
            Ok(decoded) => decode(payload@, buf@) == Ok::<Seq<u8>, u32>(decoded@),
            Err(offset) => decode(payload@, buf@) == Err::<Seq<u8>, u32>(offset),
        },
        r is Ok <==> all_valid(payload@, buf@),
        r matches Ok(decoded) ==> decoded@.len() == payload@.len(),
        r matches Err(offset) ==> exists|i: int|
            is_first_invalid(payload@, buf@, i) && offset == payload@[i],
{
    let mut decoded: Vec<u8> = Vec::new();
    let mut i: usize = 0;
    while i < payload.len()
        invariant
            i <= payload@.len(),
            decoded@.len() == i,
            forall|j: int| 0 <= j < i ==> (#[trigger] payload@[j]) < buf@.len(),
            forall|j: int| 0 <= j < i ==> decoded@[j] == buf@[payload@[j] as int],
        decreases payload@.len() - i,
    {
        let offset: u32 = payload[i];
        if offset as usize >= buf.len() {
            proof {
                lemma_first_invalid_unique(payload@, buf@, i as int);
                assert(is_first_invalid(payload@, buf@, i as int));
            }
            return Err(offset);
        }
        decoded.push(buf[offset as usize]);
        i += 1;
    }
    assert(decoded@ =~= decode(payload@, buf@)->Ok_0);
    Ok(decoded)
}

} // verus!
