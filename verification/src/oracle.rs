//! The oracle of a carrier: for every byte value, the offset at which the
//! carrier first holds it.

use crate::laws::lemma_build_first_occurrence;
use std::collections::HashMap;
use vstd::prelude::*;

verus! {

/// The part of `carrier` that a 32-bit offset can name: all of it, or its
/// first 2^32 bytes where it is longer.
pub open spec fn addressable(carrier: Seq<u8>) -> Seq<u8> {
    if carrier.len() <= 0x1_0000_0000 {
        carrier
    } else {
        carrier.take(0x1_0000_0000)
    }
}

/// `i` is the first position of `carrier` that holds `value`.
pub open spec fn is_first_occurrence(carrier: Seq<u8>, value: u8, i: int) -> bool {
    &&& 0 <= i < carrier.len()
    &&& carrier[i] == value
    &&& forall|j: int| 0 <= j < i ==> carrier[j] != value
}

/// The first position of `carrier` that holds `value`, where there is one.
pub open spec fn first_occurrence(carrier: Seq<u8>, value: u8) -> int {
    choose|i: int| is_first_occurrence(carrier, value, i)
}

/// `value` is the smallest byte value that `carrier` does not hold.
pub open spec fn is_first_missing(carrier: Seq<u8>, value: u8) -> bool {
    &&& !carrier.contains(value)
    &&& forall|w: u8| w < value ==> carrier.contains(w)
}

/// The smallest byte value that `carrier` does not hold, where there is one.
pub open spec fn first_missing(carrier: Seq<u8>) -> u8 {
    choose|value: u8| is_first_missing(carrier, value)
}

/// Every byte value that `carrier` holds, it holds at a position that a
/// 32-bit offset can name. A carrier of at most 2^32 bytes always does.
pub open spec fn within_reach(carrier: Seq<u8>) -> bool {
    forall|value: u8| carrier.contains(value) ==> addressable(carrier).contains(value)
}

/// `oracle` has an entry for every byte value, and each entry is the first
/// position at which `carrier` holds that value.
pub open spec fn is_oracle_of(oracle: Map<u8, u32>, carrier: Seq<u8>) -> bool {
    forall|value: u8|
        #![trigger oracle.contains_key(value)]
        #![trigger oracle[value]]
        oracle.contains_key(value) && is_first_occurrence(carrier, value, oracle[value] as int)
}

/// The oracle of `carrier`: every byte value mapped to its first offset in
/// the addressable part, or the smallest byte value that has no offset there.
pub open spec fn build(carrier: Seq<u8>) -> Result<Map<u8, u32>, u8> {
    let reach = addressable(carrier);
    if forall|value: u8| reach.contains(value) {
        Ok(Map::total(|value: u8| first_occurrence(reach, value) as u32))
    } else {
        Err(first_missing(reach))
    }
}

/// A sequence has at most one first occurrence of a value.
pub proof fn lemma_first_occurrence_unique(carrier: Seq<u8>, value: u8, i: int)
    requires
        is_first_occurrence(carrier, value, i),
    ensures
        first_occurrence(carrier, value) == i,
{
    let c = first_occurrence(carrier, value);
    assert(is_first_occurrence(carrier, value, c));
    if c < i {
        assert(carrier[c] != value);
    } else if i < c {
        assert(carrier[i] != value);
    }
}

/// A value that a sequence holds has a first occurrence in it.
pub proof fn lemma_first_occurrence_exists(carrier: Seq<u8>, value: u8)
    requires
        carrier.contains(value),
    ensures
        is_first_occurrence(carrier, value, first_occurrence(carrier, value)),
{
    let k = choose|k: int| 0 <= k < carrier.len() && carrier[k] == value;
    lemma_first_occurrence_upto(carrier, value, k);
}

proof fn lemma_first_occurrence_upto(carrier: Seq<u8>, value: u8, k: int)
    requires
        0 <= k < carrier.len(),
        carrier[k] == value,
    ensures
        is_first_occurrence(carrier, value, first_occurrence(carrier, value)),
    decreases k,
{
    if exists|j: int| 0 <= j < k && carrier[j] == value {
        let j = choose|j: int| 0 <= j < k && carrier[j] == value;
        lemma_first_occurrence_upto(carrier, value, j);
    } else {
        assert(is_first_occurrence(carrier, value, k));
    }
}

/// A sequence has at most one smallest missing value.
pub proof fn lemma_first_missing_unique(carrier: Seq<u8>, value: u8)
    requires
        is_first_missing(carrier, value),
    ensures
        first_missing(carrier) == value,
{
    let m = first_missing(carrier);
    assert(is_first_missing(carrier, m));
    if m < value {
        assert(carrier.contains(m));
    } else if value < m {
        assert(carrier.contains(value));
    }
}

/// Where some byte value is missing from a sequence, one of them is the
/// smallest.
pub proof fn lemma_first_missing_exists(carrier: Seq<u8>)
    requires
        exists|value: u8| !carrier.contains(value),
    ensures
        is_first_missing(carrier, first_missing(carrier)),
{
    let value = choose|value: u8| !carrier.contains(value);
    lemma_first_missing_upto(carrier, value);
}

proof fn lemma_first_missing_upto(carrier: Seq<u8>, value: u8)
    requires
        !carrier.contains(value),
    ensures
        is_first_missing(carrier, first_missing(carrier)),
    decreases value,
{
    if exists|w: u8| w < value && !carrier.contains(w) {
        let w = choose|w: u8| w < value && !carrier.contains(w);
        lemma_first_missing_upto(carrier, w);
    } else {
        assert(is_first_missing(carrier, value));
    }
}

/// The addressable part of a carrier is a prefix of it: what it holds, the
/// carrier holds at the same position, and a first occurrence in it is a
/// first occurrence in the carrier.
pub proof fn lemma_addressable_is_prefix(carrier: Seq<u8>)
    ensures
        addressable(carrier).len() <= carrier.len(),
        addressable(carrier).len() <= 0x1_0000_0000,
        carrier.len() <= 0x1_0000_0000 ==> addressable(carrier) == carrier,
        forall|i: int|
            0 <= i < addressable(carrier).len() ==> #[trigger] addressable(carrier)[i]
                == carrier[i],
        forall|value: u8| #[trigger]
            addressable(carrier).contains(value) ==> carrier.contains(value),
        forall|value: u8, i: int| #[trigger]
            is_first_occurrence(addressable(carrier), value, i) ==> is_first_occurrence(
                carrier,
                value,
                i,
            ),
{
    let reach = addressable(carrier);
    assert forall|value: u8| #[trigger] reach.contains(value) implies carrier.contains(value) by {
        let i = choose|i: int| 0 <= i < reach.len() && reach[i] == value;
        assert(carrier[i] == value);
    }
    assert forall|value: u8, i: int| #[trigger]
        is_first_occurrence(reach, value, i) implies is_first_occurrence(carrier, value, i) by {
        assert forall|j: int| 0 <= j < i implies carrier[j] != value by {
            assert(reach[j] != value);
        }
    }
}

/// Finds the offset at which `buf` first holds `value`, looking no further
/// than a 32-bit offset can reach.
pub fn first_offset(buf: &[u8], value: u8) -> (r: Option<u32>)
    ensures
        match r {
            Some(offset) => is_first_occurrence(addressable(buf@), value, offset as int),
            None => !addressable(buf@).contains(value),
        },
{
    let ghost reach = addressable(buf@);
    let mut i: usize = 0;
    while i < buf.len() && i <= 0xFFFF_FFFF
        invariant
            reach == addressable(buf@),
            0 <= i <= reach.len(),
            forall|j: int| 0 <= j < i ==> reach[j] != value,
        decreases buf@.len() - i,
    {
        if buf[i] == value {
            return Some(i as u32);
        }
        i += 1;
    }
    None
}

/// Builds the oracle of `buf`, trying the byte values in ascending order.
/// Fails with the first byte value that has no offset.
pub fn create_oracle(buf: &[u8]) -> (r: Result<HashMap<u8, u32>, u8>)
    ensures
        match r {
            Ok(oracle) => build(buf@) == Ok::<Map<u8, u32>, u8>(oracle@),
            Err(value) => build(buf@) == Err::<Map<u8, u32>, u8>(value),
        },
        r is Ok <==> forall|value: u8| addressable(buf@).contains(value),
        r matches Ok(oracle) ==> is_oracle_of(oracle@, buf@),
        r matches Err(value) ==> is_first_missing(addressable(buf@), value),
{
    let ghost reach = addressable(buf@);
    let mut oracle: HashMap<u8, u32> = HashMap::new();
    let mut n: u32 = 0;
    while n < 256
        invariant
            reach == addressable(buf@),
            n <= 256,
            forall|w: u8| w < n ==> #[trigger] reach.contains(w),
            forall|w: u8|
                w < n ==> #[trigger] oracle@.contains_key(w) && oracle@[w] == first_occurrence(
                    reach,
                    w,
                ),
        decreases 256 - n,
    {
        let byte: u8 = n as u8;
        match first_offset(buf, byte) {
            Some(offset) => {
                proof {
                    lemma_first_occurrence_unique(reach, byte, offset as int);
                }
                oracle.insert(byte, offset);
            },
            None => {
                proof {
                    lemma_first_missing_unique(reach, byte);
                }
                return Err(byte);
            },
        }
        n += 1;
    }
    proof {
        assert(oracle@ =~= build(buf@)->Ok_0);
        lemma_build_first_occurrence(buf@);
    }
    Ok(oracle)
}

} // verus!
