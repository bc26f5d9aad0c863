//! The wire format of an offset sequence: four bytes per offset, most
//! significant byte first, nothing before, between or after them.

use vstd::prelude::*;

verus! {

/// The four bytes of `x`, most significant first.
pub open spec fn be_bytes(x: u32) -> Seq<u8> {
    seq![
        (x / 0x100_0000) as u8,
        (x / 0x1_0000 % 0x100) as u8,
        (x / 0x100 % 0x100) as u8,
        (x % 0x100) as u8,
    ]
}

/// The number whose big-endian digits, base 256, are the first four bytes of `word`.
pub open spec fn from_be_bytes(word: Seq<u8>) -> u32 {
    (word[0] * 0x100_0000 + word[1] * 0x1_0000 + word[2] * 0x100 + word[3]) as u32
}

/// The serialized form of `offsets`: byte `k` is digit `k % 4` of offset `k / 4`.
pub open spec fn serialize(offsets: Seq<u32>) -> Seq<u8> {
    Seq::new(4 * offsets.len(), |k: int| be_bytes(offsets[k / 4])[k % 4])
}

/// The offsets that `bytes` spells, one per four-byte group, or the length
/// of `bytes` where it is not a whole number of groups.
pub open spec fn deserialize(bytes: Seq<u8>) -> Result<Seq<u32>, nat> {
    if bytes.len() % 4 == 0 {
        Ok(Seq::new(bytes.len() / 4, |i: int| from_be_bytes(bytes.subrange(4 * i, 4 * i + 4))))
    } else {
        Err(bytes.len())
    }
}

/// Reading the big-endian bytes of a number gives the number back.
pub proof fn lemma_be_bytes_round_trip(x: u32)
    ensures
        be_bytes(x).len() == 4,
        from_be_bytes(be_bytes(x)) == x,
{
    let b = be_bytes(x);
    assert(b[0] == x / 0x100_0000);
    assert(b[1] == x / 0x1_0000 % 0x100);
    assert(b[2] == x / 0x100 % 0x100);
    assert(b[3] == x % 0x100);
}

/// Writing the number that four bytes spell gives the four bytes back.
pub proof fn lemma_from_be_bytes_round_trip(word: Seq<u8>)
    requires
        word.len() == 4,
    ensures
        be_bytes(from_be_bytes(word)) == word,
{
    let x = from_be_bytes(word);
    assert(x == word[0] * 0x100_0000 + word[1] * 0x1_0000 + word[2] * 0x100 + word[3]);
    assert(x / 0x100_0000 == word[0]);
    assert(x / 0x1_0000 % 0x100 == word[1]);
    assert(x / 0x100 % 0x100 == word[2]);
    assert(x % 0x100 == word[3]);
    assert(be_bytes(x) =~= word);
}

/// The four bytes of the wire form that belong to offset `i` are its
/// big-endian bytes.
pub proof fn lemma_serialize_word(offsets: Seq<u32>, i: int)
    requires
        0 <= i < offsets.len(),
    ensures
        serialize(offsets).subrange(4 * i, 4 * i + 4) == be_bytes(offsets[i]),
{
    let bytes = serialize(offsets);
    let word = bytes.subrange(4 * i, 4 * i + 4);
    let digits = be_bytes(offsets[i]);
    assert(word[0] == digits[0]) by {
        assert((4 * i) / 4 == i && (4 * i) % 4 == 0);
        assert(word[0] == bytes[4 * i]);
    }
    assert(word[1] == digits[1]) by {
        assert((4 * i + 1) / 4 == i && (4 * i + 1) % 4 == 1);
        assert(word[1] == bytes[4 * i + 1]);
    }
    assert(word[2] == digits[2]) by {
        assert((4 * i + 2) / 4 == i && (4 * i + 2) % 4 == 2);
        assert(word[2] == bytes[4 * i + 2]);
    }
    assert(word[3] == digits[3]) by {
        assert((4 * i + 3) / 4 == i && (4 * i + 3) % 4 == 3);
        assert(word[3] == bytes[4 * i + 3]);
    }
    assert(word =~= digits);
}

/// Writes `offsets` in wire format.
pub fn serialize_offsets(offsets: &[u32]) -> (bytes: Vec<u8>)
    ensures
        bytes@ == serialize(offsets@),
        bytes@.len() == 4 * offsets@.len(),
{
    let mut bytes: Vec<u8> = Vec::new();
    let mut i: usize = 0;
    while i < offsets.len()
        invariant
            i <= offsets@.len(),
            bytes@.len() == 4 * i,
            forall|k: int| 0 <= k < 4 * i ==> bytes@[k] == be_bytes(offsets@[k / 4])[k % 4],
        decreases offsets@.len() - i,
    {
        let x: u32 = offsets[i];
        bytes.push((x / 0x100_0000) as u8);
        bytes.push((x / 0x1_0000 % 0x100) as u8);
        bytes.push((x / 0x100 % 0x100) as u8);
        bytes.push((x % 0x100) as u8);
        i += 1;
    }
    bytes
}

/// Reads offsets back from wire format. A length that is no multiple of
/// four is refused and reported.
pub fn deserialize_offsets(bytes: &[u8]) -> (r: Result<Vec<u32>, usize>)
    ensures
        match r {
            Ok(offsets) => deserialize(bytes@) == Ok::<Seq<u32>, nat>(offsets@),
            Err(n) => deserialize(bytes@) == Err::<Seq<u32>, nat>(n as nat),
        },
        r is Err <==> bytes@.len() % 4 != 0,
        r matches Err(n) ==> n == bytes@.len(),
        r matches Ok(offsets) ==> 4 * offsets@.len() == bytes@.len(),
{
    let n: usize = bytes.len();
    if n % 4 != 0 {
        return Err(n);
    }
    let mut offsets: Vec<u32> = Vec::new();
    let mut i: usize = 0;
    while i < n
        invariant
            n == bytes@.len(),
            n % 4 == 0,
            i % 4 == 0,
            i <= n,
            offsets@.len() == i / 4,
            forall|j: int|
                0 <= j < offsets@.len() ==> offsets@[j] == from_be_bytes(
                    bytes@.subrange(4 * j, 4 * j + 4),
                ),
        decreases n - i,
    {
        let b0: u32 = bytes[i] as u32;
        let b1: u32 = bytes[i + 1] as u32;
        let b2: u32 = bytes[i + 2] as u32;
        let b3: u32 = bytes[i + 3] as u32;
        let x: u32 = b0 * 0x100_0000 + b1 * 0x1_0000 + b2 * 0x100 + b3;
        offsets.push(x);
        i += 4;
    }
    assert(offsets@ =~= deserialize(bytes@)->Ok_0);
    Ok(offsets)
}

} // verus!
