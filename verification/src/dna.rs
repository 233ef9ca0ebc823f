//! Genetic payloads: combination of two parents under a selector, and the
//! sex that a payload stands for.

use blake2_rfc::blake2b::blake2b;
use byteorder::ByteOrder;
use byteorder::LittleEndian;
use parity_scale_codec::Encode;
use vstd::prelude::*;

verus! {

/// Number of bytes in a genetic payload.
pub const DNA_LEN: usize = 16;

/// The two sexes of a kitty.
#[derive(Clone, Copy, Debug, PartialEq, Eq, Structural)]
pub enum KittySexual {
    Male,
    Female,
}

/// The byte that takes each bit from `dna1` where `selector` has a one and
/// from `dna2` where it has a zero.
pub open spec fn combined(dna1: u8, dna2: u8, selector: u8) -> u8 {
    (selector & dna1) | (!selector & dna2)
}

/// Bit `i` of `x`.
pub open spec fn bit_of(x: u8, i: u8) -> bool {
    (x >> i) & 1u8 == 1u8
}

/// Bytewise [`combined`] of three payloads of equal length.
pub open spec fn combined_seq(dna1: Seq<u8>, dna2: Seq<u8>, selector: Seq<u8>) -> Seq<u8> {
    Seq::new(dna1.len(), |i: int| combined(dna1[i], dna2[i], selector[i]))
}

/// The payload whose bytes are `bytes`.
pub open spec fn dna_of(bytes: Seq<u8>) -> [u8; 16]
    recommends
        bytes.len() == 16,
{
    choose|dna: [u8; 16]| dna@ == bytes
}

/// The payload of a child: the parents' payloads combined under `selector`.
pub open spec fn combined_dna(dna1: [u8; 16], dna2: [u8; 16], selector: [u8; 16]) -> [u8; 16] {
    dna_of(combined_seq(dna1@, dna2@, selector@))
}

/// The number of one bits in `x`.
pub open spec fn count_ones(x: u128) -> nat
    decreases x,
{
    if x == 0 {
        0
    } else {
        (x % 2) as nat + count_ones(x / 2)
    }
}

/// The sex a payload stands for: male when it has an even number of one
/// bits, female when that number is odd.
pub open spec fn sexual_of(dna: u128) -> KittySexual {
    if count_ones(dna) % 2 == 0 {
        KittySexual::Male
    } else {
        KittySexual::Female
    }
}

/// The number whose little-endian digits in base 256 are `bytes`.
pub open spec fn le_value(bytes: Seq<u8>) -> nat
    decreases bytes.len(),
{
    if bytes.len() == 0 {
        0
    } else {
        bytes[0] as nat + 256 * le_value(bytes.drop_first())
    }
}

/// The `len` lowest digits of `x` in base 256, least significant first.
pub open spec fn le_bytes(x: nat, len: nat) -> Seq<u8>
    decreases len,
{
    if len == 0 {
        Seq::empty()
    } else {
        seq![(x % 256) as u8] + le_bytes(x / 256, (len - 1) as nat)
    }
}

/// The bytes from which the payload of a founder is drawn: the seed of the
/// block, the sender, the place of the call in the block (one zero byte
/// where it has none, else a one and the place), and the number of the
/// block, each number with its least significant byte first.
pub open spec fn payload_of(seed: Seq<u8>, sender: u64, index: Option<u32>, block: u64) -> Seq<u8> {
    seed + le_bytes(sender as nat, 8) + match index {
        None => seq![0u8],
        Some(place) => seq![1u8] + le_bytes(place as nat, 4),
    } + le_bytes(block as nat, 8)
}

/// The sixteen bytes that BLAKE2b without a key makes of `data`.
pub uninterp spec fn blake2_128_of(data: Seq<u8>) -> Seq<u8>;

/// Every bit of the combination comes from `dna1` where the selector bit is
/// set and from `dna2` where it is clear.
pub proof fn lemma_combined_bitwise(dna1: u8, dna2: u8, selector: u8, i: u8)
    requires
        i < 8,
    ensures
        bit_of(combined(dna1, dna2, selector), i) == if bit_of(selector, i) {
            bit_of(dna1, i)
        } else {
            bit_of(dna2, i)
        },
{
    assert((((selector & dna1) | (!selector & dna2)) >> i) & 1u8 == 1u8 <==> if (selector >> i)
        & 1u8 == 1u8 {
        (dna1 >> i) & 1u8 == 1u8
    } else {
        (dna2 >> i) & 1u8 == 1u8
    }) by (bit_vector)
        requires
            i < 8,
    ;
}

/// An all-zero selector hands on the second parent, an all-one selector the
/// first.
pub proof fn lemma_combined_extremes(dna1: u8, dna2: u8)
    ensures
        combined(dna1, dna2, 0x00) == dna2,
        combined(dna1, dna2, 0xFF) == dna1,
{
    assert((0x00u8 & dna1) | (!0x00u8 & dna2) == dna2) by (bit_vector);
    assert((0xFFu8 & dna1) | (!0xFFu8 & dna2) == dna1) by (bit_vector);
}

/// The extremes of [`lemma_combined_extremes`] for whole payloads.
pub proof fn lemma_combined_seq_extremes(dna1: Seq<u8>, dna2: Seq<u8>, selector: Seq<u8>)
    requires
        dna1.len() == dna2.len(),
        dna1.len() == selector.len(),
    ensures
        (forall|i: int| 0 <= i < selector.len() ==> selector[i] == 0x00) ==> combined_seq(
            dna1,
            dna2,
            selector,
        ) == dna2,
        (forall|i: int| 0 <= i < selector.len() ==> selector[i] == 0xFF) ==> combined_seq(
            dna1,
            dna2,
            selector,
        ) == dna1,
{
    assert forall|i: int| 0 <= i < dna1.len() implies combined(dna1[i], dna2[i], 0x00) == dna2[i]
        && combined(dna1[i], dna2[i], 0xFF) == dna1[i] by {
        lemma_combined_extremes(dna1[i], dna2[i]);
    }
    if forall|i: int| 0 <= i < selector.len() ==> selector[i] == 0x00 {
        assert(combined_seq(dna1, dna2, selector) =~= dna2);
    }
    if forall|i: int| 0 <= i < selector.len() ==> selector[i] == 0xFF {
        assert(combined_seq(dna1, dna2, selector) =~= dna1);
    }
}

/// A payload is known by its bytes.
pub proof fn lemma_dna_of(dna: [u8; 16])
    ensures
        dna_of(dna@) == dna,
{
    assert(dna_of(dna@)@ == dna@);
    assert(dna_of(dna@) =~= dna);
}

/// Combines one byte of each parent under one byte of the selector.
pub fn combine_dna(dna1: u8, dna2: u8, selector: u8) -> (r: u8)
    ensures
        r == combined(dna1, dna2, selector),
{
    (selector & dna1) | (!selector & dna2)
}

/// Combines two payloads under a selector, byte by byte.
pub fn combine(dna1: &[u8; 16], dna2: &[u8; 16], selector: &[u8; 16]) -> (r: [u8; 16])
    ensures
        r@ == combined_seq(dna1@, dna2@, selector@),
        r == combined_dna(*dna1, *dna2, *selector),
{
    let mut new_dna: [u8; 16] = [0u8; 16];
    let mut i: usize = 0;
    while i < DNA_LEN
        invariant
            i <= DNA_LEN,
            forall|j: int| 0 <= j < i ==> new_dna@[j] == combined(dna1@[j], dna2@[j], selector@[j]),
        decreases DNA_LEN - i,
    {
        new_dna[i] = combine_dna(dna1[i], dna2[i], selector[i]);
        i = i + 1;
    }
    assert(new_dna@ =~= combined_seq(dna1@, dna2@, selector@));
    proof {
        lemma_dna_of(new_dna);
    }
    new_dna
}

/// Calls `byteorder::LittleEndian::read_u128` on the sixteen bytes of `buf`.
///
/// The contract claims that the result is the number whose base-256 digits,
/// least significant first, are the bytes of `buf`. The call cannot panic,
/// since the buffer holds the sixteen bytes that it asks for.
#[verifier::external_body]
fn read_u128_le(buf: &[u8; 16]) -> (r: u128)
    ensures
        r as nat == le_value(buf@),
{
    LittleEndian::read_u128(buf)
}

/// Calls `parity_scale_codec::Encode::encode` on the tuple of the seed, the
/// sender, the place of the call and the number of the block.
///
/// The contract claims what the codec documents of each part: an array of
/// bytes stands as it is, a number is written with all its bytes, least
/// significant first, an optional value starts with a zero or a one, and a
/// tuple is its parts in a row.
#[verifier::external_body]
fn encode_payload(seed: &[u8; 32], sender: u64, index: Option<u32>, block: u64) -> (r: Vec<u8>)
    ensures
        r@ == payload_of(seed@, sender, index, block),
{
    (seed, sender, index, block).encode()
}

/// Calls `blake2_rfc::blake2b::blake2b` for a digest of sixteen bytes,
/// without a key.
///
/// The contract gives the digest a name and claims only that it is a
/// function of the data. The call cannot panic: sixteen is a length that the
/// hash offers, and the key is empty.
#[verifier::external_body]
fn blake2_128(data: &[u8]) -> (r: [u8; 16])
    ensures
        r@ == blake2_128_of(data@),
{
    let digest = blake2b(16, &[], data);
    let mut out = [0u8; 16];
    out.copy_from_slice(digest.as_bytes());
    out
}

/// Draws sixteen bytes for the payload of a founder from the seed of the
/// block, the sender, the place of the call in the block and the number of
/// the block: the hash of these four, written out one after the other.
pub fn random_value(seed: &[u8; 32], sender: u64, index: Option<u32>, block: u64) -> (r: [u8; 16])
    ensures
        r@ == blake2_128_of(payload_of(seed@, sender, index, block)),
{
    let payload = encode_payload(seed, sender, index, block);
    blake2_128(payload.as_slice())
}

/// Reads a payload as one number, least significant byte first.
pub fn dna_value(dna: &[u8; 16]) -> (r: u128)
    ensures
        r as nat == le_value(dna@),
{
    read_u128_le(dna)
}

/// Decides the sex that a payload stands for by the parity of its one bits.
pub fn sexual_from_dna(dna: u128) -> (r: KittySexual)
    ensures
        r == sexual_of(dna),
{
    let mut rest: u128 = dna;
    let mut odd: bool = false;
    while rest != 0
        invariant
            (count_ones(dna) % 2 == 1) == (odd != (count_ones(rest) % 2 == 1)),
        decreases rest,
    {
        if rest % 2 == 1 {
            odd = !odd;
        }
        rest = rest / 2;
    }
    if odd {
        KittySexual::Female
    } else {
        KittySexual::Male
    }
}

} // verus!
