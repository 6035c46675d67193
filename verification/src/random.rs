//! The reproducible random source: one seed, one stream.
//!
//! A 128-bit seed is spread over the 32-byte key of a ChaCha generator.
//! Everything that is drawn afterwards comes from that generator, so the
//! seed alone decides the stream.

use rand_chacha::rand_core::SeedableRng;
use rand_chacha::ChaCha20Rng;
use vstd::prelude::*;

verus! {

/// `rand_chacha::ChaCha20Rng`, carried through verified code as an opaque
/// value.
#[verifier::external_type_specification]
#[verifier::external_body]
pub struct ExChaCha20Rng(ChaCha20Rng);

/// The generator that a 32-byte key gives, before anything is drawn from
/// it.
pub uninterp spec fn seeded_generator(key: Seq<u8>) -> ChaCha20Rng;

/// `ChaCha20Rng::from_seed`: the generator is set up from the key and a
/// zero stream number, with nothing drawn yet. It depends on the key alone.
#[verifier::external_body]
fn generator_from_key(key: [u8; 32]) -> (r: ChaCha20Rng)
    ensures
        r == seeded_generator(key@),
{
    ChaCha20Rng::from_seed(key)
}

/// Byte `i` of the seed, counted from the most significant one.
pub open spec fn be_byte(seed: u128, i: int) -> u8 {
    ((seed >> ((8 * (15 - i)) as u128)) & 0xff) as u8
}

/// Byte `i` of the seed, counted from the least significant one.
pub open spec fn le_byte(seed: u128, i: int) -> u8 {
    ((seed >> ((8 * i) as u128)) & 0xff) as u8
}

/// The key of a seed: its bytes in big-endian order from the front, and in
/// little-endian order from the back.
pub open spec fn key_of(seed: u128) -> Seq<u8> {
    Seq::new(
        32,
        |i: int|
            if i < 16 {
                be_byte(seed, i)
            } else {
                le_byte(seed, 31 - i)
            },
    )
}

/// Spreads a seed over a 32-byte key.
pub fn seed_key(seed: u128) -> (key: [u8; 32])
    ensures
        key@ == key_of(seed),
{
    let mut key = [0u8; 32];
    let mut i: usize = 0;
    while i < 16
        invariant
            i <= 16,
            forall|j: int| 0 <= j < i ==> key@[j] == be_byte(seed, j),
            forall|j: int| 0 <= j < i ==> key@[31 - j] == le_byte(seed, j),
        decreases 16 - i,
    {
        let high: u128 = (8 * (15 - i)) as u128;
        let low: u128 = (8 * i) as u128;
        key[i] = ((seed >> high) & 0xff) as u8;
        key[31 - i] = ((seed >> low) & 0xff) as u8;
        i += 1;
    }
    assert(key@ =~= key_of(seed)) by {
        assert forall|j: int| 0 <= j < 32 implies key@[j] == key_of(seed)[j] by {
            if j >= 16 {
                assert(key@[31 - (31 - j)] == le_byte(seed, 31 - j));
            }
        }
    }
    key
}

/// The generator of a seed. Equal seeds give equal generators, and so equal
/// streams, on every machine.
pub fn seeded_rng(seed: u128) -> (r: ChaCha20Rng)
    ensures
        r == seeded_generator(key_of(seed)),
{
    generator_from_key(seed_key(seed))
}

/// Both halves of a key hold the seed, most significant byte first: the seed
/// stands in the key twice.
pub proof fn lemma_key_halves(seed: u128, i: int)
    requires
        0 <= i < 16,
    ensures
        key_of(seed)[i] == be_byte(seed, i),
        key_of(seed)[i + 16] == be_byte(seed, i),
{
    assert(31 - (i + 16) == 15 - i);
}

/// A byte of the seed, before it is cut down to its type.
spec fn wide_byte(seed: u128, shift: u128) -> u128 {
    (seed >> shift) & 0xff
}

/// Two seeds with one key have the same byte at each place.
proof fn lemma_same_byte(a: u128, b: u128, i: int)
    requires
        key_of(a) == key_of(b),
        0 <= i < 16,
    ensures
        wide_byte(a, (8 * (15 - i)) as u128) == wide_byte(b, (8 * (15 - i)) as u128),
{
    let shift = (8 * (15 - i)) as u128;
    let x = wide_byte(a, shift);
    let y = wide_byte(b, shift);
    assert(key_of(a)[i] == be_byte(a, i));
    assert(key_of(b)[i] == be_byte(b, i));
    assert(x < 256) by (bit_vector)
        requires
            x == (a >> shift) & 0xff,
    ;
    assert(y < 256) by (bit_vector)
        requires
            y == (b >> shift) & 0xff,
    ;
    assert(x as u8 == y as u8);
}

/// The key tells the seed: two seeds with one key are one seed.
pub proof fn lemma_key_injective(a: u128, b: u128)
    requires
        key_of(a) == key_of(b),
    ensures
        a == b,
{
    lemma_same_byte(a, b, 0);
    lemma_same_byte(a, b, 1);
    lemma_same_byte(a, b, 2);
    lemma_same_byte(a, b, 3);
    lemma_same_byte(a, b, 4);
    lemma_same_byte(a, b, 5);
    lemma_same_byte(a, b, 6);
    lemma_same_byte(a, b, 7);
    lemma_same_byte(a, b, 8);
    lemma_same_byte(a, b, 9);
    lemma_same_byte(a, b, 10);
    lemma_same_byte(a, b, 11);
    lemma_same_byte(a, b, 12);
    lemma_same_byte(a, b, 13);
    lemma_same_byte(a, b, 14);
    lemma_same_byte(a, b, 15);
    assert(a == b) by (bit_vector)
        requires
            (a >> 120) & 0xff == (b >> 120) & 0xff,
            (a >> 112) & 0xff == (b >> 112) & 0xff,
            (a >> 104) & 0xff == (b >> 104) & 0xff,
            (a >> 96) & 0xff == (b >> 96) & 0xff,
            (a >> 88) & 0xff == (b >> 88) & 0xff,
            (a >> 80) & 0xff == (b >> 80) & 0xff,
            (a >> 72) & 0xff == (b >> 72) & 0xff,
            (a >> 64) & 0xff == (b >> 64) & 0xff,
            (a >> 56) & 0xff == (b >> 56) & 0xff,
            (a >> 48) & 0xff == (b >> 48) & 0xff,
            (a >> 40) & 0xff == (b >> 40) & 0xff,
            (a >> 32) & 0xff == (b >> 32) & 0xff,
            (a >> 24) & 0xff == (b >> 24) & 0xff,
            (a >> 16) & 0xff == (b >> 16) & 0xff,
            (a >> 8) & 0xff == (b >> 8) & 0xff,
            (a >> 0) & 0xff == (b >> 0) & 0xff,
    ;
}

} // verus!
