//! Bit-level facts about 32-bit words used by the cipher's proofs.
use vstd::prelude::*;

verus! {

/// Bit `i` of `w` (bit 0 is the least significant).
pub open spec fn bit(w: u32, i: u32) -> bool {
    (w >> i) & 1u32 == 1u32
}

/// Shifting left by one and or-ing in the top bit is a rotation by one.
pub proof fn lemma_rotate_one(x: u32)
    ensures
        (x << 1u32) | (x >> 31u32) == ((x as int * 2) % 0x1_0000_0000 + x as int / 0x8000_0000) as u32,
{
    assert((x << 1u32) | (x >> 31u32) == ((x as int * 2) % 0x1_0000_0000 + x as int / 0x8000_0000) as u32)
        by (bit_vector);
}

/// The fields that the substitution layer extracts index its tables in bounds.
pub proof fn lemma_field_bounds(a: u32)
    ensures
        (a >> 26u32) & 0x3F < 64,
        (a >> 21u32) & 0x1F < 32,
        (a >> 16u32) & 0x1F < 32,
        (a >> 11u32) & 0x1F < 32,
        (a >> 6u32) & 0x1F < 32,
        a & 0x3F < 64,
{
    assert((a >> 26u32) & 0x3F < 64) by (bit_vector);
    assert((a >> 21u32) & 0x1F < 32) by (bit_vector);
    assert((a >> 16u32) & 0x1F < 32) by (bit_vector);
    assert((a >> 11u32) & 0x1F < 32) by (bit_vector);
    assert((a >> 6u32) & 0x1F < 32) by (bit_vector);
    assert(a & 0x3F < 64) by (bit_vector);
}

/// The mask of bit 0.
pub proof fn lemma_shift_start()
    ensures
        1u32 == 1u32 << 0u32,
{
    assert(1u32 == 1u32 << 0u32) by (bit_vector);
}

/// Moving a one-bit mask to the next bit.
pub proof fn lemma_shift_step(m: u32, i: u32)
    requires
        i < 32,
        m == 1u32 << i,
    ensures
        i + 1 < 32 ==> m << 1u32 == 1u32 << ((i + 1) as u32),
{
    assert(i < 32 && m == 1u32 << i && i + 1 < 32 ==> m << 1u32 == 1u32 << ((i + 1) as u32))
        by (bit_vector);
}

/// Zero has no bit set.
pub proof fn lemma_bit_of_zero(j: u32)
    ensures
        !bit(0u32, j),
{
    assert(!bit(0u32, j)) by (bit_vector);
}

/// Testing `w` against the mask of bit `i` reads bit `i`.
pub proof fn lemma_mask_test(w: u32, i: u32)
    requires
        i < 32,
    ensures
        ((w & (1u32 << i)) != 0u32) == bit(w, i),
{
    assert(i < 32 ==> (((w & (1u32 << i)) != 0u32) == bit(w, i))) by (bit_vector);
}

/// Testing against 8, 4, 2 and 1 reads bits 3, 2, 1 and 0.
pub proof fn lemma_low_bit_tests(v: u32)
    ensures
        ((v & 8u32) != 0u32) == bit(v, 3),
        ((v & 4u32) != 0u32) == bit(v, 2),
        ((v & 2u32) != 0u32) == bit(v, 1),
        ((v & 1u32) != 0u32) == bit(v, 0),
{
    assert(((v & 8u32) != 0u32) == bit(v, 3)) by (bit_vector);
    assert(((v & 4u32) != 0u32) == bit(v, 2)) by (bit_vector);
    assert(((v & 2u32) != 0u32) == bit(v, 1)) by (bit_vector);
    assert(((v & 1u32) != 0u32) == bit(v, 0)) by (bit_vector);
}

/// Or-ing in 8, 4, 2 and 1 under four conditions builds their sum.
pub proof fn lemma_nibble_build(pa: bool, pb: bool, pc: bool, pd: bool)
    ensures
        ({
            let x1: u32 = if pa { 0u32 | 8u32 } else { 0u32 };
            let x2: u32 = if pb { x1 | 4u32 } else { x1 };
            let x3: u32 = if pc { x2 | 2u32 } else { x2 };
            let x4: u32 = if pd { x3 | 1u32 } else { x3 };
            x4 as int == (if pa { 8int } else { 0int }) + (if pb { 4int } else { 0int }) + (if pc {
                2int
            } else {
                0int
            }) + (if pd { 1int } else { 0int })
        }),
{
    assert({
        let x1: u32 = if pa { 0u32 | 8u32 } else { 0u32 };
        let x2: u32 = if pb { x1 | 4u32 } else { x1 };
        let x3: u32 = if pc { x2 | 2u32 } else { x2 };
        let x4: u32 = if pd { x3 | 1u32 } else { x3 };
        x4 == (if pa { 8u32 } else { 0u32 }) + (if pb { 4u32 } else { 0u32 }) + (if pc {
            2u32
        } else {
            0u32
        }) + (if pd { 1u32 } else { 0u32 })
    }) by (bit_vector);
}

/// Setting bit `i` of `e` changes bit `i` only.
pub proof fn lemma_set_bit(e: u32, i: u32, j: u32)
    requires
        i < 32,
        j < 32,
    ensures
        bit(e | (1u32 << i), j) == (bit(e, j) || i == j),
{
    assert(i < 32 && j < 32 ==> bit(e | (1u32 << i), j) == (bit(e, j) || i == j)) by (bit_vector);
}

/// A nibble is the sum of its four bits.
pub proof fn lemma_nibble_of_bits(v: u32)
    requires
        v < 16,
    ensures
        (if bit(v, 3) { 8int } else { 0int }) + (if bit(v, 2) { 4int } else { 0int }) + (if bit(
            v,
            1,
        ) { 2int } else { 0int }) + (if bit(v, 0) { 1int } else { 0int }) == v,
{
    assert(v < 16 ==> (if bit(v, 3) { 8u32 } else { 0u32 }) + (if bit(v, 2) { 4u32 } else { 0u32 })
        + (if bit(v, 1) { 2u32 } else { 0u32 }) + (if bit(v, 0) { 1u32 } else { 0u32 }) == v)
        by (bit_vector);
}

/// Two words with the same 32 bits are equal.
pub proof fn lemma_bits_equal(a: u32, b: u32)
    requires
        forall|i: u32| i < 32 ==> bit(a, i) == bit(b, i),
    ensures
        a == b,
{
    assert(bit(a, 0) == bit(b, 0));
    assert(bit(a, 1) == bit(b, 1));
    assert(bit(a, 2) == bit(b, 2));
    assert(bit(a, 3) == bit(b, 3));
    assert(bit(a, 4) == bit(b, 4));
    assert(bit(a, 5) == bit(b, 5));
    assert(bit(a, 6) == bit(b, 6));
    assert(bit(a, 7) == bit(b, 7));
    assert(bit(a, 8) == bit(b, 8));
    assert(bit(a, 9) == bit(b, 9));
    assert(bit(a, 10) == bit(b, 10));
    assert(bit(a, 11) == bit(b, 11));
    assert(bit(a, 12) == bit(b, 12));
    assert(bit(a, 13) == bit(b, 13));
    assert(bit(a, 14) == bit(b, 14));
    assert(bit(a, 15) == bit(b, 15));
    assert(bit(a, 16) == bit(b, 16));
    assert(bit(a, 17) == bit(b, 17));
    assert(bit(a, 18) == bit(b, 18));
    assert(bit(a, 19) == bit(b, 19));
    assert(bit(a, 20) == bit(b, 20));
    assert(bit(a, 21) == bit(b, 21));
    assert(bit(a, 22) == bit(b, 22));
    assert(bit(a, 23) == bit(b, 23));
    assert(bit(a, 24) == bit(b, 24));
    assert(bit(a, 25) == bit(b, 25));
    assert(bit(a, 26) == bit(b, 26));
    assert(bit(a, 27) == bit(b, 27));
    assert(bit(a, 28) == bit(b, 28));
    assert(bit(a, 29) == bit(b, 29));
    assert(bit(a, 30) == bit(b, 30));
    assert(bit(a, 31) == bit(b, 31));
    assert(a == b) by (bit_vector)
        requires
            bit(a, 0) == bit(b, 0),
            bit(a, 1) == bit(b, 1),
            bit(a, 2) == bit(b, 2),
            bit(a, 3) == bit(b, 3),
            bit(a, 4) == bit(b, 4),
            bit(a, 5) == bit(b, 5),
            bit(a, 6) == bit(b, 6),
            bit(a, 7) == bit(b, 7),
            bit(a, 8) == bit(b, 8),
            bit(a, 9) == bit(b, 9),
            bit(a, 10) == bit(b, 10),
            bit(a, 11) == bit(b, 11),
            bit(a, 12) == bit(b, 12),
            bit(a, 13) == bit(b, 13),
            bit(a, 14) == bit(b, 14),
            bit(a, 15) == bit(b, 15),
            bit(a, 16) == bit(b, 16),
            bit(a, 17) == bit(b, 17),
            bit(a, 18) == bit(b, 18),
            bit(a, 19) == bit(b, 19),
            bit(a, 20) == bit(b, 20),
            bit(a, 21) == bit(b, 21),
            bit(a, 22) == bit(b, 22),
            bit(a, 23) == bit(b, 23),
            bit(a, 24) == bit(b, 24),
            bit(a, 25) == bit(b, 25),
            bit(a, 26) == bit(b, 26),
            bit(a, 27) == bit(b, 27),
            bit(a, 28) == bit(b, 28),
            bit(a, 29) == bit(b, 29),
            bit(a, 30) == bit(b, 30),
            bit(a, 31) == bit(b, 31),
    ;
}

/// Masking a word with all ones leaves it unchanged.
pub proof fn lemma_mask_all(x: u32)
    ensures
        x & 0xffffffffu32 == x,
{
    assert(x & 0xffffffffu32 == x) by (bit_vector);
}

/// Xor-ing the same word twice cancels.
pub proof fn lemma_xor_cancel(a: u32, s: u32)
    ensures
        (a ^ s) ^ s == a,
{
    assert((a ^ s) ^ s == a) by (bit_vector);
}

/// The four 32-bit words of a 128-bit value, from the most significant one.
pub proof fn lemma_u128_words(k: u128)
    ensures
        ((k >> 96u32) & 0xffffffffu128) as u32 == ((k as int / 0x1_0000_0000_0000_0000_0000_0000)
            % 0x1_0000_0000) as u32,
        ((k >> 64u32) & 0xffffffffu128) as u32 == ((k as int / 0x1_0000_0000_0000_0000)
            % 0x1_0000_0000) as u32,
        ((k >> 32u32) & 0xffffffffu128) as u32 == ((k as int / 0x1_0000_0000) % 0x1_0000_0000) as u32,
        (k & 0xffffffffu128) as u32 == (k as int % 0x1_0000_0000) as u32,
{
    assert(((k >> 96u32) & 0xffffffffu128) as u32 == ((k as int / 0x1_0000_0000_0000_0000_0000_0000)
        % 0x1_0000_0000) as u32) by (bit_vector);
    assert(((k >> 64u32) & 0xffffffffu128) as u32 == ((k as int / 0x1_0000_0000_0000_0000)
        % 0x1_0000_0000) as u32) by (bit_vector);
    assert(((k >> 32u32) & 0xffffffffu128) as u32 == ((k as int / 0x1_0000_0000) % 0x1_0000_0000) as u32)
        by (bit_vector);
    assert((k & 0xffffffffu128) as u32 == (k as int % 0x1_0000_0000) as u32) by (bit_vector);
}

/// The word whose bits `0 .. n` are given by `f` and whose other bits are clear.
pub open spec fn word_from_bits(f: spec_fn(u32) -> bool, n: nat) -> u32
    decreases n,
{
    if n == 0 {
        0
    } else {
        let w = word_from_bits(f, (n - 1) as nat);
        if f((n - 1) as u32) {
            w | (1u32 << ((n - 1) as u32))
        } else {
            w
        }
    }
}

/// `word_from_bits` has the bits it is built from.
pub proof fn lemma_word_from_bits(f: spec_fn(u32) -> bool, n: nat)
    requires
        n <= 32,
    ensures
        forall|i: u32| i < 32 ==> #[trigger] bit(word_from_bits(f, n), i) == ((i as int) < n && f(i)),
    decreases n,
{
    if n == 0 {
        assert forall|i: u32| i < 32 implies !#[trigger] bit(word_from_bits(f, n), i) by {
            lemma_bit_of_zero(i);
        }
    } else {
        let k = (n - 1) as u32;
        lemma_word_from_bits(f, (n - 1) as nat);
        assert forall|i: u32| i < 32 implies #[trigger] bit(word_from_bits(f, n), i) == ((i as int)
            < n && f(i)) by {
            lemma_set_bit(word_from_bits(f, (n - 1) as nat), k, i);
        }
    }
}

} // verus!
