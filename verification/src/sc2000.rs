//! The SC2000-style 128-bit block cipher: round functions, key schedule and
//! the encryption and decryption of one block of four 32-bit words.
use vstd::prelude::*;
use vstd::arithmetic::div_mod::lemma_div_is_ordered;

use crate::bits::{
    bit, lemma_bit_of_zero, lemma_bits_equal, lemma_field_bounds, lemma_low_bit_tests, lemma_mask_test,
    lemma_nibble_build, lemma_nibble_of_bits, lemma_rotate_one, lemma_set_bit, lemma_shift_start,
    lemma_shift_step, lemma_mask_all, lemma_xor_cancel, lemma_u128_words, word_from_bits,
    lemma_word_from_bits,
};

verus! {

/// Positions of the four words of a block and of the four intermediate keys.
pub const _A_: usize = 0;
pub const _B_: usize = 1;
pub const _C_: usize = 2;
pub const _D_: usize = 3;

/// Positions inside a row of `INDEX` and `ORDER`.
pub const _X_: usize = 0;
pub const _Y_: usize = 1;
pub const _Z_: usize = 2;
pub const _W_: usize = 3;

/// Rows of the linear mixing matrix.
pub const M: [u32; 32] = [
    0xd0c19225, 0xa5a2240a, 0x1b84d250, 0xb728a4a1,
    0x6a704902, 0x85dddbe6, 0x766ff4a4, 0xecdfe128,
    0xafd13e94, 0xdf837d09, 0xbb27fa52, 0x695059ad,
    0x52a1bb58, 0xcc322f1d, 0x1844565b, 0xb4a8acf6,
    0x34235438, 0x6847a851, 0xe48c0cbb, 0xcd181136,
    0x9a112a0c, 0x43ec6d0e, 0x87d8d27d, 0x487dc995,
    0x90fb9b4b, 0xa1f63697, 0xfc513ed9, 0x78a37d93,
    0x8d16c5df, 0x9e0c8bbe, 0x3c381f7c, 0xe9fb0779,
];

/// The 6-bit substitution box.
pub const S6: [u32; 64] = [
    47, 59, 25, 42, 15, 23, 28, 39, 26, 38, 36, 19, 60, 24, 29, 56,
    37, 63, 20, 61, 55, 2, 30, 44, 9, 10, 6, 22, 53, 48, 51, 11,
    62, 52, 35, 18, 14, 46, 0, 54, 17, 40, 27, 4, 31, 8, 5, 12,
    3, 16, 41, 34, 33, 7, 45, 49, 50, 58, 1, 21, 43, 57, 32, 13,
];

/// The 5-bit substitution box.
pub const S5: [u32; 32] = [
    20, 26, 7, 31, 19, 12, 10, 15, 22, 30, 13, 14, 4, 24, 9, 18,
    27, 11, 1, 21, 6, 16, 2, 28, 23, 5, 8, 3, 0, 17, 29, 25,
];

/// The 4-bit substitution box of the bitslice layer.
pub const S4: [u32; 16] = [2, 5, 10, 12, 7, 15, 1, 11, 13, 6, 0, 9, 4, 8, 3, 14];

/// The inverse of `S4`.
pub const S4_1: [u32; 16] = [10, 6, 0, 14, 12, 1, 9, 4, 13, 11, 2, 7, 3, 8, 15, 5];

/// Which column of each intermediate key a round key takes.
pub const INDEX: [[usize; 4]; 9] = [
    [0, 0, 0, 0],
    [1, 1, 1, 1],
    [2, 2, 2, 2],
    [0, 1, 0, 1],
    [1, 2, 1, 2],
    [2, 0, 2, 0],
    [0, 2, 0, 2],
    [1, 0, 1, 0],
    [2, 1, 2, 1],
];

/// In which order the four intermediate keys enter a round key.
pub const ORDER: [[usize; 4]; 12] = [
    [_A_, _B_, _C_, _D_],
    [_B_, _A_, _D_, _C_],
    [_C_, _D_, _A_, _B_],
    [_D_, _C_, _B_, _A_],
    [_A_, _C_, _D_, _B_],
    [_B_, _D_, _C_, _A_],
    [_C_, _A_, _B_, _D_],
    [_D_, _B_, _A_, _C_],
    [_A_, _D_, _B_, _C_],
    [_B_, _C_, _A_, _D_],
    [_C_, _B_, _D_, _A_],
    [_D_, _A_, _C_, _B_],
];

/// A block: four 32-bit words `(a, b, c, d)`.
pub type Block = (u32, u32, u32, u32);

// ---------------------------------------------------------------------------
// Specifications of the round functions
// ---------------------------------------------------------------------------

/// `x` rotated left by one bit.
pub open spec fn spec_rol1(x: u32) -> u32 {
    ((x as int * 2) % 0x1_0000_0000 + x as int / 0x8000_0000) as u32
}

/// The mask-controlled exchange of bits between two words.
pub open spec fn spec_lf(a: u32, b: u32, mask: u32) -> (u32, u32) {
    (b ^ (a & mask), a ^ (b & !mask))
}

/// The mixing function as the cipher computes it: it folds the rows of `M`
/// chosen by the bits of its argument over the index range `31..=0`, which is
/// empty, so it is the constant zero.
pub open spec fn spec_mf(a: u32) -> u32 {
    0
}

/// The substitution layer: S6 on the top and bottom six bits, S5 on the four
/// five-bit groups between them.
pub open spec fn spec_sf(a: u32) -> u32 {
    (S6@[((a >> 26u32) & 0x3F) as int] << 26u32)
        | (S5@[((a >> 21u32) & 0x1F) as int] << 21u32)
        | (S5@[((a >> 16u32) & 0x1F) as int] << 16u32)
        | (S5@[((a >> 11u32) & 0x1F) as int] << 11u32)
        | (S5@[((a >> 6u32) & 0x1F) as int] << 6u32)
        | S6@[(a & 0x3F) as int]
}

/// The F function: substitution and mixing of both words, then the exchange.
pub open spec fn spec_ff(a: u32, b: u32, mask: u32) -> (u32, u32) {
    spec_lf(spec_mf(spec_sf(a)), spec_mf(spec_sf(b)), mask)
}

/// The round function: the left half is masked by F of the right half.
pub open spec fn spec_rf(x: Block, mask: u32) -> Block {
    let st = spec_ff(x.2, x.3, mask);
    (x.0 ^ st.0, x.1 ^ st.1, x.2, x.3)
}

/// Two round functions, the second one's result with its halves exchanged,
/// as each stage of the cipher applies them.
pub open spec fn spec_round_pair(x: Block, mask: u32) -> Block {
    let y = spec_rf(spec_rf(x, mask), mask);
    (y.2, y.3, y.0, y.1)
}

/// The key-addition layer.
pub open spec fn spec_iif(x: Block, k: Block) -> Block {
    (x.0 ^ k.0, x.1 ^ k.1, x.2 ^ k.2, x.3 ^ k.3)
}

/// The four-bit value formed by bit `i` of the words `a`, `b`, `c`, `d`
/// (`a` gives the most significant bit).
pub open spec fn nibble(x: Block, i: u32) -> int {
    (if bit(x.0, i) { 8int } else { 0int }) + (if bit(x.1, i) { 4int } else { 0int }) + (if bit(
        x.2,
        i,
    ) { 2int } else { 0int }) + (if bit(x.3, i) { 1int } else { 0int })
}

/// `y` is `x` with every bit column passed through `table`.
pub open spec fn substitutes(table: Seq<u32>, x: Block, y: Block) -> bool {
    forall|i: u32| i < 32 ==> #[trigger] nibble(y, i) == table[nibble(x, i)] as int
}

/// The bitslice substitution of `x` by `table` (unique, see `lemma_substitutes_unique`).
pub open spec fn sbox_layer(table: Seq<u32>, x: Block) -> Block {
    choose|y: Block| substitutes(table, x, y)
}

/// The bitslice layer of the cipher.
pub open spec fn spec_bf(x: Block) -> Block {
    sbox_layer(S4@, x)
}

/// The inverse bitslice layer.
pub open spec fn spec_bf_1(x: Block) -> Block {
    sbox_layer(S4_1@, x)
}

// ---------------------------------------------------------------------------
// Specifications of the key schedule and of the block functions
// ---------------------------------------------------------------------------

/// One intermediate key from two words of the user key.
pub open spec fn spec_make_one_imkey(k1: u32, k2: u32, i: u32, j: u32) -> u32 {
    let ka = spec_mf(spec_sf(k1));
    let kb = spec_mf(spec_sf(k2));
    let m = spec_mf(spec_sf((4 * i + j) as u32));
    let ka = ((ka + m) % 0x1_0000_0000) as u32;
    let kb = ((kb * (i + 1)) % 0x1_0000_0000) as u32;
    spec_mf(spec_sf(ka ^ kb))
}

/// Word `n` of the 128-bit user key, counted from the most significant one.
pub open spec fn key_word(ukey: u128, n: int) -> u32 {
    let unit: int = if n == 0 {
        0x1_0000_0000_0000_0000_0000_0000
    } else if n == 1 {
        0x1_0000_0000_0000_0000
    } else if n == 2 {
        0x1_0000_0000
    } else {
        1
    };
    ((ukey as int / unit) % 0x1_0000_0000) as u32
}

/// The intermediate key in row `r` and column `c`: rows `A` and `C` come from
/// the first two key words, rows `B` and `D` from the last two.
pub open spec fn spec_imkey(ukey: u128, r: int, c: int) -> u32 {
    spec_make_one_imkey(
        key_word(ukey, 2 * (r % 2)),
        key_word(ukey, 2 * (r % 2) + 1),
        c as u32,
        r as u32,
    )
}

/// A round key from the four intermediate-key words that it combines.
pub open spec fn spec_ekey_mix(x: u32, y: u32, z: u32, w: u32) -> u32 {
    let x = ((spec_rol1(x) + y) % 0x1_0000_0000) as u32;
    let z = ((spec_rol1(z) - w) % 0x1_0000_0000) as u32;
    x ^ spec_rol1(z)
}

/// Round key `(t, s)` picked from an array of intermediate keys.
pub open spec fn ekey_from_imkeys(imkey: [[u32; 3]; 4], t: int, s: int) -> u32 {
    let o = ORDER@[t]@;
    let ix = INDEX@[s]@;
    spec_ekey_mix(
        imkey@[o[0] as int]@[ix[0] as int],
        imkey@[o[1] as int]@[ix[1] as int],
        imkey@[o[2] as int]@[ix[2] as int],
        imkey@[o[3] as int]@[ix[3] as int],
    )
}

/// Round key number `n` of the user key `ukey`.
pub open spec fn spec_ekey(ukey: u128, n: int) -> u32 {
    let t = (n + n / 36) % 12;
    let s = n % 9;
    let o = ORDER@[t]@;
    let ix = INDEX@[s]@;
    spec_ekey_mix(
        spec_imkey(ukey, o[0] as int, ix[0] as int),
        spec_imkey(ukey, o[1] as int, ix[1] as int),
        spec_imkey(ukey, o[2] as int, ix[2] as int),
        spec_imkey(ukey, o[3] as int, ix[3] as int),
    )
}

/// The four round-key words number `4 * j` to `4 * j + 3`.
pub open spec fn round_key(ek: Seq<u32>, j: int) -> Block {
    (ek[4 * j], ek[4 * j + 1], ek[4 * j + 2], ek[4 * j + 3])
}

/// The keyed bitslice step of encryption number `g`: round key `2 g`, the
/// bitslice layer, round key `2 g + 1`.
pub open spec fn crypt_core(x: Block, ek: Seq<u32>, g: int) -> Block {
    spec_iif(spec_bf(spec_iif(x, round_key(ek, 2 * g))), round_key(ek, 2 * g + 1))
}

/// The keyed bitslice step of decryption number `g`: round key `2 g + 1`,
/// the inverse bitslice layer, round key `2 g`.
pub open spec fn decrypt_core(x: Block, ek: Seq<u32>, g: int) -> Block {
    spec_iif(spec_bf_1(spec_iif(x, round_key(ek, 2 * g + 1))), round_key(ek, 2 * g))
}

/// Encryption of the block `x` under the round keys `ek`: seven keyed
/// bitslice steps with a round pair between each two of them.
pub open spec fn spec_crypt_block(x: Block, ek: Seq<u32>) -> Block {
    let x = spec_round_pair(crypt_core(x, ek, 0), 0x55555555);
    let x = spec_round_pair(crypt_core(x, ek, 1), 0x33333333);
    let x = spec_round_pair(crypt_core(x, ek, 2), 0x55555555);
    let x = spec_round_pair(crypt_core(x, ek, 3), 0x33333333);
    let x = spec_round_pair(crypt_core(x, ek, 4), 0x55555555);
    let x = spec_round_pair(crypt_core(x, ek, 5), 0x33333333);
    crypt_core(x, ek, 6)
}

/// Decryption of the block `x` under the round keys `ek`: the steps of
/// encryption in reverse order, with the inverse bitslice layer.
pub open spec fn spec_decrypt_block(x: Block, ek: Seq<u32>) -> Block {
    let x = spec_round_pair(decrypt_core(x, ek, 6), 0x33333333);
    let x = spec_round_pair(decrypt_core(x, ek, 5), 0x55555555);
    let x = spec_round_pair(decrypt_core(x, ek, 4), 0x33333333);
    let x = spec_round_pair(decrypt_core(x, ek, 3), 0x55555555);
    let x = spec_round_pair(decrypt_core(x, ek, 2), 0x33333333);
    let x = spec_round_pair(decrypt_core(x, ek, 1), 0x55555555);
    decrypt_core(x, ek, 0)
}

// ---------------------------------------------------------------------------
// Round functions
// ---------------------------------------------------------------------------

/// Rotates `x` left by one bit.
pub fn rol1(x: u32) -> (r: u32)
    ensures
        r == spec_rol1(x),
{
    proof {
        lemma_rotate_one(x);
    }
    (x << 1u32) | (x >> 31u32)
}

/// Exchanges the bits of `a` and `b` selected by `mask`.
pub fn lf(a: u32, b: u32, mask: u32) -> (r: (u32, u32))
    ensures
        r == spec_lf(a, b, mask),
{
    (b ^ (a & mask), a ^ (b & !mask))
}

/// The mixing function; the range `31..=0` of its loop is empty, so it
/// returns zero whatever its argument.
pub fn mf(a: u32) -> (r: u32)
    ensures
        r == spec_mf(a),
{
    let mut a = a;
    let mut b: u32 = 0;
    let first: u32 = 31;
    let last: u32 = 0;
    let mut i: u32 = first;
    while i <= last
        invariant
            first == 31,
            last == 0,
            i == first,
            b == 0,
        decreases last - i,
    {
        if a & 1 != 0 {
            b = b ^ M[i as usize];
        }
        a >>= 1u32;
        i += 1;
    }
    b
}

/// The substitution layer.
pub fn sf(a: u32) -> (r: u32)
    ensures
        r == spec_sf(a),
{
    proof {
        lemma_field_bounds(a);
    }
    let i1 = (a >> 26u32) & 0x3F;
    let i2 = (a >> 21u32) & 0x1F;
    let i3 = (a >> 16u32) & 0x1F;
    let i4 = (a >> 11u32) & 0x1F;
    let i5 = (a >> 6u32) & 0x1F;
    let i6 = a & 0x3F;
    let s1 = S6[i1 as usize] << 26u32;
    let s2 = S5[i2 as usize] << 21u32;
    let s3 = S5[i3 as usize] << 16u32;
    let s4 = S5[i4 as usize] << 11u32;
    let s5 = S5[i5 as usize] << 6u32;
    let s6 = S6[i6 as usize];
    s1 | s2 | s3 | s4 | s5 | s6
}

/// The F function.
pub fn ff(a: u32, b: u32, mask: u32) -> (r: (u32, u32))
    ensures
        r == spec_ff(a, b, mask),
{
    lf(mf(sf(a)), mf(sf(b)), mask)
}

/// The round function.
pub fn rf(a: u32, b: u32, c: u32, d: u32, mask: u32) -> (r: (u32, u32, u32, u32))
    ensures
        r == spec_rf((a, b, c, d), mask),
{
    let (s, t) = ff(c, d, mask);
    let (e, f) = (a ^ s, b ^ t);
    let (g, h) = (c, d);
    (e, f, g, h)
}

/// The bitslice layer.
pub fn bf(a: u32, b: u32, c: u32, d: u32) -> (r: (u32, u32, u32, u32))
    ensures
        r == spec_bf((a, b, c, d)),
{
    bf_helper(a, b, c, d, false)
}

/// The inverse bitslice layer.
pub fn bf_1(a: u32, b: u32, c: u32, d: u32) -> (r: (u32, u32, u32, u32))
    ensures
        r == spec_bf_1((a, b, c, d)),
{
    bf_helper(a, b, c, d, true)
}

/// Passes each of the 32 bit columns of `(a, b, c, d)` through `S4`, or
/// through its inverse `S4_1` when `r` holds.
pub fn bf_helper(a: u32, b: u32, c: u32, d: u32, r: bool) -> (res: (u32, u32, u32, u32))
    ensures
        res == sbox_layer(if r { S4_1@ } else { S4@ }, (a, b, c, d)),
{
    let ghost table: Seq<u32> = if r { S4_1@ } else { S4@ };
    let ghost blk: Block = (a, b, c, d);
    proof {
        lemma_tables_small();
    }
    let mut e: u32 = 0;
    let mut f: u32 = 0;
    let mut g: u32 = 0;
    let mut h: u32 = 0;
    let mut m: u32 = 1;
    proof {
        lemma_shift_start();
        assert forall|j: u32| j < 32 implies !bit(0u32, j) by {
            lemma_bit_of_zero(j);
        }
    }
    for i in 0..32u32
        invariant
            table == (if r { S4_1@ } else { S4@ }),
            blk == (a, b, c, d),
            table.len() == 16,
            forall|n: int| 0 <= n < 16 ==> #[trigger] table[n] < 16,
            i < 32 ==> m == 1u32 << i,
            forall|j: u32|
                j < 32 ==> #[trigger] bit(e, j) == (j < i && bit(table[nibble(blk, j)], 3)),
            forall|j: u32|
                j < 32 ==> #[trigger] bit(f, j) == (j < i && bit(table[nibble(blk, j)], 2)),
            forall|j: u32|
                j < 32 ==> #[trigger] bit(g, j) == (j < i && bit(table[nibble(blk, j)], 1)),
            forall|j: u32|
                j < 32 ==> #[trigger] bit(h, j) == (j < i && bit(table[nibble(blk, j)], 0)),
    {
        let ghost (e0, f0, g0, h0) = (e, f, g, h);
        proof {
            lemma_mask_test(a, i);
            lemma_mask_test(b, i);
            lemma_mask_test(c, i);
            lemma_mask_test(d, i);
        }
        let mut x: u32 = 0u32;
        if a & m != 0 {
            x |= 8;
        }
        if b & m != 0 {
            x |= 4;
        }
        if c & m != 0 {
            x |= 2;
        }
        if d & m != 0 {
            x |= 1;
        }
        proof {
            lemma_nibble_build(bit(a, i), bit(b, i), bit(c, i), bit(d, i));
        }
        assert(x as int == nibble((a, b, c, d), i));
        x = match r {
            false => S4[x as usize],
            true => S4_1[x as usize],
        };
        assert(x == table[nibble((a, b, c, d), i)]);
        proof {
            lemma_low_bit_tests(x);
        }
        if x & 8 != 0 {
            e |= m;
        }
        if x & 4 != 0 {
            f |= m;
        }
        if x & 2 != 0 {
            g |= m;
        }
        if x & 1 != 0 {
            h |= m;
        }
        proof {
            assert forall|j: u32| j < 32 implies #[trigger] bit(e, j) == (j < i + 1 && bit(
                table[nibble((a, b, c, d), j)],
                3,
            )) by {
                lemma_set_bit(e0, i, j);
            }
            assert forall|j: u32| j < 32 implies #[trigger] bit(f, j) == (j < i + 1 && bit(
                table[nibble((a, b, c, d), j)],
                2,
            )) by {
                lemma_set_bit(f0, i, j);
            }
            assert forall|j: u32| j < 32 implies #[trigger] bit(g, j) == (j < i + 1 && bit(
                table[nibble((a, b, c, d), j)],
                1,
            )) by {
                lemma_set_bit(g0, i, j);
            }
            assert forall|j: u32| j < 32 implies #[trigger] bit(h, j) == (j < i + 1 && bit(
                table[nibble((a, b, c, d), j)],
                0,
            )) by {
                lemma_set_bit(h0, i, j);
            }
            lemma_shift_step(m, i);
        }
        m <<= 1u32;
    }
    proof {
        assert forall|j: u32| j < 32 implies #[trigger] nibble((e, f, g, h), j) == table[nibble(
            blk,
            j,
        )] as int by {
            lemma_nibble_of_bits(table[nibble(blk, j)]);
        }
        lemma_substitutes_unique(table, blk, (e, f, g, h));
    }
    (e, f, g, h)
}

/// The key-addition layer.
pub fn iif(a: u32, b: u32, c: u32, d: u32, ka: u32, kb: u32, kc: u32, kd: u32) -> (r: (
    u32,
    u32,
    u32,
    u32,
))
    ensures
        r == spec_iif((a, b, c, d), (ka, kb, kc, kd)),
{
    (a ^ ka, b ^ kb, c ^ kc, d ^ kd)
}

// ---------------------------------------------------------------------------
// Facts about the substitution tables and the bitslice layer
// ---------------------------------------------------------------------------

/// Every entry of `S4` and `S4_1` is a nibble, and each table undoes the other.
pub proof fn lemma_tables_small()
    ensures
        S4@.len() == 16,
        S4_1@.len() == 16,
        forall|n: int| 0 <= n < 16 ==> #[trigger] S4@[n] < 16,
        forall|n: int| 0 <= n < 16 ==> #[trigger] S4_1@[n] < 16,
        forall|n: int| 0 <= n < 16 ==> #[trigger] S4_1@[S4@[n] as int] == n,
        forall|n: int| 0 <= n < 16 ==> #[trigger] S4@[S4_1@[n] as int] == n,
{
}

/// Two blocks with the same 32 bit columns are the same block.
pub proof fn lemma_nibbles_determine(y: Block, z: Block)
    requires
        forall|i: u32| i < 32 ==> #[trigger] nibble(y, i) == nibble(z, i),
    ensures
        y == z,
{
    assert forall|i: u32| i < 32 implies bit(y.0, i) == bit(z.0, i) && bit(y.1, i) == bit(z.1, i)
        && bit(y.2, i) == bit(z.2, i) && bit(y.3, i) == bit(z.3, i) by {
        assert(nibble(y, i) == nibble(z, i));
    }
    lemma_bits_equal(y.0, z.0);
    lemma_bits_equal(y.1, z.1);
    lemma_bits_equal(y.2, z.2);
    lemma_bits_equal(y.3, z.3);
}

/// Every block has a bitslice substitution through a table of 16 nibbles.
pub proof fn lemma_sbox_layer_substitutes(table: Seq<u32>, x: Block)
    requires
        table.len() == 16,
        forall|n: int| 0 <= n < 16 ==> #[trigger] table[n] < 16,
    ensures
        substitutes(table, x, sbox_layer(table, x)),
{
    let f3 = |i: u32| bit(table[nibble(x, i)], 3);
    let f2 = |i: u32| bit(table[nibble(x, i)], 2);
    let f1 = |i: u32| bit(table[nibble(x, i)], 1);
    let f0 = |i: u32| bit(table[nibble(x, i)], 0);
    let y: Block = (
        word_from_bits(f3, 32),
        word_from_bits(f2, 32),
        word_from_bits(f1, 32),
        word_from_bits(f0, 32),
    );
    lemma_word_from_bits(f3, 32);
    lemma_word_from_bits(f2, 32);
    lemma_word_from_bits(f1, 32);
    lemma_word_from_bits(f0, 32);
    assert forall|i: u32| i < 32 implies #[trigger] nibble(y, i) == table[nibble(x, i)] as int by {
        assert(bit(y.0, i) == f3(i));
        assert(bit(y.1, i) == f2(i));
        assert(bit(y.2, i) == f1(i));
        assert(bit(y.3, i) == f0(i));
        lemma_nibble_of_bits(table[nibble(x, i)]);
    }
    assert(substitutes(table, x, y));
}

/// A block that substitutes `x` through `table` is `sbox_layer(table, x)`.
pub proof fn lemma_substitutes_unique(table: Seq<u32>, x: Block, y: Block)
    requires
        substitutes(table, x, y),
    ensures
        sbox_layer(table, x) == y,
{
    let z = sbox_layer(table, x);
    assert(substitutes(table, x, z));
    assert forall|i: u32| i < 32 implies #[trigger] nibble(z, i) == nibble(y, i) by {
        assert(nibble(z, i) == table[nibble(x, i)] as int);
    }
    lemma_nibbles_determine(z, y);
}

/// The inverse bitslice layer undoes the bitslice layer, and the other way round.
pub proof fn lemma_bf_inverse(x: Block)
    ensures
        spec_bf_1(spec_bf(x)) == x,
        spec_bf(spec_bf_1(x)) == x,
{
    lemma_tables_small();
    let y = spec_bf(x);
    lemma_sbox_layer_substitutes(S4@, x);
    lemma_sbox_layer_substitutes(S4_1@, y);
    let z = spec_bf_1(y);
    assert forall|i: u32| i < 32 implies #[trigger] nibble(z, i) == nibble(x, i) by {
        assert(nibble(y, i) == S4@[nibble(x, i)] as int);
        assert(nibble(z, i) == S4_1@[nibble(y, i)] as int);
    }
    lemma_nibbles_determine(z, x);

    let u = spec_bf_1(x);
    lemma_sbox_layer_substitutes(S4_1@, x);
    lemma_sbox_layer_substitutes(S4@, u);
    let v = spec_bf(u);
    assert forall|i: u32| i < 32 implies #[trigger] nibble(v, i) == nibble(x, i) by {
        assert(nibble(u, i) == S4_1@[nibble(x, i)] as int);
        assert(nibble(v, i) == S4@[nibble(u, i)] as int);
    }
    lemma_nibbles_determine(v, x);
}

/// The round function is an involution, whatever the mask.
pub proof fn lemma_rf_involution(x: Block, mask: u32)
    ensures
        spec_rf(spec_rf(x, mask), mask) == x,
{
    let st = spec_ff(x.2, x.3, mask);
    lemma_xor_cancel(x.0, st.0);
    lemma_xor_cancel(x.1, st.1);
}

/// A round pair only exchanges the two halves of the block.
pub proof fn lemma_round_pair_swaps(x: Block, mask: u32)
    ensures
        spec_round_pair(x, mask) == (x.2, x.3, x.0, x.1),
{
    lemma_rf_involution(x, mask);
}

/// Adding the same key twice cancels.
pub proof fn lemma_iif_involution(x: Block, k: Block)
    ensures
        spec_iif(spec_iif(x, k), k) == x,
{
    lemma_xor_cancel(x.0, k.0);
    lemma_xor_cancel(x.1, k.1);
    lemma_xor_cancel(x.2, k.2);
    lemma_xor_cancel(x.3, k.3);
}

/// Each keyed bitslice step of decryption undoes the matching step of
/// encryption, and the other way round.
pub proof fn lemma_core_inverse(x: Block, ek: Seq<u32>, g: int)
    ensures
        decrypt_core(crypt_core(x, ek, g), ek, g) == x,
        crypt_core(decrypt_core(x, ek, g), ek, g) == x,
{
    let k0 = round_key(ek, 2 * g);
    let k1 = round_key(ek, 2 * g + 1);
    let a = spec_iif(x, k0);
    lemma_iif_involution(spec_bf(a), k1);
    lemma_bf_inverse(a);
    lemma_iif_involution(x, k0);
    let b = spec_iif(x, k1);
    lemma_iif_involution(spec_bf_1(b), k0);
    lemma_bf_inverse(b);
    lemma_iif_involution(x, k1);
}

/// Decrypting with the same round keys gives back the encrypted block.
pub proof fn lemma_decrypt_crypt_block(x: Block, ek: Seq<u32>)
    ensures
        spec_decrypt_block(spec_crypt_block(x, ek), ek) == x,
{
    let y0 = crypt_core(x, ek, 0);
    let x1 = spec_round_pair(y0, 0x55555555);
    let y1 = crypt_core(x1, ek, 1);
    let x2 = spec_round_pair(y1, 0x33333333);
    let y2 = crypt_core(x2, ek, 2);
    let x3 = spec_round_pair(y2, 0x55555555);
    let y3 = crypt_core(x3, ek, 3);
    let x4 = spec_round_pair(y3, 0x33333333);
    let y4 = crypt_core(x4, ek, 4);
    let x5 = spec_round_pair(y4, 0x55555555);
    let y5 = crypt_core(x5, ek, 5);
    let x6 = spec_round_pair(y5, 0x33333333);
    let c = crypt_core(x6, ek, 6);
    assert(c == spec_crypt_block(x, ek));
    lemma_core_inverse(x6, ek, 6);
    lemma_round_pair_swaps(y5, 0x33333333);
    lemma_round_pair_swaps(x6, 0x33333333);
    lemma_core_inverse(x5, ek, 5);
    lemma_round_pair_swaps(y4, 0x55555555);
    lemma_round_pair_swaps(x5, 0x55555555);
    lemma_core_inverse(x4, ek, 4);
    lemma_round_pair_swaps(y3, 0x33333333);
    lemma_round_pair_swaps(x4, 0x33333333);
    lemma_core_inverse(x3, ek, 3);
    lemma_round_pair_swaps(y2, 0x55555555);
    lemma_round_pair_swaps(x3, 0x55555555);
    lemma_core_inverse(x2, ek, 2);
    lemma_round_pair_swaps(y1, 0x33333333);
    lemma_round_pair_swaps(x2, 0x33333333);
    lemma_core_inverse(x1, ek, 1);
    lemma_round_pair_swaps(y0, 0x55555555);
    lemma_round_pair_swaps(x1, 0x55555555);
    lemma_core_inverse(x, ek, 0);
}

/// Encrypting with the same round keys gives back the decrypted block.
pub proof fn lemma_crypt_decrypt_block(x: Block, ek: Seq<u32>)
    ensures
        spec_crypt_block(spec_decrypt_block(x, ek), ek) == x,
{
    let y6 = decrypt_core(x, ek, 6);
    let x5 = spec_round_pair(y6, 0x33333333);
    let y5 = decrypt_core(x5, ek, 5);
    let x4 = spec_round_pair(y5, 0x55555555);
    let y4 = decrypt_core(x4, ek, 4);
    let x3 = spec_round_pair(y4, 0x33333333);
    let y3 = decrypt_core(x3, ek, 3);
    let x2 = spec_round_pair(y3, 0x55555555);
    let y2 = decrypt_core(x2, ek, 2);
    let x1 = spec_round_pair(y2, 0x33333333);
    let y1 = decrypt_core(x1, ek, 1);
    let x0 = spec_round_pair(y1, 0x55555555);
    let p = decrypt_core(x0, ek, 0);
    assert(p == spec_decrypt_block(x, ek));
    lemma_core_inverse(x0, ek, 0);
    lemma_round_pair_swaps(y1, 0x55555555);
    lemma_round_pair_swaps(x0, 0x55555555);
    lemma_core_inverse(x1, ek, 1);
    lemma_round_pair_swaps(y2, 0x33333333);
    lemma_round_pair_swaps(x1, 0x33333333);
    lemma_core_inverse(x2, ek, 2);
    lemma_round_pair_swaps(y3, 0x55555555);
    lemma_round_pair_swaps(x2, 0x55555555);
    lemma_core_inverse(x3, ek, 3);
    lemma_round_pair_swaps(y4, 0x33333333);
    lemma_round_pair_swaps(x3, 0x33333333);
    lemma_core_inverse(x4, ek, 4);
    lemma_round_pair_swaps(y5, 0x55555555);
    lemma_round_pair_swaps(x4, 0x55555555);
    lemma_core_inverse(x5, ek, 5);
    lemma_round_pair_swaps(y6, 0x33333333);
    lemma_round_pair_swaps(x5, 0x33333333);
    lemma_core_inverse(x, ek, 6);
}

// ---------------------------------------------------------------------------
// Key schedule
// ---------------------------------------------------------------------------

/// The entries of `ORDER` and `INDEX` index the intermediate keys in bounds.
pub proof fn lemma_key_tables()
    ensures
        forall|t: int, k: int| 0 <= t < 12 && 0 <= k < 4 ==> #[trigger] ORDER@[t]@[k] < 4,
        forall|s: int, k: int| 0 <= s < 9 && 0 <= k < 4 ==> #[trigger] INDEX@[s]@[k] < 3,
{
}

/// Intermediate key from the words `k1`, `k2` of the user key, for column `i`
/// of row `j`.
pub fn make_one_imkey(k1: u32, k2: u32, i: u32, j: u32) -> (r: u32)
    requires
        4 * i + j <= u32::MAX,
        i + 1 <= u32::MAX,
    ensures
        r == spec_make_one_imkey(k1, k2, i, j),
{
    let mut ka = mf(sf(k1));
    let mut kb = mf(sf(k2));
    let m = mf(sf(4 * i + j));
    ka = ka.wrapping_add(m);
    proof {
        lemma_mask_all(ka);
    }
    ka &= 0xffffffff;
    kb = kb.wrapping_mul(i + 1);
    proof {
        lemma_mask_all(kb);
    }
    kb &= 0xffffffff;
    ka ^= kb;
    return mf(sf(ka));
}

/// The twelve intermediate keys of the user key `ukey`, in four rows of three.
pub fn make_imkeys(ukey: u128) -> (imkey: [[u32; 3]; 4])
    ensures
        forall|r: int, c: int|
            0 <= r < 4 && 0 <= c < 3 ==> #[trigger] imkey@[r]@[c] == spec_imkey(ukey, r, c),
{
    proof {
        lemma_u128_words(ukey);
    }
    let k1 = ((ukey >> 96u32) & 0xffffffff) as u32;
    let k2 = ((ukey >> 64u32) & 0xffffffff) as u32;
    let k3 = ((ukey >> 32u32) & 0xffffffff) as u32;
    let k4 = (ukey & 0xffffffff) as u32;
    let k5 = k1;
    let k6 = k2;
    let k7 = k3;
    let k8 = k4;
    assert(k1 == key_word(ukey, 0) && k2 == key_word(ukey, 1));
    assert(k3 == key_word(ukey, 2) && k4 == key_word(ukey, 3));

    let mut imkey = [[0u32; 3]; 4];
    for i in 0..3u32
        invariant
            k1 == key_word(ukey, 0),
            k2 == key_word(ukey, 1),
            k3 == key_word(ukey, 2),
            k4 == key_word(ukey, 3),
            k5 == k1,
            k6 == k2,
            k7 == k3,
            k8 == k4,
            forall|r: int, c: int|
                0 <= r < 4 && 0 <= c < i ==> #[trigger] imkey@[r]@[c] == spec_imkey(ukey, r, c),
    {
        imkey[_A_][i as usize] = make_one_imkey(k1, k2, i, 0);
        imkey[_B_][i as usize] = make_one_imkey(k3, k4, i, 1);
        imkey[_C_][i as usize] = make_one_imkey(k5, k6, i, 2);
        imkey[_D_][i as usize] = make_one_imkey(k7, k8, i, 3);
        assert(spec_imkey(ukey, 0, i as int) == spec_make_one_imkey(k1, k2, i, 0));
        assert(spec_imkey(ukey, 1, i as int) == spec_make_one_imkey(k3, k4, i, 1));
        assert(spec_imkey(ukey, 2, i as int) == spec_make_one_imkey(k5, k6, i, 2));
        assert(spec_imkey(ukey, 3, i as int) == spec_make_one_imkey(k7, k8, i, 3));
    }
    imkey
}

/// Round key `(t, s)`: four intermediate keys chosen by `ORDER[t]` and
/// `INDEX[s]`, combined by rotations, an addition, a subtraction and a xor.
#[verifier::spinoff_prover]
pub fn make_one_ekey(imkey: [[u32; 3]; 4], t: u32, s: u32) -> (r: u32)
    requires
        t < 12,
        s < 9,
    ensures
        r == ekey_from_imkeys(imkey, t as int, s as int),
{
    proof {
        lemma_key_tables();
        assert(ORDER@[t as int]@[0] < 4 && ORDER@[t as int]@[1] < 4);
        assert(ORDER@[t as int]@[2] < 4 && ORDER@[t as int]@[3] < 4);
        assert(INDEX@[s as int]@[0] < 3 && INDEX@[s as int]@[1] < 3);
        assert(INDEX@[s as int]@[2] < 3 && INDEX@[s as int]@[3] < 3);
    }
    let t = t as usize;
    let s = s as usize;
    let mut x = imkey[ORDER[t][_X_]][INDEX[s][_X_]];
    let y = imkey[ORDER[t][_Y_]][INDEX[s][_Y_]];
    let mut z = imkey[ORDER[t][_Z_]][INDEX[s][_Z_]];
    let w = imkey[ORDER[t][_W_]][INDEX[s][_W_]];
    x = rol1(x);
    x = x.wrapping_add(y);
    proof {
        lemma_mask_all(x);
    }
    x &= 0xffffffff;
    z = rol1(z);
    z = z.wrapping_sub(w);
    proof {
        lemma_mask_all(z);
    }
    z &= 0xffffffff;
    z = rol1(z);
    x ^= z;
    return x;
}

/// Fills the first `num_ekey` entries of `ekey` with round keys.
pub fn make_ekeys(imkey: [[u32; 3]; 4], num_ekey: u32, ekey: &mut [u32])
    requires
        num_ekey <= old(ekey)@.len(),
        num_ekey == 0 || (num_ekey - 1) + (num_ekey - 1) / 36 <= u32::MAX,
    ensures
        final(ekey)@.len() == old(ekey)@.len(),
        forall|n: int|
            0 <= n < num_ekey ==> #[trigger] final(ekey)@[n] == ekey_from_imkeys(
                imkey,
                (n + n / 36) % 12,
                n % 9,
            ),
        forall|n: int| num_ekey <= n < old(ekey)@.len() ==> #[trigger] final(ekey)@[n] == old(ekey)@[n],
{
    for n in 0..num_ekey
        invariant
            num_ekey <= old(ekey)@.len(),
            ekey@.len() == old(ekey)@.len(),
            num_ekey == 0 || (num_ekey - 1) + (num_ekey - 1) / 36 <= u32::MAX,
            forall|k: int|
                0 <= k < n ==> #[trigger] ekey@[k] == ekey_from_imkeys(imkey, (k + k / 36) % 12, k % 9),
            forall|k: int| n <= k < old(ekey)@.len() ==> #[trigger] ekey@[k] == old(ekey)@[k],
    {
        proof {
            lemma_div_is_ordered(n as int, num_ekey - 1, 36);
        }
        let t = (n + (n / 36)) % 12;
        let s = n % 9;
        ekey[n as usize] = make_one_ekey(imkey, t, s);
    }
}

/// The 56 round keys of the user key `key`.
pub fn key_schedule(key: u128) -> (ek: [u32; 56])
    ensures
        forall|n: int| 0 <= n < 56 ==> #[trigger] ek@[n] == spec_ekey(key, n),
{
    let imkeys = make_imkeys(key);
    let mut ek = [0u32; 56];
    make_ekeys(imkeys, 56, &mut ek);
    proof {
        lemma_key_tables();
        assert forall|n: int| 0 <= n < 56 implies #[trigger] ek@[n] == spec_ekey(key, n) by {
            let t = (n + n / 36) % 12;
            let s = n % 9;
            assert(0 <= t < 12 && 0 <= s < 9);
            assert(ORDER@[t]@[0] < 4 && ORDER@[t]@[1] < 4 && ORDER@[t]@[2] < 4 && ORDER@[t]@[3] < 4);
            assert(INDEX@[s]@[0] < 3 && INDEX@[s]@[1] < 3 && INDEX@[s]@[2] < 3 && INDEX@[s]@[3] < 3);
        }
    }
    ek
}

/// Since the mixing function is zero, every intermediate key and every round
/// key is zero, whatever the user key.
pub proof fn lemma_round_keys_zero(ukey: u128, r: int, c: int, n: int)
    ensures
        spec_imkey(ukey, r, c) == 0,
        spec_ekey(ukey, n) == 0,
{
    assert(spec_rol1(0) == 0);
    assert(((0u32 - 0u32) % 0x1_0000_0000) as u32 == 0);
    assert(0u32 ^ 0u32 == 0) by (bit_vector);
}

// ---------------------------------------------------------------------------
// Blocks
// ---------------------------------------------------------------------------

/// Encrypts the block `(a, b, c, d)` with the round keys `ek`.
pub fn crypt_block(a: u32, b: u32, c: u32, d: u32, ek: &mut [u32]) -> (r: (u32, u32, u32, u32))
    requires
        old(ek)@.len() >= 56,
    ensures
        r == spec_crypt_block((a, b, c, d), old(ek)@),
        final(ek)@ == old(ek)@,
{
    let (a, b, c, d) = iif(a, b, c, d, ek[0], ek[1], ek[2], ek[3]);
    let (a, b, c, d) = bf(a, b, c, d);
    let (a, b, c, d) = iif(a, b, c, d, ek[4], ek[5], ek[6], ek[7]);
    let (a, b, c, d) = rf(a, b, c, d, 0x55555555);
    let (c, d, a, b) = rf(a, b, c, d, 0x55555555);

    let (a, b, c, d) = iif(a, b, c, d, ek[8], ek[9], ek[10], ek[11]);
    let (a, b, c, d) = bf(a, b, c, d);
    let (a, b, c, d) = iif(a, b, c, d, ek[12], ek[13], ek[14], ek[15]);
    let (a, b, c, d) = rf(a, b, c, d, 0x33333333);
    let (c, d, a, b) = rf(a, b, c, d, 0x33333333);

    let (a, b, c, d) = iif(a, b, c, d, ek[16], ek[17], ek[18], ek[19]);
    let (a, b, c, d) = bf(a, b, c, d);
    let (a, b, c, d) = iif(a, b, c, d, ek[20], ek[21], ek[22], ek[23]);
    let (a, b, c, d) = rf(a, b, c, d, 0x55555555);
    let (c, d, a, b) = rf(a, b, c, d, 0x55555555);

    let (a, b, c, d) = iif(a, b, c, d, ek[24], ek[25], ek[26], ek[27]);
    let (a, b, c, d) = bf(a, b, c, d);
    let (a, b, c, d) = iif(a, b, c, d, ek[28], ek[29], ek[30], ek[31]);
    let (a, b, c, d) = rf(a, b, c, d, 0x33333333);
    let (c, d, a, b) = rf(a, b, c, d, 0x33333333);

    let (a, b, c, d) = iif(a, b, c, d, ek[32], ek[33], ek[34], ek[35]);
    let (a, b, c, d) = bf(a, b, c, d);
    let (a, b, c, d) = iif(a, b, c, d, ek[36], ek[37], ek[38], ek[39]);
    let (a, b, c, d) = rf(a, b, c, d, 0x55555555);
    let (c, d, a, b) = rf(a, b, c, d, 0x55555555);

    let (a, b, c, d) = iif(a, b, c, d, ek[40], ek[41], ek[42], ek[43]);
    let (a, b, c, d) = bf(a, b, c, d);
    let (a, b, c, d) = iif(a, b, c, d, ek[44], ek[45], ek[46], ek[47]);
    let (a, b, c, d) = rf(a, b, c, d, 0x33333333);
    let (c, d, a, b) = rf(a, b, c, d, 0x33333333);

    let (a, b, c, d) = iif(a, b, c, d, ek[48], ek[49], ek[50], ek[51]);
    let (a, b, c, d) = bf(a, b, c, d);
    let (a, b, c, d) = iif(a, b, c, d, ek[52], ek[53], ek[54], ek[55]);

    (a, b, c, d)
}

/// Decrypts the block `(a, b, c, d)` with the round keys `ek`.
pub fn decrypt_block(a: u32, b: u32, c: u32, d: u32, ek: &mut [u32]) -> (r: (u32, u32, u32, u32))
    requires
        old(ek)@.len() >= 56,
    ensures
        r == spec_decrypt_block((a, b, c, d), old(ek)@),
        final(ek)@ == old(ek)@,
{
    let (a, b, c, d) = iif(a, b, c, d, ek[52], ek[53], ek[54], ek[55]);
    let (a, b, c, d) = bf_1(a, b, c, d);
    let (a, b, c, d) = iif(a, b, c, d, ek[48], ek[49], ek[50], ek[51]);
    let (a, b, c, d) = rf(a, b, c, d, 0x33333333);
    let (c, d, a, b) = rf(a, b, c, d, 0x33333333);

    let (a, b, c, d) = iif(a, b, c, d, ek[44], ek[45], ek[46], ek[47]);
    let (a, b, c, d) = bf_1(a, b, c, d);
    let (a, b, c, d) = iif(a, b, c, d, ek[40], ek[41], ek[42], ek[43]);
    let (a, b, c, d) = rf(a, b, c, d, 0x55555555);
    let (c, d, a, b) = rf(a, b, c, d, 0x55555555);

    let (a, b, c, d) = iif(a, b, c, d, ek[36], ek[37], ek[38], ek[39]);
    let (a, b, c, d) = bf_1(a, b, c, d);
    let (a, b, c, d) = iif(a, b, c, d, ek[32], ek[33], ek[34], ek[35]);
    let (a, b, c, d) = rf(a, b, c, d, 0x33333333);
    let (c, d, a, b) = rf(a, b, c, d, 0x33333333);

    let (a, b, c, d) = iif(a, b, c, d, ek[28], ek[29], ek[30], ek[31]);
    let (a, b, c, d) = bf_1(a, b, c, d);
    let (a, b, c, d) = iif(a, b, c, d, ek[24], ek[25], ek[26], ek[27]);
    let (a, b, c, d) = rf(a, b, c, d, 0x55555555);
    let (c, d, a, b) = rf(a, b, c, d, 0x55555555);

    let (a, b, c, d) = iif(a, b, c, d, ek[20], ek[21], ek[22], ek[23]);
    let (a, b, c, d) = bf_1(a, b, c, d);
    let (a, b, c, d) = iif(a, b, c, d, ek[16], ek[17], ek[18], ek[19]);
    let (a, b, c, d) = rf(a, b, c, d, 0x33333333);
    let (c, d, a, b) = rf(a, b, c, d, 0x33333333);

    let (a, b, c, d) = iif(a, b, c, d, ek[12], ek[13], ek[14], ek[15]);
    let (a, b, c, d) = bf_1(a, b, c, d);
    let (a, b, c, d) = iif(a, b, c, d, ek[8], ek[9], ek[10], ek[11]);
    let (a, b, c, d) = rf(a, b, c, d, 0x55555555);
    let (c, d, a, b) = rf(a, b, c, d, 0x55555555);

    let (a, b, c, d) = iif(a, b, c, d, ek[4], ek[5], ek[6], ek[7]);
    let (a, b, c, d) = bf_1(a, b, c, d);
    let (a, b, c, d) = iif(a, b, c, d, ek[0], ek[1], ek[2], ek[3]);

    (a, b, c, d)
}

} // verus!
