//! Encryption and decryption of a byte stream read sixteen bytes at a time.
//!
//! A reader fills a 16-byte buffer and reports how many bytes it read; each
//! report is handed to `crypt_chunk` or `decrypt_chunk`, which decides
//! whether the stream has ended, whether the read is skipped, or which 16
//! bytes are to be written.
use vstd::prelude::*;

use crate::sc2000::{
    crypt_block, decrypt_block, lemma_crypt_decrypt_block, lemma_decrypt_crypt_block,
    spec_crypt_block, spec_decrypt_block, Block,
};

verus! {

/// The big-endian word formed by bytes `4 k .. 4 k + 4` of `b`.
pub open spec fn word_of_bytes(b: Seq<u8>, k: int) -> u32 {
    (b[4 * k] as int * 0x1000000 + b[4 * k + 1] as int * 0x10000 + b[4 * k + 2] as int * 0x100 + b[4
        * k + 3] as int) as u32
}

/// The block read big-endian from 16 bytes.
pub open spec fn block_of_bytes(b: Seq<u8>) -> Block {
    (word_of_bytes(b, 0), word_of_bytes(b, 1), word_of_bytes(b, 2), word_of_bytes(b, 3))
}

/// The four big-endian bytes of a word.
pub open spec fn bytes_of_word(w: u32) -> Seq<u8> {
    seq![
        (w as int / 0x1000000) as u8,
        ((w as int / 0x10000) % 0x100) as u8,
        ((w as int / 0x100) % 0x100) as u8,
        (w as int % 0x100) as u8,
    ]
}

/// The 16 big-endian bytes of a block.
pub open spec fn bytes_of_block(x: Block) -> Seq<u8> {
    bytes_of_word(x.0) + bytes_of_word(x.1) + bytes_of_word(x.2) + bytes_of_word(x.3)
}

/// The 16 bytes `b` encrypted as one block under the round keys `ek`.
pub open spec fn spec_crypt_bytes(b: Seq<u8>, ek: Seq<u32>) -> Seq<u8> {
    bytes_of_block(spec_crypt_block(block_of_bytes(b), ek))
}

/// The 16 bytes `b` decrypted as one block under the round keys `ek`.
pub open spec fn spec_decrypt_bytes(b: Seq<u8>, ek: Seq<u32>) -> Seq<u8> {
    bytes_of_block(spec_decrypt_block(block_of_bytes(b), ek))
}

/// What to do after one read of up to 16 bytes.
pub enum ChunkStep {
    /// Nothing was read: the stream has ended.
    Stop,
    /// Fewer than 16 bytes were read: nothing is written for them.
    Skip,
    /// A full block was read: these 16 bytes are to be written.
    Write([u8; 16]),
}

/// Packing four bytes big-endian into a word.
proof fn lemma_pack_word(b0: u8, b1: u8, b2: u8, b3: u8)
    ensures
        ((b0 as u32) << 24u32) | ((b1 as u32) << 16u32) | ((b2 as u32) << 8u32) | (b3 as u32) == (b0
            as int * 0x1000000 + b1 as int * 0x10000 + b2 as int * 0x100 + b3 as int) as u32,
{
    assert(((b0 as u32) << 24u32) | ((b1 as u32) << 16u32) | ((b2 as u32) << 8u32) | (b3 as u32) == (
    b0 as int * 0x1000000 + b1 as int * 0x10000 + b2 as int * 0x100 + b3 as int) as u32)
        by (bit_vector);
}

/// Unpacking a word into its four big-endian bytes.
proof fn lemma_unpack_word(w: u32)
    ensures
        (w >> 24u32) as u8 == (w as int / 0x1000000) as u8,
        (w >> 16u32) as u8 == ((w as int / 0x10000) % 0x100) as u8,
        (w >> 8u32) as u8 == ((w as int / 0x100) % 0x100) as u8,
        w as u8 == (w as int % 0x100) as u8,
{
    assert((w >> 24u32) as u8 == (w as int / 0x1000000) as u8) by (bit_vector);
    assert((w >> 16u32) as u8 == ((w as int / 0x10000) % 0x100) as u8) by (bit_vector);
    assert((w >> 8u32) as u8 == ((w as int / 0x100) % 0x100) as u8) by (bit_vector);
    assert(w as u8 == (w as int % 0x100) as u8) by (bit_vector);
}

/// The block held big-endian in a full buffer.
fn read_block(buffer: &[u8; 16]) -> (x: Block)
    ensures
        x == block_of_bytes(buffer@),
{
    proof {
        lemma_pack_word(buffer[0], buffer[1], buffer[2], buffer[3]);
        lemma_pack_word(buffer[4], buffer[5], buffer[6], buffer[7]);
        lemma_pack_word(buffer[8], buffer[9], buffer[10], buffer[11]);
        lemma_pack_word(buffer[12], buffer[13], buffer[14], buffer[15]);
    }
    let a = ((buffer[0] as u32) << 24u32) | ((buffer[1] as u32) << 16u32) | ((buffer[2] as u32)
        << 8u32) | buffer[3] as u32;
    let b = ((buffer[4] as u32) << 24u32) | ((buffer[5] as u32) << 16u32) | ((buffer[6] as u32)
        << 8u32) | buffer[7] as u32;
    let c = ((buffer[8] as u32) << 24u32) | ((buffer[9] as u32) << 16u32) | ((buffer[10] as u32)
        << 8u32) | buffer[11] as u32;
    let d = ((buffer[12] as u32) << 24u32) | ((buffer[13] as u32) << 16u32) | ((buffer[14] as u32)
        << 8u32) | buffer[15] as u32;
    (a, b, c, d)
}

/// The 16 big-endian bytes of a block.
fn write_block(x: Block) -> (out: [u8; 16])
    ensures
        out@ == bytes_of_block(x),
{
    let (a, b, c, d) = x;
    proof {
        lemma_unpack_word(a);
        lemma_unpack_word(b);
        lemma_unpack_word(c);
        lemma_unpack_word(d);
    }
    let mut out_buffer = [0u8; 16];
    out_buffer[0] = (a >> 24u32) as u8;
    out_buffer[1] = (a >> 16u32) as u8;
    out_buffer[2] = (a >> 8u32) as u8;
    out_buffer[3] = a as u8;
    out_buffer[4] = (b >> 24u32) as u8;
    out_buffer[5] = (b >> 16u32) as u8;
    out_buffer[6] = (b >> 8u32) as u8;
    out_buffer[7] = b as u8;
    out_buffer[8] = (c >> 24u32) as u8;
    out_buffer[9] = (c >> 16u32) as u8;
    out_buffer[10] = (c >> 8u32) as u8;
    out_buffer[11] = c as u8;
    out_buffer[12] = (d >> 24u32) as u8;
    out_buffer[13] = (d >> 16u32) as u8;
    out_buffer[14] = (d >> 8u32) as u8;
    out_buffer[15] = d as u8;
    assert(out_buffer@ =~= bytes_of_block(x));
    out_buffer
}

/// Handles one read of `n` bytes into `buffer` while encrypting: stop on an
/// empty read, skip a short one, and otherwise encrypt the buffer as a block.
pub fn crypt_chunk(ek: &mut [u32], buffer: &[u8; 16], n: usize) -> (step: ChunkStep)
    requires
        old(ek)@.len() >= 56,
    ensures
        final(ek)@ == old(ek)@,
        (step is Stop) == (n == 0),
        (step is Skip) == (1 <= n <= 15),
        n >= 16 ==> (step matches ChunkStep::Write(out) && out@ == spec_crypt_bytes(
            buffer@,
            old(ek)@,
        )),
{
    match n {
        0 => ChunkStep::Stop,
        1..=15 => ChunkStep::Skip,
        _ => {
            let (a, b, c, d) = read_block(buffer);
            let (a, b, c, d) = crypt_block(a, b, c, d, ek);
            ChunkStep::Write(write_block((a, b, c, d)))
        },
    }
}

/// Handles one read of `n` bytes into `buffer` while decrypting: stop on an
/// empty read, skip a short one, and otherwise decrypt the buffer as a block.
pub fn decrypt_chunk(ek: &mut [u32], buffer: &[u8; 16], n: usize) -> (step: ChunkStep)
    requires
        old(ek)@.len() >= 56,
    ensures
        final(ek)@ == old(ek)@,
        (step is Stop) == (n == 0),
        (step is Skip) == (1 <= n <= 15),
        n >= 16 ==> (step matches ChunkStep::Write(out) && out@ == spec_decrypt_bytes(
            buffer@,
            old(ek)@,
        )),
{
    match n {
        0 => ChunkStep::Stop,
        1..=15 => ChunkStep::Skip,
        _ => {
            let (a, b, c, d) = read_block(buffer);
            let (a, b, c, d) = decrypt_block(a, b, c, d, ek);
            ChunkStep::Write(write_block((a, b, c, d)))
        },
    }
}

/// Splitting a packed word gives back its four bytes.
proof fn lemma_word_bytes(b0: u8, b1: u8, b2: u8, b3: u8)
    ensures
        bytes_of_word(
            (b0 as int * 0x1000000 + b1 as int * 0x10000 + b2 as int * 0x100 + b3 as int) as u32,
        ) =~= seq![b0, b1, b2, b3],
{
    let w = (b0 as int * 0x1000000 + b1 as int * 0x10000 + b2 as int * 0x100 + b3 as int) as u32;
    assert((w as int / 0x1000000) as u8 == b0) by (bit_vector)
        requires
            w == (b0 as int * 0x1000000 + b1 as int * 0x10000 + b2 as int * 0x100 + b3 as int) as u32,
    ;
    assert(((w as int / 0x10000) % 0x100) as u8 == b1) by (bit_vector)
        requires
            w == (b0 as int * 0x1000000 + b1 as int * 0x10000 + b2 as int * 0x100 + b3 as int) as u32,
    ;
    assert(((w as int / 0x100) % 0x100) as u8 == b2) by (bit_vector)
        requires
            w == (b0 as int * 0x1000000 + b1 as int * 0x10000 + b2 as int * 0x100 + b3 as int) as u32,
    ;
    assert((w as int % 0x100) as u8 == b3) by (bit_vector)
        requires
            w == (b0 as int * 0x1000000 + b1 as int * 0x10000 + b2 as int * 0x100 + b3 as int) as u32,
    ;
}

/// Packing the four bytes of a word gives back the word.
proof fn lemma_bytes_word(w: u32)
    ensures
        word_of_bytes(bytes_of_word(w), 0) == w,
{
    let b = bytes_of_word(w);
    assert((((w as int / 0x1000000) as u8) as int * 0x1000000 + (((w as int / 0x10000) % 0x100) as u8)
        as int * 0x10000 + (((w as int / 0x100) % 0x100) as u8) as int * 0x100 + ((w as int % 0x100)
        as u8) as int) as u32 == w) by (bit_vector);
}

/// Reading 16 bytes as a block and writing the block back gives the same
/// bytes, and the other way round.
pub proof fn lemma_bytes_roundtrip(b: Seq<u8>, x: Block)
    requires
        b.len() == 16,
    ensures
        bytes_of_block(block_of_bytes(b)) == b,
        block_of_bytes(bytes_of_block(x)) == x,
{
    lemma_word_bytes(b[0], b[1], b[2], b[3]);
    lemma_word_bytes(b[4], b[5], b[6], b[7]);
    lemma_word_bytes(b[8], b[9], b[10], b[11]);
    lemma_word_bytes(b[12], b[13], b[14], b[15]);
    assert(bytes_of_block(block_of_bytes(b)) =~= b);
    lemma_bytes_word(x.0);
    lemma_bytes_word(x.1);
    lemma_bytes_word(x.2);
    lemma_bytes_word(x.3);
    let bx = bytes_of_block(x);
    assert(bx.subrange(0, 4) =~= bytes_of_word(x.0));
    assert(bx.subrange(4, 8) =~= bytes_of_word(x.1));
    assert(bx.subrange(8, 12) =~= bytes_of_word(x.2));
    assert(bx.subrange(12, 16) =~= bytes_of_word(x.3));
    assert(word_of_bytes(bx, 1) == word_of_bytes(bytes_of_word(x.1), 0));
    assert(word_of_bytes(bx, 2) == word_of_bytes(bytes_of_word(x.2), 0));
    assert(word_of_bytes(bx, 3) == word_of_bytes(bytes_of_word(x.3), 0));
}

/// Decrypting the 16 bytes that encryption wrote gives back the 16 bytes
/// that were read, and encrypting what decryption wrote does too.
pub proof fn lemma_chunk_roundtrip(b: Seq<u8>, ek: Seq<u32>)
    requires
        b.len() == 16,
    ensures
        spec_decrypt_bytes(spec_crypt_bytes(b, ek), ek) == b,
        spec_crypt_bytes(spec_decrypt_bytes(b, ek), ek) == b,
{
    let x = block_of_bytes(b);
    lemma_bytes_roundtrip(b, spec_crypt_block(x, ek));
    lemma_decrypt_crypt_block(x, ek);
    lemma_bytes_roundtrip(b, spec_decrypt_block(x, ek));
    lemma_crypt_decrypt_block(x, ek);
}

/// The reads of a stream `data` by a reader that fills the 16-byte buffer
/// as far as the remaining bytes allow: full reads, then at most one short one.
pub open spec fn reads_of(data: Seq<u8>) -> Seq<Seq<u8>>
    decreases data.len(),
{
    if data.len() == 0 {
        seq![]
    } else if data.len() < 16 {
        seq![data]
    } else {
        seq![data.take(16)] + reads_of(data.skip(16))
    }
}

/// What encryption writes for a sequence of reads: as `crypt_chunk` decides,
/// a full read writes its encrypted block and a short read writes nothing.
pub open spec fn crypt_reads(reads: Seq<Seq<u8>>, ek: Seq<u32>) -> Seq<u8>
    decreases reads.len(),
{
    if reads.len() == 0 {
        seq![]
    } else {
        (if reads[0].len() >= 16 {
            spec_crypt_bytes(reads[0], ek)
        } else {
            seq![]
        }) + crypt_reads(reads.drop_first(), ek)
    }
}

/// What decryption writes for a sequence of reads, as `decrypt_chunk` decides.
pub open spec fn decrypt_reads(reads: Seq<Seq<u8>>, ek: Seq<u32>) -> Seq<u8>
    decreases reads.len(),
{
    if reads.len() == 0 {
        seq![]
    } else {
        (if reads[0].len() >= 16 {
            spec_decrypt_bytes(reads[0], ek)
        } else {
            seq![]
        }) + decrypt_reads(reads.drop_first(), ek)
    }
}

/// A block always gives 16 bytes.
proof fn lemma_block_bytes_len(x: Block)
    ensures
        bytes_of_block(x).len() == 16,
{
}

/// The stream of a short input writes nothing.
proof fn lemma_short_stream(data: Seq<u8>, ek: Seq<u32>)
    requires
        data.len() < 16,
    ensures
        crypt_reads(reads_of(data), ek) == Seq::<u8>::empty(),
        decrypt_reads(reads_of(data), ek) == Seq::<u8>::empty(),
{
    let r = reads_of(data);
    if data.len() > 0 {
        assert(r.len() == 1 && r[0] == data);
        assert(r.drop_first() =~= Seq::<Seq<u8>>::empty());
        assert(crypt_reads(r.drop_first(), ek) =~= Seq::<u8>::empty());
        assert(decrypt_reads(r.drop_first(), ek) =~= Seq::<u8>::empty());
        assert(crypt_reads(r, ek) =~= Seq::<u8>::empty());
        assert(decrypt_reads(r, ek) =~= Seq::<u8>::empty());
    } else {
        assert(r =~= Seq::<Seq<u8>>::empty());
    }
}

/// Encrypting or decrypting 16 bytes gives 16 bytes.
proof fn lemma_chunk_len(b: Seq<u8>, ek: Seq<u32>)
    ensures
        spec_crypt_bytes(b, ek).len() == 16,
        spec_decrypt_bytes(b, ek).len() == 16,
{
    lemma_block_bytes_len(spec_crypt_block(block_of_bytes(b), ek));
    lemma_block_bytes_len(spec_decrypt_block(block_of_bytes(b), ek));
}

/// A 16-byte prefix splits off a concatenation.
proof fn lemma_split_prefix(c: Seq<u8>, rest: Seq<u8>)
    requires
        c.len() == 16,
    ensures
        (c + rest).take(16) == c,
        (c + rest).skip(16) == rest,
        (c + rest).len() >= 16,
{
    assert((c + rest).take(16) =~= c);
    assert((c + rest).skip(16) =~= rest);
}

/// The full blocks of `data` are its first block and the full blocks after it.
proof fn lemma_full_blocks(data: Seq<u8>)
    requires
        data.len() >= 16,
    ensures
        data.take(16 * (data.len() / 16) as int) == data.take(16) + data.skip(16).take(
            16 * (data.skip(16).len() / 16) as int,
        ),
{
    let tail = data.skip(16);
    assert(16 * (data.len() / 16) == 16 + 16 * (tail.len() / 16));
    assert(data.take(16 * (data.len() / 16) as int) =~= data.take(16) + tail.take(
        16 * (tail.len() / 16) as int,
    ));
}

/// The stream of an input of 16 bytes or more starts with its first block.
proof fn lemma_long_stream(data: Seq<u8>, ek: Seq<u32>)
    requires
        data.len() >= 16,
    ensures
        crypt_reads(reads_of(data), ek) == spec_crypt_bytes(data.take(16), ek) + crypt_reads(
            reads_of(data.skip(16)),
            ek,
        ),
        decrypt_reads(reads_of(data), ek) == spec_decrypt_bytes(data.take(16), ek) + decrypt_reads(
            reads_of(data.skip(16)),
            ek,
        ),
{
    let r = reads_of(data);
    assert(r[0] == data.take(16));
    assert(r.drop_first() =~= reads_of(data.skip(16)));
}

/// Decrypting the stream that encryption wrote restores every full block of
/// the data; the trailing short block, which encryption skipped, is lost.
pub proof fn lemma_stream_roundtrip(data: Seq<u8>, ek: Seq<u32>)
    ensures
        decrypt_reads(reads_of(crypt_reads(reads_of(data), ek)), ek) == data.take(
            16 * (data.len() / 16) as int,
        ),
    decreases data.len(),
{
    let out = crypt_reads(reads_of(data), ek);
    if data.len() < 16 {
        lemma_short_stream(data, ek);
        lemma_short_stream(out, ek);
        assert(data.take(16 * (data.len() / 16) as int) =~= Seq::<u8>::empty());
    } else {
        let first = data.take(16);
        let tail = data.skip(16);
        let c = spec_crypt_bytes(first, ek);
        let rest = crypt_reads(reads_of(tail), ek);
        lemma_long_stream(data, ek);
        lemma_chunk_len(first, ek);
        lemma_split_prefix(c, rest);
        lemma_long_stream(out, ek);
        lemma_stream_roundtrip(tail, ek);
        lemma_chunk_roundtrip(first, ek);
        lemma_full_blocks(data);
    }
}

} // verus!
