use cryptokit::sc2000::{
    bf, bf_1, bf_helper, crypt_block, decrypt_block, ff, iif, key_schedule, lf, make_ekeys,
    make_imkeys, make_one_ekey, make_one_imkey, mf, rf, rol1, sf,
};
use cryptokit::stream::{crypt_chunk, decrypt_chunk, ChunkStep};

const PLAIN: (u32, u32, u32, u32) = (0x01234567, 0x89abcdef, 0xfedcba98, 0x76543210);

fn sample_keys() -> Vec<u32> {
    (0..56u32).map(|i| i.wrapping_mul(0x9e3779b9).wrapping_add(7)).collect()
}

#[test]
fn rol1_rotates_by_one() {
    assert_eq!(rol1(0x80000001), 0x00000003);
    assert_eq!(rol1(0x12345678), 0x2468acf0);
    assert_eq!(rol1(0), 0);
}

#[test]
fn lf_exchanges_masked_bits() {
    assert_eq!(lf(0x12345678, 0x9abcdef0, 0x55555555), (0x8aa88aa0, 0x989cdcd8));
    assert_eq!(lf(0xffffffff, 0, 0), (0, 0xffffffff));
}

#[test]
fn mf_is_zero() {
    assert_eq!(mf(0), 0);
    assert_eq!(mf(0xffffffff), 0);
    assert_eq!(mf(0x12345678), 0);
}

#[test]
fn sf_substitutes_fields() {
    assert_eq!(sf(0), 0xbe94a52f);
    assert_eq!(sf(0x12345678), 0x3d666972);
    assert_eq!(sf(0xffffffff), 0x3739ce4d);
}

#[test]
fn ff_and_rf_follow_mf() {
    assert_eq!(ff(0x12345678, 0x9abcdef0, 0x33333333), (0, 0));
    let (a, b, c, d) = PLAIN;
    assert_eq!(rf(a, b, c, d, 0x55555555), PLAIN);
}

#[test]
fn rf_is_an_involution() {
    let (a, b, c, d) = PLAIN;
    let (e, f, g, h) = rf(a, b, c, d, 0x33333333);
    assert_eq!(rf(e, f, g, h, 0x33333333), PLAIN);
}

#[test]
fn bf_substitutes_columns() {
    let (a, b, c, d) = PLAIN;
    assert_eq!(bf(a, b, c, d), (0x76543210, 0x77777777, 0x0, 0x88888888));
    assert_eq!(bf_1(a, b, c, d), (0xfedcba98, 0x76543210, 0x77777777, 0x89abcdef));
    assert_eq!(bf(0, 0, 0, 0), (0, 0, 0xffffffff, 0));
    assert_eq!(bf_helper(a, b, c, d, false), bf(a, b, c, d));
    assert_eq!(bf_helper(a, b, c, d, true), bf_1(a, b, c, d));
}

#[test]
fn bf_1_undoes_bf() {
    let (a, b, c, d) = PLAIN;
    let (e, f, g, h) = bf(a, b, c, d);
    assert_eq!(bf_1(e, f, g, h), PLAIN);
    let (e, f, g, h) = bf_1(a, b, c, d);
    assert_eq!(bf(e, f, g, h), PLAIN);
}

#[test]
fn iif_adds_keys() {
    let (a, b, c, d) = PLAIN;
    assert_eq!(iif(a, b, c, d, 1, 2, 3, 4), (a ^ 1, b ^ 2, c ^ 3, d ^ 4));
    assert_eq!(iif(a ^ 1, b ^ 2, c ^ 3, d ^ 4, 1, 2, 3, 4), PLAIN);
}

#[test]
fn intermediate_keys_are_zero() {
    assert_eq!(make_one_imkey(1, 2, 0, 0), 0);
    assert_eq!(make_one_imkey(0xdeadbeef, 0x01234567, 2, 3), 0);
    assert_eq!(make_imkeys(0x0123456789abcdeffedcba9876543210), [[0u32; 3]; 4]);
}

#[test]
fn one_round_key_combines_four_words() {
    let imkey = [[1, 2, 3], [4, 5, 6], [7, 8, 9], [10, 11, 12]];
    assert_eq!(make_one_ekey(imkey, 0, 0), 14);
    assert_eq!(make_one_ekey(imkey, 3, 4), 17);
}

#[test]
fn round_keys_fill_prefix() {
    let imkey = [[1, 2, 3], [4, 5, 6], [7, 8, 9], [10, 11, 12]];
    let mut ek = [0xaaaaaaaau32; 8];
    make_ekeys(imkey, 5, &mut ek);
    assert_eq!(ek[0], make_one_ekey(imkey, 0, 0));
    assert_eq!(ek[4], make_one_ekey(imkey, 4, 4));
    assert_eq!(ek[5], 0xaaaaaaaa);
    assert_eq!(ek[7], 0xaaaaaaaa);
    assert_eq!(key_schedule(0x0123456789abcdeffedcba9876543210), [0u32; 56]);
}

#[test]
fn block_round_trip_with_schedule() {
    let mut ek = key_schedule(0x0123456789abcdeffedcba9876543210);
    let (a, b, c, d) = PLAIN;
    let ct = crypt_block(a, b, c, d, &mut ek);
    assert_eq!(ct, (0xfedcba98, 0xffffffff, 0x01234567, 0x89abcdef));
    let (e, f, g, h) = ct;
    assert_eq!(decrypt_block(e, f, g, h, &mut ek), PLAIN);
}

#[test]
fn block_round_trip_with_any_keys() {
    let mut ek = sample_keys();
    let (a, b, c, d) = PLAIN;
    let ct = crypt_block(a, b, c, d, &mut ek);
    assert_eq!(ct, (0xc021f9ea, 0x4343d9cb, 0x94823a3f, 0xd12d673d));
    let (e, f, g, h) = ct;
    assert_eq!(decrypt_block(e, f, g, h, &mut ek), PLAIN);
    let (e, f, g, h) = decrypt_block(a, b, c, d, &mut ek);
    assert_eq!(crypt_block(e, f, g, h, &mut ek), PLAIN);
}

#[test]
fn chunk_steps_follow_read_length() {
    let mut ek = sample_keys();
    let buffer = [7u8; 16];
    assert!(matches!(crypt_chunk(&mut ek, &buffer, 0), ChunkStep::Stop));
    assert!(matches!(crypt_chunk(&mut ek, &buffer, 1), ChunkStep::Skip));
    assert!(matches!(crypt_chunk(&mut ek, &buffer, 15), ChunkStep::Skip));
    assert!(matches!(decrypt_chunk(&mut ek, &buffer, 0), ChunkStep::Stop));
    assert!(matches!(decrypt_chunk(&mut ek, &buffer, 9), ChunkStep::Skip));
}

#[test]
fn chunk_encrypts_big_endian_block() {
    let mut ek = sample_keys();
    let buffer: [u8; 16] = [
        0x01, 0x23, 0x45, 0x67, 0x89, 0xab, 0xcd, 0xef, 0xfe, 0xdc, 0xba, 0x98, 0x76, 0x54, 0x32,
        0x10,
    ];
    let out = match crypt_chunk(&mut ek, &buffer, 16) {
        ChunkStep::Write(out) => out,
        _ => panic!("a full read must be written"),
    };
    assert_eq!(
        out,
        [
            0xc0, 0x21, 0xf9, 0xea, 0x43, 0x43, 0xd9, 0xcb, 0x94, 0x82, 0x3a, 0x3f, 0xd1, 0x2d,
            0x67, 0x3d
        ]
    );
    let back = match decrypt_chunk(&mut ek, &out, 16) {
        ChunkStep::Write(back) => back,
        _ => panic!("a full read must be written"),
    };
    assert_eq!(back, buffer);
}

#[test]
fn chunk_round_trip_with_schedule() {
    let mut ek = key_schedule(0xffeeddccbbaa99887766554433221100);
    let buffer: [u8; 16] = *b"sixteen byte blk";
    let out = match crypt_chunk(&mut ek, &buffer, 16) {
        ChunkStep::Write(out) => out,
        _ => panic!("a full read must be written"),
    };
    assert_ne!(out, buffer);
    match decrypt_chunk(&mut ek, &out, 16) {
        ChunkStep::Write(back) => assert_eq!(back, buffer),
        _ => panic!("a full read must be written"),
    }
}

fn run_stream(data: &[u8], ek: &mut [u32], crypt: bool) -> Vec<u8> {
    let mut out = Vec::new();
    let mut pos = 0;
    loop {
        let n = std::cmp::min(16, data.len() - pos);
        let mut buffer = [0u8; 16];
        buffer[..n].copy_from_slice(&data[pos..pos + n]);
        pos += n;
        let step = if crypt {
            crypt_chunk(ek, &buffer, n)
        } else {
            decrypt_chunk(ek, &buffer, n)
        };
        match step {
            ChunkStep::Stop => break,
            ChunkStep::Skip => (),
            ChunkStep::Write(block) => out.extend_from_slice(&block),
        }
    }
    out
}

#[test]
fn stream_round_trip_drops_short_tail() {
    let mut ek = sample_keys();
    let data: Vec<u8> = (0..37u8).collect();
    let crypted = run_stream(&data, &mut ek, true);
    assert_eq!(crypted.len(), 32);
    let back = run_stream(&crypted, &mut ek, false);
    assert_eq!(back, data[..32].to_vec());
}
