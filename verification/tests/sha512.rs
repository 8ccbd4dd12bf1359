use graviola::sha512::{
    bsig0, bsig1, ch, maj, sha512_compress_4_blocks, sha512_compress_blocks,
    sha512_quad_message_schedule, sigma_0, sigma_1, K,
};

const H0: [u64; 8] = [
        0x6a09e667f3bcc908,
        0xbb67ae8584caa73b,
        0x3c6ef372fe94f82b,
        0xa54ff53a5f1d36f1,
        0x510e527fade682d1,
        0x9b05688c2b3e6c1f,
        0x1f83d9abfb41bd6b,
        0x5be0cd19137e2179,
    ];

fn padded(message: &[u8]) -> Vec<u8> {
    let mut v = message.to_vec();
    v.push(0x80);
    while v.len() % 128 != 112 {
        v.push(0);
    }
    v.extend_from_slice(&[0u8; 8]);
    v.extend_from_slice(&((message.len() as u64) * 8).to_be_bytes());
    v
}

#[test]
fn digest_of_abc() {
    let mut state = H0;
    sha512_compress_blocks(&mut state, &padded(b"abc"));
    assert_eq!(state, [
        0xddaf35a193617aba,
        0xcc417349ae204131,
        0x12e6fa4e89a97ea2,
        0x0a9eeee64b55d39a,
        0x2192992a274fc1a8,
        0x36ba3c23a3feebbd,
        0x454d4423643ce80e,
        0x2a9ac94fa54ca49f,
    ]);
}

#[test]
fn digest_of_the_empty_message() {
    let mut state = H0;
    sha512_compress_blocks(&mut state, &padded(b""));
    assert_eq!(state, [
        0xcf83e1357eefb8bd,
        0xf1542850d66d8007,
        0xd620e4050b5715dc,
        0x83f4a921d36ce9ce,
        0x47d0d13c5d85f2b0,
        0xff8318d2877eec2f,
        0x63b931bd47417a81,
        0xa538327af927da3e,
    ]);
}

#[test]
fn digest_of_a_message_of_many_blocks() {
    // 1000 bytes pad to eight blocks: two rounds of four
    let message: Vec<u8> = (0..1000u32).map(|i| (i % 251) as u8).collect();
    let mut state = H0;
    sha512_compress_blocks(&mut state, &padded(&message));
    assert_eq!(state, [
        0x5096498d96f50f9a,
        0x137c4db5b8b0cd38,
        0x383ad55350fb5a98,
        0x805fedc31fa1262f,
        0x1f0cf4d6f12d7ecd,
        0x8dedd933a4c91263,
        0x44fe22e937a8ad35,
        0xfdeae1e876ae698b,
    ]);
}

#[test]
fn digest_of_a_message_of_seven_blocks() {
    // four blocks at once, then three one by one
    let message: Vec<u8> = (0..800u32).map(|i| (i % 253) as u8).collect();
    let data = padded(&message);
    assert_eq!(data.len(), 7 * 128);
    let mut state = H0;
    sha512_compress_blocks(&mut state, &data);
    assert_eq!(state, [
        0x6378f78af0a92bde,
        0xda45805271d3ce4b,
        0xc9acdf9cd1a31793,
        0xee1d109ff59eb48f,
        0xd092f84afd8526ad,
        0x0463259f49454fda,
        0xaa82f9ac4216c8e4,
        0xe3ca07cee8eb98b6,
    ]);
}

#[test]
fn four_blocks_at_once_match_block_by_block() {
    let data: Vec<u8> = (0..512u32).map(|i| (i * 7 + 3) as u8).collect();
    let mut quad = H0;
    sha512_compress_4_blocks(&mut quad, &data);
    let mut single = H0;
    for block in data.chunks(128) {
        sha512_compress_blocks(&mut single, block);
    }
    assert_eq!(quad, single);
}

#[test]
fn trailing_bytes_short_of_a_block_are_not_used() {
    let data: Vec<u8> = (0..200u32).map(|i| i as u8).collect();
    let mut whole = H0;
    sha512_compress_blocks(&mut whole, &data);
    let mut first = H0;
    sha512_compress_blocks(&mut first, &data[..128]);
    assert_eq!(whole, first);
    let mut none = H0;
    sha512_compress_blocks(&mut none, &data[..127]);
    assert_eq!(none, H0);
}

#[test]
fn quad_schedule_starts_with_the_message_words() {
    let data: Vec<u8> = (0..512u32).map(|i| i as u8).collect();
    let mut w = [[0u64; 4]; 80];
    sha512_quad_message_schedule(&mut w, &data);
    for lane in 0..4 {
        for t in 0..16 {
            let at = 128 * lane + 8 * t;
            let mut bytes = [0u8; 8];
            bytes.copy_from_slice(&data[at..at + 8]);
            assert_eq!(w[t][lane], u64::from_be_bytes(bytes).wrapping_add(K[t]));
        }
    }
}

#[test]
fn word_functions_on_known_values() {
    assert_eq!(ch(0xff00_ff00_ff00_ff00, 0x1234_5678_9abc_def0, 0x0fed_cba9_8765_4321), 0x12ed_56a9_9a65_de21);
    assert_eq!(maj(0xff00_ff00_ff00_ff00, 0x0ff0_0ff0_0ff0_0ff0, 0x00ff_00ff_00ff_00ff), 0x0ff0_0ff0_0ff0_0ff0);
    let x = 0x0123_4567_89ab_cdefu64;
    assert_eq!(bsig0(x), x.rotate_right(28) ^ x.rotate_right(34) ^ x.rotate_right(39));
    assert_eq!(bsig1(x), x.rotate_right(14) ^ x.rotate_right(18) ^ x.rotate_right(41));
    let q = [x, !x, 1, 0x8000_0000_0000_0000];
    let s0 = sigma_0(q);
    let s1 = sigma_1(q);
    for j in 0..4 {
        assert_eq!(s0[j], q[j].rotate_right(1) ^ q[j].rotate_right(8) ^ (q[j] >> 7));
        assert_eq!(s1[j], q[j].rotate_right(19) ^ q[j].rotate_right(61) ^ (q[j] >> 6));
    }
}

#[test]
fn first_and_last_round_constants() {
    assert_eq!(K[0], 0x428a2f98d728ae22);
    assert_eq!(K[79], 0x6c44198c4a475817);
}
