//! Known-answer vectors and property scenarios for the block cipher, over
//! every supported word width including the non-standard 24-bit one.

use rc5::{conv, BitwiseOperator, BlockCipher, RC5};

/// Packs bytes into words of `nb` bytes each, little-endian.
fn le_words(bytes: &[u8], nb: usize) -> Vec<u64> {
    let mut out: Vec<u64> = Vec::new();
    for chunk in bytes.chunks(nb) {
        let mut w: u64 = 0;
        for (k, &byte) in chunk.iter().enumerate() {
            w |= (byte as u64) << (8 * k);
        }
        out.push(w);
    }
    out
}

/// Serializes words of `nb` bytes each little-endian and hex-encodes them
/// in upper case.
fn words_hex_upper(words: &[u64], nb: usize) -> String {
    let mut bytes: Vec<u8> = Vec::new();
    for &w in words {
        for k in 0..nb {
            bytes.push((w >> (8 * k)) as u8);
        }
    }
    hex::encode_upper(bytes)
}

// ---------- 8/12/4 ----------

#[test]
fn test_8_12_4() {
    let k = "00010203";
    let p = "0001";
    let c = "212A";
    let mut alg = RC5::new(8, 12, 4);

    let key = hex::decode(k).expect("Decoding failed");
    let plain = conv(le_words(&hex::decode(p).expect("Decoding failed"), 1));

    alg.setup(&key);
    let cipher = alg.encrypt(&plain);

    assert_eq!(words_hex_upper(&cipher, 1), c);
}

// ---------- 16/16/8 ----------

#[test]
fn test_16_16_8() {
    let k = "0001020304050607";
    let p = "00010203";
    let c = "23A8D72E";
    let mut alg = RC5::new(16, 16, 8);

    let key = hex::decode(k).expect("Decoding failed");
    let plain = conv(le_words(&hex::decode(p).expect("Decoding failed"), 2));

    alg.setup(&key);
    let cipher = alg.encrypt(&plain);

    assert_eq!(words_hex_upper(&cipher, 2), c);
}

// ---------- 32/20/16 ----------

#[test]
fn test_32_20_16() {
    let k = "000102030405060708090A0B0C0D0E0F";
    let p = "0001020304050607";
    let c = "2A0EDC0E9431FF73";
    let mut alg = RC5::new(32, 20, 16);

    let key = hex::decode(k).expect("Decoding failed");
    let plain = conv(le_words(&hex::decode(p).expect("Decoding failed"), 4));

    alg.setup(&key);
    let cipher = alg.encrypt(&plain);

    assert_eq!(words_hex_upper(&cipher, 4), c);
}

// ---------- 64/24/24 ----------

#[test]
fn test_64_24_24() {
    let k = "000102030405060708090A0B0C0D0E0F1011121314151617";
    let p = "000102030405060708090A0B0C0D0E0F";
    let c = "A46772820EDBCE0235ABEA32AE7178DA";
    let mut alg = RC5::new(64, 24, 24);

    let key = hex::decode(k).expect("Decoding failed");
    let plain = conv(le_words(&hex::decode(p).expect("Decoding failed"), 8));

    alg.setup(&key);
    let cipher = alg.encrypt(&plain);

    assert_eq!(words_hex_upper(&cipher, 8), c);
}

// ---------- non-Standard ----------

#[test]
fn test_24_4_0() {
    let k = "";
    let p = "000102030405";
    let c = "9F8F61780F13";
    let mut alg = RC5::new(24, 4, 0);

    let key = hex::decode(k).expect("Decoding failed");
    alg.setup(&key);

    let plain = conv(le_words(&hex::decode(p).expect("Decoding failed"), 3));
    let cipher = alg.encrypt(&plain);

    assert_eq!(words_hex_upper(&cipher, 3), c);
}

// ---------- properties ----------

#[test]
fn test_round_trip_all_native_widths() {
    let key: Vec<u8> = (0u8..16).collect();
    for &(w, r, nb) in &[(8u64, 12u64, 1u64), (16, 16, 2), (32, 20, 4), (64, 24, 8)] {
        let mut alg = RC5::new(w, r, 16);
        alg.setup(&key);
        let mask: u64 = if w == 64 { u64::MAX } else { (1u64 << w) - 1 };
        let plain = [0x0123_4567_89AB_CDEFu64 & mask, 0xFEDC_BA98_7654_3210u64 & mask];
        let cipher = alg.encrypt(&plain);
        let back = alg.decrypt(&cipher);
        assert_eq!(back, plain, "round trip failed at w={} nb={}", w, nb);
    }
}

#[test]
fn test_round_trip_24_bit() {
    let mut alg = RC5::new(24, 4, 0);
    let empty: Vec<u8> = Vec::new();
    alg.setup(&empty);
    let s = alg.subkey_table();
    // A block whose whitened value stays below 2^24 round-trips.
    let plain = [0u64, 0u64];
    assert_eq!(alg.decrypt(&alg.encrypt(&plain)), plain);
    // When the whitening overflows the 24-bit width inside the 32-bit
    // storage, the truncation applied by round one loses the high bits
    // and the round trip no longer holds.
    let high = [0xFF_FFFFu64, 0xFF_FFFFu64];
    assert!(s[0] > 0 && s[1] > 0);
    assert_ne!(alg.decrypt(&alg.encrypt(&high)), high);
}

#[test]
fn test_subkeys_deterministic() {
    let key = hex::decode("000102030405060708090A0B0C0D0E0F").expect("Decoding failed");
    let mut alg1 = RC5::new(32, 20, 16);
    let mut alg2 = RC5::new(32, 20, 16);
    alg1.setup(&key);
    alg2.setup(&key);
    assert_eq!(alg1.subkey_table(), alg2.subkey_table());
    let plain = [7u64, 11u64];
    assert_eq!(alg1.encrypt(&plain), alg2.encrypt(&plain));
}

#[test]
fn test_zero_round_identity() {
    let key = hex::decode("00010203").expect("Decoding failed");
    let mut alg = RC5::new(32, 0, 4);
    alg.setup(&key);
    let s = alg.subkey_table();
    assert_eq!(s.len(), 2);
    let plain = [0xDEAD_BEEFu64, 0x0BAD_F00Du64];
    let cipher = alg.encrypt(&plain);
    assert_eq!(cipher[0], alg.modadd(plain[0], s[0]));
    assert_eq!(cipher[1], alg.modadd(plain[1], s[1]));
    assert_eq!(alg.decrypt(&cipher), plain);
}

#[test]
fn test_empty_key_setup() {
    let mut alg1 = RC5::new(24, 4, 0);
    let mut alg2 = RC5::new(24, 4, 0);
    let empty: Vec<u8> = Vec::new();
    alg1.setup(&empty);
    alg2.setup(&empty);
    let t1 = alg1.subkey_table();
    assert_eq!(t1.len(), 10);
    for &s in &t1 {
        assert!(s < (1u64 << 24));
    }
    assert_eq!(t1, alg2.subkey_table());
}

#[test]
fn test_rotation_involution() {
    let alg = RC5::new(24, 4, 0);
    let mask: u64 = (1u64 << 24) - 1;
    for &x in &[0u64, 1, 0x00F0_0F55, 0xFFFF_FFFF, 0x0012_3456] {
        for &n in &[0u64, 1, 8, 23, 24, 25, 100] {
            assert_eq!(alg.ror(alg.rol(x, n), n), x & mask);
        }
    }
}

#[test]
fn test_rotation_exact() {
    let alg = RC5::new(8, 12, 4);
    assert_eq!(alg.rol(0x81, 1), 0x03);
    assert_eq!(alg.ror(0x03, 1), 0x81);
    assert_eq!(alg.rol(0x81, 8), 0x81);
    assert_eq!(alg.rol(0xF1, 4), 0x1F);
}

#[test]
fn test_word_arithmetic_exact() {
    let alg = RC5::new(8, 12, 4);
    assert_eq!(alg.modadd(200, 100), 44);
    assert_eq!(alg.modsub(10, 20), 246);
    assert_eq!(alg.modadd(255, 1), 0);
    let alg24 = RC5::new(24, 4, 0);
    assert_eq!(alg24.modadd(0xFFFF_FFFF, 1), 0);
    assert_eq!(alg24.modsub(0, 1), 0xFFFF_FFFF);
    let alg64 = RC5::new(64, 24, 24);
    assert_eq!(alg64.modadd(u64::MAX, 2), 1);
    assert_eq!(alg64.modsub(1, 2), u64::MAX);
}

#[test]
fn test_conv() {
    assert_eq!(conv(vec![3u64, 9u64]), [3u64, 9u64]);
}
