use knoxide::mix_util::{
    from_mix_addr, from_mix_dword, from_mix_word, get_bytes, get_field_word, to_mix_addr,
    to_mix_dword, to_mix_word, word_from_bytes,
};

#[test]
fn mix_util_test_get_bytes_field() {
    let test0 = 0;
    let test1 = 0b00_100000_010101_000000_000000_000000;
    let test2 = 0b01_100000_010101_100000_000001_000000;

    assert_eq!(get_bytes(test0, 0, 0), 0);
    assert_eq!(get_bytes(test0, 1, 3), 0);
    assert_eq!(get_bytes(test0, 1, 5), 0);
    assert_eq!(get_bytes(test0, 0, 5), 0);
    assert_eq!(get_bytes(test1, 0, 5), test1);
    assert_eq!(get_bytes(test1, 0, 0), 0);
    assert_eq!(get_bytes(test1, 0, 1), 0b100000);
    assert_eq!(get_bytes(test1, 0, 2), 0b100000_010101);
    assert_eq!(get_bytes(test1, 1, 2), 0b100000_010101);
    assert_eq!(get_bytes(test1, 1, 3), 0b100000_010101_000000);
    assert_eq!(get_bytes(test1, 1, 5), test1);
    assert_eq!(get_bytes(test2, 0, 1), 0b01_100000);
    assert_eq!(get_bytes(test2, 0, 2), 0b01_100000_010101);
    assert_eq!(get_bytes(test2, 1, 2), get_bytes(test1, 1, 2));

    assert_eq!(get_field_word(0, 0), 0);
    assert_eq!(get_field_word(0, 11), 0);
    assert_eq!(get_field_word(0, 13), 0);
    assert_eq!(get_field_word(0, 5), 0);
    assert_eq!(get_field_word(test1, 5), test1);
    assert_eq!(get_field_word(test1, 0), 0);
    assert_eq!(get_field_word(test1, 1), 0b00_100000_000000_000000_000000_000000);
    assert_eq!(get_field_word(test1, 2), 0b00_100000_010101_000000_000000_000000);
    assert_eq!(get_field_word(test1, 10), 0b00_100000_010101_000000_000000_000000);
    assert_eq!(get_field_word(test1, 11), 0b00_100000_010101_000000_000000_000000);
    assert_eq!(get_field_word(test1, 13), test1);
    assert_eq!(get_field_word(test2, 1), 0b01_100000_000000_000000_000000_000000);
    assert_eq!(get_field_word(test2, 2), 0b01_100000_010101_000000_000000_000000);
    assert_eq!(get_field_word(test2, 10), get_field_word(test1, 10));
}

#[test]
fn word_conversions_round_trip() {
    assert_eq!(from_mix_word(0), 0);
    assert_eq!(from_mix_word(1), 1);
    assert_eq!(from_mix_word((1 << 30) | 1), -1);
    assert_eq!(from_mix_word((1 << 30) | 3), -3);

    assert_eq!(to_mix_word(0), 0);
    assert_eq!(to_mix_word(1), 1);
    assert_eq!(to_mix_word(-1), (1 << 30) | 1);
    assert_eq!(to_mix_word(-3), (1 << 30) | 3);

    for v in [0i32, 1, -1, 77, -4095, 0x3FFF_FFFF, -0x3FFF_FFFF] {
        assert_eq!(from_mix_word(to_mix_word(v)), v);
    }
}

#[test]
fn addr_conversions_round_trip() {
    assert_eq!(from_mix_addr(0), 0);
    assert_eq!(from_mix_addr(1), 1);
    assert_eq!(from_mix_addr((1 << 12) | 1), -1);
    assert_eq!(from_mix_addr((1 << 12) | 3), -3);

    assert_eq!(to_mix_addr(0), 0);
    assert_eq!(to_mix_addr(1), 1);
    assert_eq!(to_mix_addr(-1), (1 << 12) | 1);
    assert_eq!(to_mix_addr(-3), (1 << 12) | 3);

    for v in [0i16, 1, -1, 2047, -2048, 4095, -4095] {
        assert_eq!(from_mix_addr(to_mix_addr(v)), v);
    }
}

#[test]
fn encode_truncates_high_bits() {
    // 2^30 + 5 exceeds the word magnitude: the high bit is dropped.
    assert_eq!(to_mix_word(0x4000_0005), 5);
    assert_eq!(from_mix_word(to_mix_word(0x4000_0005)), 5);
    // -(2^30) truncates to a negative zero, which decodes as 0.
    assert_eq!(to_mix_word(-0x4000_0000), 1 << 30);
    assert_eq!(from_mix_word(to_mix_word(-0x4000_0000)), 0);
    // 2^12 + 7 exceeds the address magnitude.
    assert_eq!(to_mix_addr(0x1007), 7);
    assert_eq!(from_mix_addr(to_mix_addr(0x1007)), 7);
}

#[test]
fn negative_zero_is_numerically_zero() {
    let plus_zero = to_mix_word(0);
    let minus_zero = (1u32 << 30) | 0;
    assert_ne!(plus_zero, minus_zero);
    assert_eq!(from_mix_word(plus_zero), from_mix_word(minus_zero));
    let minus_zero_addr = (1u16 << 12) | 0;
    assert_eq!(from_mix_addr(0), from_mix_addr(minus_zero_addr));
}

#[test]
fn dword_conversions() {
    assert_eq!(from_mix_dword(0, 17), 17);
    assert_eq!(from_mix_dword(1, 0), 1i64 << 30);
    assert_eq!(from_mix_dword(1 << 30, 5), -5);
    assert_eq!(to_mix_dword(-4000), ((1 << 30) | 0, (1 << 30) | 4000));
    for v in [0i64, 1, -1, -4000, (1i64 << 60) - 1, -((1i64 << 60) - 1)] {
        let (hi, lo) = to_mix_dword(v);
        assert_eq!(from_mix_dword(hi, lo), v);
    }
}

#[test]
fn word_from_bytes_packs_fields() {
    let w = word_from_bytes(1, 20, 42, 10, 0, 5);
    assert_eq!(get_bytes(w, 0, 0), 1);
    assert_eq!(get_bytes(w, 1, 1), 20);
    assert_eq!(get_bytes(w, 2, 2), 42);
    assert_eq!(get_bytes(w, 3, 3), 10);
    assert_eq!(get_bytes(w, 4, 4), 0);
    assert_eq!(get_bytes(w, 5, 5), 5);
    assert_eq!(from_mix_word(w), -(20 * 0x100_0000 + 42 * 0x4_0000 + 10 * 0x1000 + 5));
}

#[test]
fn get_field_word_left_justifies_every_range() {
    let w = word_from_bytes(1, 1, 2, 3, 4, 5);
    // (2,2): byte 2 alone moves up to the byte-1 position.
    assert_eq!(get_field_word(w, 18), 2 << 24);
    // (2,3): bytes 2..3 move up to bytes 1..2.
    assert_eq!(get_field_word(w, 19), (2 << 24) | (3 << 18));
    // (5,5): the lowest byte moves all the way up to the byte-1 position.
    assert_eq!(get_field_word(w, 45), 5 << 24);
    // (4,5): bytes 4..5 move up to bytes 1..2.
    assert_eq!(get_field_word(w, 37), (4 << 24) | (5 << 18));
    // (0,2): the sign is already at the most-significant end.
    assert_eq!(get_field_word(w, 2), (1 << 30) | (1 << 24) | (2 << 18));
    // (3,3) of a positive word: byte 3 lands at byte 1, sign cleared.
    let p = word_from_bytes(0, 0, 0, 63, 0, 0);
    assert_eq!(get_field_word(p, 27), 63 << 24);
}

#[test]
fn get_bytes_never_reads_sign_past_byte_one() {
    // Two words that differ only in the sign bit extract the same fields
    // for every range that starts at byte 1 or later.
    let pos = word_from_bytes(0, 1, 2, 3, 4, 5);
    let neg = word_from_bytes(1, 1, 2, 3, 4, 5);
    for from in 1u8..=5 {
        for to in from..=5 {
            assert_eq!(get_bytes(pos, from, to), get_bytes(neg, from, to));
        }
    }
    assert_ne!(get_bytes(pos, 0, 5), get_bytes(neg, 0, 5));
}
