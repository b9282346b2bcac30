use knoxide::mix_util::{get_bytes, get_field_word};

#[test]
fn mix_test_get_bytes_field() {
    let test0 = 0;
    let test1 = 0b00_100000_010101_000000_000000_000000;
    let test2 = 0b01_100000_010101_100000_000001_000000;

    assert_eq!(get_bytes(test0, 0, 0), 0);
    assert_eq!(get_bytes(test0, 1, 3), 0);
    assert_eq!(get_bytes(test0, 1, 5), 0);
    assert_eq!(get_bytes(test0, 0, 5), 0);
    assert_eq!(get_bytes(test1, 0, 5), test1);
    assert_eq!(get_bytes(test1, 0, 0), 0);
    assert_eq!(get_bytes(test1, 0, 1), 0b100000);
    assert_eq!(get_bytes(test1, 0, 2), 0b100000_010101);
    assert_eq!(get_bytes(test1, 1, 2), 0b100000_010101);
    assert_eq!(get_bytes(test1, 1, 3), 0b100000_010101_000000);
    assert_eq!(get_bytes(test1, 1, 5), test1);
    assert_eq!(get_bytes(test2, 0, 1), 0b01_100000);
    assert_eq!(get_bytes(test2, 0, 2), 0b01_100000_010101);
    assert_eq!(get_bytes(test2, 1, 2), get_bytes(test1, 1, 2));

    assert_eq!(get_field_word(0, 0), 0);
    assert_eq!(get_field_word(0, 11), 0);
    assert_eq!(get_field_word(0, 13), 0);
    assert_eq!(get_field_word(0, 5), 0);
    assert_eq!(get_field_word(test1, 5), test1);
    assert_eq!(get_field_word(test1, 0), 0);
    assert_eq!(get_field_word(test1, 1), 0b00_100000_000000_000000_000000_000000);
    assert_eq!(get_field_word(test1, 2), 0b00_100000_010101_000000_000000_000000);
    assert_eq!(get_field_word(test1, 10), 0b00_100000_010101_000000_000000_000000);
    assert_eq!(get_field_word(test1, 11), 0b00_100000_010101_000000_000000_000000);
    assert_eq!(get_field_word(test1, 13), test1);
    assert_eq!(get_field_word(test2, 1), 0b01_100000_000000_000000_000000_000000);
    assert_eq!(get_field_word(test2, 2), 0b01_100000_010101_000000_000000_000000);
    assert_eq!(get_field_word(test2, 10), get_field_word(test1, 10));
}
