use romtext::capacity::{
    allocation_unit_of, encode_records, encode_string, has_no_null, required_size,
    required_size_of, strings_hold_no_null,
};
use romtext::error::{CodecError, Error};
use romtext::record::{RawRecord, StringRecord};

fn rec(address: u32, text: &str) -> StringRecord {
    StringRecord { address, text: text.to_string() }
}

#[test]
fn unit_is_length_plus_one_rounded_up_to_four() {
    assert_eq!(allocation_unit_of(0), 4);
    assert_eq!(allocation_unit_of(1), 4);
    assert_eq!(allocation_unit_of(3), 4);
    assert_eq!(allocation_unit_of(4), 8);
    assert_eq!(allocation_unit_of(7), 8);
    assert_eq!(allocation_unit_of(8), 12);
    assert_eq!(allocation_unit_of(39), 40);
}

#[test]
fn required_size_is_the_sum_of_units() {
    let records = vec![rec(0x1000, "abc"), rec(0x1008, "abcd"), rec(0x1010, "")];
    assert_eq!(required_size(&records), Ok(4 + 8 + 4));
    assert_eq!(required_size(&vec![]), Ok(0));
}

#[test]
fn required_size_counts_encoded_bytes() {
    assert_eq!(required_size(&vec![rec(0x1000, "日本語")]), Ok(8));
    assert_eq!(required_size(&vec![rec(0x1000, "ｱｲｳ")]), Ok(4));
}

#[test]
fn required_size_is_a_multiple_of_four() {
    let mut records = Vec::new();
    for n in 0..20 {
        records.push(rec(0x1000 + 8 * n, &"x".repeat(n as usize)));
        assert_eq!(required_size(&records).unwrap() % 4, 0);
    }
}

#[test]
fn required_size_fails_on_the_first_unmappable_text() {
    let records = vec![rec(0x1000, "ok"), rec(0x1008, "€"), rec(0x1010, "😀")];
    assert_eq!(
        required_size(&records),
        Err(Error::Encoding { address: 0x1008, cause: CodecError::Unmappable })
    );
}

#[test]
fn records_are_encoded_in_order() {
    let records = vec![rec(0x1000, "日"), rec(0x1008, "a")];
    assert_eq!(
        encode_records(&records),
        Ok(vec![
            RawRecord { address: 0x1000, bytes: vec![0x93, 0xFA] },
            RawRecord { address: 0x1008, bytes: vec![b'a'] },
        ])
    );
}

#[test]
fn size_of_encoded_records() {
    let entries = vec![
        RawRecord { address: 1, bytes: vec![1, 2, 3] },
        RawRecord { address: 1, bytes: vec![1, 2, 3, 4] },
    ];
    assert_eq!(required_size_of(&entries), 12);
}

#[test]
fn required_size_counts_every_byte_of_a_text() {
    assert_eq!(required_size(&vec![rec(0x1000, "a\0b")]), Ok(4));
    assert_eq!(required_size(&vec![rec(0x1000, "a\0bc")]), Ok(8));
    assert_eq!(required_size(&vec![rec(0x1000, "\0")]), Ok(4));
}

#[test]
fn required_size_does_not_depend_on_the_addresses() {
    let a = vec![rec(0x1000, "abc"), rec(0x1008, "日本語")];
    let b = vec![rec(0xFFFF_FFF8, "abc"), rec(0, "日本語")];
    assert_eq!(required_size(&a), Ok(12));
    assert_eq!(required_size(&b), Ok(12));
}

#[test]
fn required_size_is_at_least_four_for_each_record() {
    let records = vec![rec(0x1000, ""), rec(0x1008, ""), rec(0x1010, "x")];
    assert_eq!(required_size(&records), Ok(12));
}

#[test]
fn string_is_encoded_for_its_slot() {
    assert_eq!(encode_string(0x1000, "日"), Ok(vec![0x93, 0xFA]));
    assert_eq!(encode_string(0x1000, "a\0b"), Ok(vec![b'a', 0, b'b']));
    assert_eq!(
        encode_string(0x1000, "€"),
        Err(Error::Encoding { address: 0x1000, cause: CodecError::Unmappable })
    );
}

#[test]
fn null_bytes_are_found() {
    assert!(has_no_null(b"abc"));
    assert!(has_no_null(b""));
    assert!(!has_no_null(b"a\0c"));
    assert!(!has_no_null(b"\0"));
    let clean = vec![
        RawRecord { address: 1, bytes: vec![1, 2] },
        RawRecord { address: 2, bytes: vec![] },
    ];
    assert!(strings_hold_no_null(&clean));
    assert!(strings_hold_no_null(&vec![]));
    let dirty = vec![
        RawRecord { address: 1, bytes: vec![1, 2] },
        RawRecord { address: 2, bytes: vec![3, 0, 4] },
    ];
    assert!(!strings_hold_no_null(&dirty));
}
