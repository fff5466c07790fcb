use romtext::capacity::required_size;
use romtext::error::{CodecError, Error};
use romtext::extract::{extract, extract_records, read_slot_text, read_string};
use romtext::layout::{AddressRange, AddressTable, FreeRegion};
use romtext::patch::{
    patch_encoded, patch_records, patch_strings, write_encoded, write_string, AllocationCursor,
};
use romtext::record::{RawRecord, StringRecord};
use romtext::roundtrip::{is_faithful, raw_string};
use romtext::sidecar::parse_sidecar;

const DIFF: u32 = 0x1000;

fn rec(address: u32, text: &str) -> StringRecord {
    StringRecord { address, text: text.to_string() }
}

/// Two slots at offsets 0 and 8, strings from offset 0x20, free region at
/// offsets 0x40 to 0x60.
fn small_table() -> AddressTable {
    AddressTable::new(
        vec![AddressRange { start: 0x1000, end: 0x1010 }],
        FreeRegion { start: 0x1040, end: 0x1060 },
        DIFF,
    )
    .unwrap()
}

fn small_image() -> Vec<u8> {
    let mut image = vec![0xEE; 0x60];
    image[0..8].copy_from_slice(&[0x20, 0x10, 0, 0, 1, 2, 3, 4]);
    image[8..16].copy_from_slice(&[0x28, 0x10, 0, 0, 5, 6, 7, 8]);
    image[0x20..0x26].copy_from_slice(b"Hello\0");
    image[0x28..0x2f].copy_from_slice(&[0x93, 0xFA, 0x96, 0x7B, b'\n', b'!', 0]);
    image
}

fn single_slot_table() -> AddressTable {
    AddressTable::new(
        vec![AddressRange { start: 0x1000, end: 0x1008 }],
        FreeRegion { start: 0x1010, end: 0x1030 },
        DIFF,
    )
    .unwrap()
}

#[test]
fn string_is_read_up_to_its_terminator() {
    let image = small_image();
    assert_eq!(read_string(&image, 0x1000, 0x20), Ok("Hello".to_string()));
    assert_eq!(read_string(&image, 0x1000, 0x22), Ok("llo".to_string()));
    assert_eq!(read_string(&image, 0x1008, 0x28), Ok("日本\n!".to_string()));
    assert_eq!(read_string(&image, 0x1008, 0x25), Ok(String::new()));
    assert_eq!(
        read_string(&[0x41, 0x81, 0], 0x1000, 0),
        Err(Error::Encoding { address: 0x1000, cause: CodecError::Malformed })
    );
}

#[test]
fn string_that_runs_into_the_end_is_an_error() {
    assert_eq!(read_string(&[0x41, 0x42], 0x1000, 0), Err(Error::Unterminated { address: 0x1000 }));
    assert_eq!(read_string(&[0x41, 0x42, 0], 0x1000, 0), Ok("AB".to_string()));
    assert_eq!(read_string(&[0x41, 0], 0x1008, 2), Err(Error::Unterminated { address: 0x1008 }));
    assert_eq!(read_string(&[0x41, 0], 0x1008, 99), Err(Error::Unterminated { address: 0x1008 }));
    let mut image = small_image();
    image.truncate(0x2e);
    assert_eq!(
        extract_records(&small_table(), &image),
        Err(Error::Unterminated { address: 0x1008 })
    );
}

#[test]
fn byte_order_mark_in_the_image_is_an_error() {
    assert_eq!(
        read_string(&[0xFF, 0xFE, 0x41, 0x42, 0x00], 0x1000, 0),
        Err(Error::Encoding { address: 0x1000, cause: CodecError::Malformed })
    );
}

#[test]
fn extraction_follows_the_pointers() {
    let image = small_image();
    let before = image.clone();
    let records = extract_records(&small_table(), &image).unwrap();
    assert_eq!(records, vec![rec(0x1000, "Hello"), rec(0x1008, "日本\n!")]);
    assert_eq!(image, before);
}

#[test]
fn extraction_writes_one_line_per_slot() {
    let (text, lines) = extract(&small_table(), &small_image()).unwrap();
    assert_eq!(text, "1000,Hello\n1008,日本\\n!\n");
    assert_eq!(lines, 2);
}

#[test]
fn extraction_of_a_table_without_slots_is_empty() {
    let table = AddressTable::new(
        vec![AddressRange { start: 0x1000, end: 0x1000 }],
        FreeRegion { start: 0x1040, end: 0x1060 },
        DIFF,
    )
    .unwrap();
    assert_eq!(extract(&table, &[]), Ok((String::new(), 0)));
}

#[test]
fn extraction_fails_on_a_slot_outside_the_image() {
    let image = small_image();
    let short = [0x04, 0x10, 0, 0, b'A', 0, 3, 4, 0x28, 0x10, 0, 0];
    assert_eq!(
        extract_records(&small_table(), &short),
        Err(Error::Truncated { address: 0x1008 })
    );
    assert_eq!(read_slot_text(DIFF, &image[..4], 0x1000), Err(Error::Truncated { address: 0x1000 }));
}

#[test]
fn extraction_fails_on_a_pointer_below_the_offset() {
    let mut image = small_image();
    image[8..12].copy_from_slice(&[0xFF, 0x0F, 0, 0]);
    assert_eq!(
        extract_records(&small_table(), &image),
        Err(Error::BadPointer { address: 0x1008, pointer: 0xFFF })
    );
}

#[test]
fn extraction_fails_on_malformed_text() {
    let mut image = small_image();
    image[0x20] = 0x81;
    image[0x21] = 0;
    assert_eq!(
        extract(&small_table(), &image),
        Err(Error::Encoding { address: 0x1000, cause: CodecError::Malformed })
    );
}

#[test]
fn pointer_past_the_end_is_an_error() {
    let mut image = small_image();
    image[0..4].copy_from_slice(&[0, 0, 0, 0x10]);
    assert_eq!(read_slot_text(DIFF, &image, 0x1000), Err(Error::Unterminated { address: 0x1000 }));
}

#[test]
fn cursor_starts_at_the_free_region() {
    let c = AllocationCursor::new(&small_table());
    assert_eq!(c, AllocationCursor { next: 0x40, end: 0x60 });
}

#[test]
fn string_is_stored_with_terminator_and_padding() {
    let mut image = vec![0xEE; 0x20];
    let mut cursor = AllocationCursor { next: 8, end: 0x20 };
    assert_eq!(write_encoded(&mut image, &mut cursor, b"Hello"), Ok(8));
    assert_eq!(cursor, AllocationCursor { next: 16, end: 0x20 });
    assert_eq!(&image[..8], &[0xEE; 8]);
    assert_eq!(&image[8..16], b"Hello\0\0\0");
    assert_eq!(&image[16..], &[0xEE; 16]);
    assert_eq!(write_encoded(&mut image, &mut cursor, b"abc"), Ok(16));
    assert_eq!(cursor.next, 20);
    assert_eq!(&image[16..20], b"abc\0");
    assert_eq!(write_encoded(&mut image, &mut cursor, b""), Ok(20));
    assert_eq!(cursor.next, 24);
    assert_eq!(&image[20..24], &[0, 0, 0, 0]);
    assert_eq!(&image[24..], &[0xEE; 8]);
}

#[test]
fn text_is_encoded_before_it_is_stored() {
    let mut image = vec![0xEE; 0x10];
    let mut cursor = AllocationCursor { next: 4, end: 0x10 };
    assert_eq!(write_string(&mut image, &mut cursor, 0x1000, "日本語"), Ok(4));
    assert_eq!(cursor.next, 12);
    assert_eq!(&image[4..12], &[0x93, 0xFA, 0x96, 0x7B, 0x8C, 0xEA, 0, 0]);
    assert_eq!(
        write_string(&mut image, &mut cursor, 0x1008, "€"),
        Err(Error::Encoding { address: 0x1008, cause: CodecError::Unmappable })
    );
    assert_eq!(
        write_string(&mut image, &mut cursor, 0x1008, "abcd"),
        Err(Error::Capacity { required: 8, available: 4 })
    );
    assert_eq!(
        write_string(&mut image, &mut cursor, 0x1008, "¥"),
        Err(Error::Encoding { address: 0x1008, cause: CodecError::Unmappable })
    );
    assert_eq!(cursor, AllocationCursor { next: 12, end: 0x10 });
    assert_eq!(&image[12..], &[0xEE; 4]);
}

#[test]
fn text_with_a_null_character_is_written_as_it_is() {
    let mut image = vec![0xEE; 0x10];
    let mut cursor = AllocationCursor { next: 4, end: 0x10 };
    assert_eq!(write_string(&mut image, &mut cursor, 0x1000, "a\0bcd"), Ok(4));
    assert_eq!(cursor, AllocationCursor { next: 12, end: 0x10 });
    assert_eq!(&image[4..12], b"a\0bcd\0\0\0");
    assert_eq!(read_string(&image, 0x1000, 4), Ok("a".to_string()));
}

#[test]
fn text_that_was_written_reads_back() {
    for text in ["", "Hello", "日本語\n!", "ｶﾀｶﾅ", "a\\b"] {
        let mut image = vec![0xEE; 8];
        let mut cursor = AllocationCursor { next: 8, end: 0x40 };
        let at = write_string(&mut image, &mut cursor, 0x1000, text).unwrap();
        assert_eq!(read_string(&image, 0x1000, at as usize), Ok(text.to_string()));
    }
}

#[test]
fn patch_writes_text_with_a_null_character() {
    let table = small_table();
    let mut image = small_image();
    assert_eq!(
        patch_records(&table, &mut image, &vec![rec(0x1000, "a"), rec(0x1008, "b\0c")]),
        Ok(0x1048)
    );
    assert_eq!(&image[0x40..0x48], b"a\0\0\0b\0c\0");
    assert_eq!(&image[8..12], &[0x44, 0x10, 0, 0]);
    assert_eq!(
        extract_records(&table, &image),
        Ok(vec![rec(0x1000, "a"), rec(0x1008, "b")])
    );
}

#[test]
fn cursor_ends_at_the_start_plus_the_estimate() {
    let table = small_table();
    let mut image = small_image();
    let before = image.clone();
    let sidecar = "1008,日本語\n1000,first line\\nsecond\n";
    let required = required_size(&parse_sidecar(sidecar).unwrap()).unwrap();
    assert_eq!(required, 8 + 20);
    assert_eq!(patch_strings(&table, &mut image, sidecar), Ok(0x1040 + 28));
    assert_eq!(image.len(), before.len());
    assert_eq!(&image[4..8], &before[4..8]);
    assert_eq!(&image[12..16], &before[12..16]);
    assert_eq!(&image[16..0x40], &before[16..0x40]);
    assert_eq!(&image[0..4], &[0x40, 0x10, 0, 0]);
    assert_eq!(&image[8..12], &[0x54, 0x10, 0, 0]);
    assert_eq!(&image[0x40..0x54], b"first line\nsecond\0\0\0");
}

#[test]
fn patch_fails_on_text_that_would_read_back_as_another() {
    let table = small_table();
    let mut image = small_image();
    let before = image.clone();
    assert_eq!(
        patch_strings(&table, &mut image, "1000,5¥\n1008,b\n"),
        Err(Error::Encoding { address: 0x1000, cause: CodecError::Unmappable })
    );
    assert_eq!(image, before);
}

#[test]
fn string_that_does_not_fit_is_not_stored() {
    let mut image = vec![0xEE; 0x20];
    let before = image.clone();
    let mut cursor = AllocationCursor { next: 0x18, end: 0x20 };
    assert_eq!(
        write_encoded(&mut image, &mut cursor, b"12345678"),
        Err(Error::Capacity { required: 12, available: 8 })
    );
    assert_eq!(cursor, AllocationCursor { next: 0x18, end: 0x20 });
    assert_eq!(image, before);
    assert_eq!(write_encoded(&mut image, &mut cursor, b"1234567"), Ok(0x18));
    assert_eq!(cursor.next, 0x20);
}

#[test]
fn patch_relocates_strings_and_rewrites_pointers() {
    let table = small_table();
    let mut image = small_image();
    let before = image.clone();
    let end = patch_strings(&table, &mut image, "1008,ab\n1000,日本語\\n\n").unwrap();
    assert_eq!(end, 0x104c);
    assert_eq!(image.len(), before.len());
    // pointers
    assert_eq!(&image[0..4], &[0x40, 0x10, 0, 0]);
    assert_eq!(&image[8..12], &[0x48, 0x10, 0, 0]);
    // the rest of each slot is untouched
    assert_eq!(&image[4..8], &[1, 2, 3, 4]);
    assert_eq!(&image[12..16], &[5, 6, 7, 8]);
    // strings
    assert_eq!(&image[0x40..0x48], &[0x93, 0xFA, 0x96, 0x7B, 0x8C, 0xEA, b'\n', 0]);
    assert_eq!(&image[0x48..0x4c], b"ab\0\0");
    // everything else
    assert_eq!(&image[16..0x40], &before[16..0x40]);
    assert_eq!(&image[0x4c..], &before[0x4c..]);
    assert_eq!(
        extract_records(&table, &image),
        Ok(vec![rec(0x1000, "日本語\n"), rec(0x1008, "ab")])
    );
}

#[test]
fn patch_lengthens_a_short_image() {
    let table = small_table();
    let mut image = small_image();
    image.truncate(0x30);
    patch_records(&table, &mut image, &vec![rec(0x1000, "a"), rec(0x1008, "b")]).unwrap();
    assert_eq!(image.len(), 0x48);
    assert_eq!(&image[0x30..0x40], &[0u8; 16]);
    assert_eq!(&image[0x40..0x48], b"a\0\0\0b\0\0\0");
}

#[test]
fn patch_without_room_leaves_the_image_alone() {
    let table = single_slot_table();
    let mut image = vec![0xEE; 0x30];
    let before = image.clone();
    let text = "x".repeat(37);
    let sidecar = format!("1000,{}\n", text);
    assert_eq!(
        patch_strings(&table, &mut image, &sidecar),
        Err(Error::Capacity { required: 40, available: 32 })
    );
    assert_eq!(image, before);
}

#[test]
fn patch_that_fills_the_region_exactly_succeeds() {
    let table = single_slot_table();
    let mut image = vec![0xEE; 0x30];
    let sidecar = format!("1000,{}\n", "x".repeat(31));
    assert_eq!(patch_strings(&table, &mut image, &sidecar), Ok(0x1030));
    assert_eq!(&image[0..4], &[0x10, 0x10, 0, 0]);
    assert_eq!(image[0x2e], b'x');
    assert_eq!(image[0x2f], 0);
}

#[test]
fn patch_counts_lines_that_belong_to_no_slot() {
    let table = single_slot_table();
    let mut image = vec![0xEE; 0x30];
    let before = image.clone();
    let sidecar = format!("1000,abc\n2000,{}\n", "x".repeat(28));
    assert_eq!(
        patch_strings(&table, &mut image, &sidecar),
        Err(Error::Capacity { required: 36, available: 32 })
    );
    assert_eq!(image, before);
    let sidecar = format!("1000,abc\n2000,{}\n", "x".repeat(27));
    assert_eq!(patch_strings(&table, &mut image, &sidecar), Ok(0x1014));
}

#[test]
fn patch_fails_on_a_missing_slot() {
    let table = small_table();
    let mut image = small_image();
    let before = image.clone();
    assert_eq!(
        patch_strings(&table, &mut image, "1000,Hello\n"),
        Err(Error::MissingSlot { address: 0x1008 })
    );
    assert_eq!(image, before);
    assert_eq!(
        patch_strings(&table, &mut image, ""),
        Err(Error::MissingSlot { address: 0x1000 })
    );
    assert_eq!(image, before);
}

#[test]
fn patch_fails_on_a_duplicate_address() {
    let table = small_table();
    let mut image = small_image();
    let before = image.clone();
    assert_eq!(
        patch_strings(&table, &mut image, "1000,a\n1008,b\n1000,c\n"),
        Err(Error::DuplicateAddress { address: 0x1000 })
    );
    assert_eq!(image, before);
}

#[test]
fn patch_fails_on_unmappable_text() {
    let table = small_table();
    let mut image = small_image();
    let before = image.clone();
    assert_eq!(
        patch_strings(&table, &mut image, "1000,a\n1008,€\n"),
        Err(Error::Encoding { address: 0x1008, cause: CodecError::Unmappable })
    );
    assert_eq!(image, before);
}

#[test]
fn patch_fails_on_a_malformed_sidecar() {
    let table = small_table();
    let mut image = small_image();
    let before = image.clone();
    assert_eq!(
        patch_strings(&table, &mut image, "1000,a\n1008\n"),
        Err(Error::MissingSeparator { line: 1 })
    );
    assert_eq!(
        patch_strings(&table, &mut image, "1000,a\nzz,b\n"),
        Err(Error::BadAddress { line: 1 })
    );
    assert_eq!(image, before);
}

#[test]
fn patch_with_encoded_strings() {
    let table = small_table();
    let mut image = small_image();
    let entries = vec![
        RawRecord { address: 0x1000, bytes: vec![1, 2, 3, 4] },
        RawRecord { address: 0x1008, bytes: vec![] },
    ];
    assert_eq!(patch_encoded(&table, &mut image, &entries), Ok(0x104c));
    assert_eq!(&image[0x40..0x4c], &[1, 2, 3, 4, 0, 0, 0, 0, 0, 0, 0, 0]);
    assert_eq!(&image[8..12], &[0x48, 0x10, 0, 0]);
}

#[test]
fn extract_then_patch_restores_a_packed_image() {
    let table = small_table();
    let mut image = small_image();
    patch_strings(&table, &mut image, "1000,first line\\nsecond\n1008,日本語\n").unwrap();
    let packed = image.clone();
    let (sidecar, lines) = extract(&table, &image).unwrap();
    assert_eq!(lines, 2);
    let end = patch_strings(&table, &mut image, &sidecar).unwrap();
    assert_eq!(image, packed);
    assert_eq!(end, 0x1040 + 20 + 8);
}

#[test]
fn raw_string_follows_the_pointer() {
    let image = small_image();
    assert_eq!(raw_string(DIFF, &image, 0x1000), b"Hello".to_vec());
    assert_eq!(raw_string(DIFF, &image, 0x1008), vec![0x93, 0xFA, 0x96, 0x7B, b'\n', b'!']);
    assert_eq!(raw_string(DIFF, &image[..4], 0x1000), Vec::<u8>::new());
    assert_eq!(raw_string(DIFF, &image[..0x22], 0x1000), Vec::<u8>::new());
}

#[test]
fn image_whose_strings_survive_the_trip() {
    let table = small_table();
    let mut image = small_image();
    assert!(is_faithful(&table, &image));
    image[0x20] = 0x81;
    image[0x21] = 0;
    assert!(!is_faithful(&table, &image));
    let mut image = small_image();
    image[0x24] = b'\r';
    assert!(!is_faithful(&table, &image));
    let mut image = small_image();
    image[0x21] = b'\\';
    image[0x22] = b'n';
    assert!(!is_faithful(&table, &image));
}

#[test]
fn patch_with_the_sidecar_of_an_extraction_keeps_the_records() {
    let table = small_table();
    let mut image = small_image();
    let before = extract_records(&table, &image).unwrap();
    let (sidecar, _) = extract(&table, &image).unwrap();
    patch_strings(&table, &mut image, &sidecar).unwrap();
    assert_eq!(extract_records(&table, &image), Ok(before));
    assert_eq!(&image[0..4], &[0x40, 0x10, 0, 0]);
}

#[test]
fn patch_asks_for_slots_only_and_leaves_the_rest() {
    let table = AddressTable::new(
        vec![
            AddressRange { start: 0x1000, end: 0x1010 },
            AddressRange { start: 0x1020, end: 0x1028 },
        ],
        FreeRegion { start: 0x1040, end: 0x1060 },
        DIFF,
    )
    .unwrap();
    let mut image = vec![0xEE; 0x60];
    let before = image.clone();
    assert_eq!(
        patch_strings(&table, &mut image, "1000,a\n1008,b\n1010,c\n"),
        Err(Error::MissingSlot { address: 0x1020 })
    );
    assert_eq!(patch_strings(&table, &mut image, "1000,a\n1008,b\n1020,c\n"), Ok(0x104c));
    assert_eq!(&image[0..4], &[0x40, 0x10, 0, 0]);
    assert_eq!(&image[8..12], &[0x44, 0x10, 0, 0]);
    assert_eq!(&image[0x20..0x24], &[0x48, 0x10, 0, 0]);
    assert_eq!(&image[0x10..0x20], &before[0x10..0x20]);
    assert_eq!(&image[0x40..0x4c], b"a\0\0\0b\0\0\0c\0\0\0");
}
