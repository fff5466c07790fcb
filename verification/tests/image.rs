use romtext::image::{read_cstring, read_slot, write_at, write_pointer};

#[test]
fn pointer_is_little_endian() {
    let image = [0x78, 0x56, 0x34, 0x12, 0xAA, 0xBB, 0xCC, 0xDD];
    assert_eq!(read_slot(&image, 0), Some(0x12345678));
}

#[test]
fn slot_needs_all_eight_bytes() {
    let image = [0u8; 15];
    assert_eq!(read_slot(&image, 7), Some(0));
    assert_eq!(read_slot(&image, 8), None);
    assert_eq!(read_slot(&image[..4], 0), None);
    assert_eq!(read_slot(&image, usize::MAX), None);
}

#[test]
fn string_ends_at_its_null_byte() {
    let image = [b'a', b'b', 0, b'c', b'd', 0];
    assert_eq!(read_cstring(&image, 0), Some(b"ab".to_vec()));
    assert_eq!(read_cstring(&image, 1), Some(b"b".to_vec()));
    assert_eq!(read_cstring(&image, 2), Some(Vec::<u8>::new()));
    assert_eq!(read_cstring(&image, 3), Some(b"cd".to_vec()));
    assert_eq!(read_cstring(&image, 5), Some(Vec::<u8>::new()));
}

#[test]
fn string_without_terminator_is_no_string() {
    let image = [b'a', b'b', 0, b'c', b'd'];
    assert_eq!(read_cstring(&image, 3), None);
    assert_eq!(read_cstring(&image, 4), None);
    assert_eq!(read_cstring(&image, 5), None);
    assert_eq!(read_cstring(&image, 99), None);
    assert_eq!(read_cstring(&[0x41, 0x42], 0), None);
    assert_eq!(read_cstring(&[], 0), None);
}

#[test]
fn write_replaces_bytes_in_place() {
    let mut image = vec![1, 2, 3, 4, 5];
    write_at(&mut image, 1, &[9, 8]);
    assert_eq!(image, vec![1, 9, 8, 4, 5]);
}

#[test]
fn write_beyond_the_end_lengthens_the_image() {
    let mut image = vec![1, 2, 3];
    write_at(&mut image, 2, &[7, 7]);
    assert_eq!(image, vec![1, 2, 7, 7]);
    write_at(&mut image, 6, &[5]);
    assert_eq!(image, vec![1, 2, 7, 7, 0, 0, 5]);
}

#[test]
fn writing_nothing_changes_nothing() {
    let mut image = vec![1, 2, 3];
    write_at(&mut image, 10, &[]);
    assert_eq!(image, vec![1, 2, 3]);
}

#[test]
fn pointer_is_written_little_endian() {
    let mut image = vec![0xEE; 8];
    write_pointer(&mut image, 2, 0x12345678);
    assert_eq!(image, vec![0xEE, 0xEE, 0x78, 0x56, 0x34, 0x12, 0xEE, 0xEE]);
    assert_eq!(read_slot(&image, 0).map(|p| p >> 16), Some(0x5678));
}
