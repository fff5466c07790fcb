//! Byte-level access to an image held in memory: little-endian pointer
//! fields, null-terminated strings, and writes that behave as writes to a
//! file do.

use byteorder::{ByteOrder, LittleEndian};
use vstd::prelude::*;
use vstd::slice::slice_subrange;

verus! {

/// The number that four bytes stand for, least significant byte first.
pub open spec fn le_value(b: Seq<u8>) -> int
    recommends
        b.len() == 4,
{
    b[0] as int + 0x100 * (b[1] as int) + 0x1_0000 * (b[2] as int) + 0x100_0000 * (b[3] as int)
}

/// The four bytes that stand for a number, least significant byte first.
pub open spec fn le_encoding(v: u32) -> Seq<u8> {
    seq![
        (v % 0x100) as u8,
        (v / 0x100 % 0x100) as u8,
        (v / 0x1_0000 % 0x100) as u8,
        (v / 0x100_0000) as u8,
    ]
}

/// Reading back what was encoded gives the number again.
pub proof fn lemma_le_value_of_encoding(v: u32)
    ensures
        le_encoding(v).len() == 4,
        le_value(le_encoding(v)) == v,
{
}

/// Encoding what was read gives the four bytes again.
pub proof fn lemma_le_encoding_of_value(b: Seq<u8>)
    requires
        b.len() == 4,
    ensures
        0 <= le_value(b) <= u32::MAX,
        le_encoding(le_value(b) as u32) == b,
{
    let b0 = b[0] as int;
    let b1 = b[1] as int;
    let b2 = b[2] as int;
    let b3 = b[3] as int;
    let v = le_value(b);
    assert(v == b0 + 0x100 * b1 + 0x1_0000 * b2 + 0x100_0000 * b3);
    assert(v / 0x100_0000 == b3);
    assert(v / 0x1_0000 == b2 + 0x100 * b3);
    assert(v / 0x100 == b1 + 0x100 * b2 + 0x1_0000 * b3);
    assert(v % 0x100 == b0);
    assert(v / 0x100 % 0x100 == b1);
    assert(v / 0x1_0000 % 0x100 == b2);
    let e = le_encoding(v as u32);
    assert(e[0] == b[0] && e[1] == b[1] && e[2] == b[2] && e[3] == b[3]);
    assert(e =~= b);
}

/// `byteorder::LittleEndian::read_u32`: the number that the first four bytes
/// of `buf` stand for, least significant byte first. It panics on a shorter
/// buffer, which the precondition rules out.
#[verifier::external_body]
fn le_read_u32(buf: &[u8]) -> (r: u32)
    requires
        buf@.len() >= 4,
    ensures
        r == le_value(buf@.subrange(0, 4)),
{
    LittleEndian::read_u32(buf)
}

/// `byteorder::LittleEndian::write_u32` on a buffer of four bytes: the four
/// bytes that stand for `n`, least significant byte first.
#[verifier::external_body]
fn le_write_u32(n: u32) -> (r: [u8; 4])
    ensures
        r@ == le_encoding(n),
{
    let mut buf = [0u8; 4];
    LittleEndian::write_u32(&mut buf, n);
    buf
}

/// The pointer stored at offset `at`, if the four bytes of its field lie
/// within the image.
pub open spec fn pointer_at(img: Seq<u8>, at: int) -> Option<u32> {
    if 0 <= at && at + 4 <= img.len() {
        Some(le_value(img.subrange(at, at + 4)) as u32)
    } else {
        None
    }
}

/// The pointer of the slot at offset `at`, if all eight bytes of the slot
/// lie within the image. The four bytes after the pointer are not looked at.
pub open spec fn slot_pointer_at(img: Seq<u8>, at: int) -> Option<u32> {
    if 0 <= at && at + 8 <= img.len() {
        pointer_at(img, at)
    } else {
        None
    }
}

/// Reads the pointer field of the slot at offset `at`.
pub fn read_slot(image: &[u8], at: usize) -> (r: Option<u32>)
    ensures
        r == slot_pointer_at(image@, at as int),
{
    if image.len() < 8 || at > image.len() - 8 {
        return None;
    }
    let field = slice_subrange(image, at, at + 4);
    proof {
        assert(field@.subrange(0, 4) =~= image@.subrange(at as int, at + 4));
        lemma_le_encoding_of_value(field@.subrange(0, 4));
    }
    Some(le_read_u32(field))
}

/// Number of bytes from offset `at` up to, and without, the next null byte
/// or the end of the image.
pub open spec fn cstring_len(img: Seq<u8>, at: int) -> nat
    decreases img.len() - at,
{
    if at < 0 || at >= img.len() || img[at] == 0 {
        0
    } else {
        1 + cstring_len(img, at + 1)
    }
}

/// The bytes of the string that starts at offset `at`: all up to, and
/// without, the next null byte. There is no string where no null byte lies
/// at or after `at` within the image.
pub open spec fn cstring_at(img: Seq<u8>, at: int) -> Option<Seq<u8>> {
    if 0 <= at && at + cstring_len(img, at) < img.len() {
        Some(img.subrange(at, at + cstring_len(img, at)))
    } else {
        None
    }
}

/// No byte is null.
pub open spec fn null_free(bytes: Seq<u8>) -> bool {
    forall|i: int| 0 <= i < bytes.len() ==> #[trigger] bytes[i] != 0
}

/// What `cstring_len` measures: it stays within the image, no byte of the
/// string is null, and the string ends at a null byte or at the end.
pub proof fn lemma_cstring_len(img: Seq<u8>, at: int)
    requires
        0 <= at <= img.len(),
    ensures
        at + cstring_len(img, at) <= img.len(),
        forall|i: int| at <= i < at + cstring_len(img, at) ==> img[i] != 0,
        at + cstring_len(img, at) == img.len() || img[at + cstring_len(img, at)] == 0,
    decreases img.len() - at,
{
    if at < img.len() && img[at] != 0 {
        lemma_cstring_len(img, at + 1);
    }
}

/// A run of `n` bytes without a null, followed by a null or by the end of
/// the image, is the string at that offset.
pub proof fn lemma_cstring_len_unique(img: Seq<u8>, at: int, n: nat)
    requires
        0 <= at,
        at + n <= img.len(),
        forall|i: int| at <= i < at + n ==> img[i] != 0,
        at + n == img.len() || img[at + n] == 0,
    ensures
        cstring_len(img, at) == n,
    decreases n,
{
    if n > 0 {
        lemma_cstring_len_unique(img, at + 1, (n - 1) as nat);
    }
}

/// A null byte at or after `at` ends the string at `at`, at that byte or
/// before it.
pub proof fn lemma_cstring_ends_by(img: Seq<u8>, at: int, z: int)
    requires
        0 <= at <= z < img.len(),
        img[z] == 0,
    ensures
        at + cstring_len(img, at) <= z,
        cstring_at(img, at) is Some,
    decreases z - at,
{
    if img[at] != 0 {
        lemma_cstring_ends_by(img, at + 1, z);
    }
}

/// There is a string at `at` exactly where a null byte lies at or after
/// `at` within the image.
pub proof fn lemma_cstring_is_some(img: Seq<u8>, at: int)
    requires
        0 <= at,
    ensures
        cstring_at(img, at) is Some <==> exists|z: int| at <= z < img.len() && img[z] == 0,
{
    if exists|z: int| at <= z < img.len() && img[z] == 0 {
        let z = choose|z: int| at <= z < img.len() && img[z] == 0;
        lemma_cstring_ends_by(img, at, z);
    }
    if cstring_at(img, at) is Some {
        lemma_cstring_len(img, at);
        let z = at + cstring_len(img, at);
        assert(at <= z < img.len() && img[z] == 0);
    }
}

/// A string that was read holds no null byte.
pub proof fn lemma_cstring_null_free(img: Seq<u8>, at: int)
    requires
        cstring_at(img, at) is Some,
    ensures
        null_free(cstring_at(img, at)->Some_0),
{
    lemma_cstring_len(img, at);
    let s = cstring_at(img, at)->Some_0;
    assert forall|i: int| 0 <= i < s.len() implies #[trigger] s[i] != 0 by {
        assert(s[i] == img[at + i]);
    }
}

/// Reads the string that starts at offset `at`, if a null byte ends it
/// within the image.
pub fn read_cstring(image: &[u8], at: usize) -> (r: Option<Vec<u8>>)
    ensures
        match r {
            Some(v) => cstring_at(image@, at as int) == Some(v@),
            None => cstring_at(image@, at as int) is None,
        },
{
    let mut out: Vec<u8> = Vec::new();
    if at >= image.len() {
        return None;
    }
    let mut p: usize = at;
    while p < image.len() && image[p] != 0
        invariant
            at <= p <= image@.len(),
            out@ == image@.subrange(at as int, p as int),
            forall|i: int| at <= i < p ==> image@[i] != 0,
        decreases image@.len() - p,
    {
        out.push(image[p]);
        assert(image@.subrange(at as int, p as int).push(image@[p as int]) =~= image@.subrange(
            at as int,
            p + 1,
        ));
        p += 1;
    }
    proof {
        lemma_cstring_len_unique(image@, at as int, (p - at) as nat);
    }
    if p < image.len() {
        Some(out)
    } else {
        None
    }
}

/// The image after `data` was written at offset `at`, as a file would hold
/// it: the bytes written replace what was there, and a write that reaches
/// beyond the end lengthens the image, with null bytes in any gap. Writing
/// nothing changes nothing.
pub open spec fn written(img: Seq<u8>, at: int, data: Seq<u8>) -> Seq<u8> {
    if data.len() == 0 {
        img
    } else {
        Seq::new(
            if at + data.len() <= img.len() {
                img.len()
            } else {
                (at + data.len()) as nat
            },
            |i: int|
                if at <= i < at + data.len() {
                    data[i - at]
                } else if i < img.len() {
                    img[i]
                } else {
                    0u8
                },
        )
    }
}

/// Writing what is already there changes nothing.
pub proof fn lemma_written_same(img: Seq<u8>, at: int, data: Seq<u8>)
    requires
        0 <= at,
        at + data.len() <= img.len(),
        img.subrange(at, at + data.len()) == data,
    ensures
        written(img, at, data) == img,
{
    if data.len() > 0 {
        assert forall|i: int| 0 <= i < img.len() implies written(img, at, data)[i] == img[i] by {
            if at <= i < at + data.len() {
                assert(img.subrange(at, at + data.len())[i - at] == img[i]);
            }
        }
        assert(written(img, at, data) =~= img);
    }
}

/// Writes `data` at offset `at`, lengthening the image where the write
/// reaches beyond its end.
pub fn write_at(image: &mut Vec<u8>, at: usize, data: &[u8])
    requires
        at + data@.len() <= usize::MAX,
    ensures
        final(image)@ == written(old(image)@, at as int, data@),
{
    let ghost before = image@;
    let n = data.len();
    if n == 0 {
        return;
    }
    let end = at + n;
    while image.len() < end
        invariant
            before.len() <= image@.len(),
            image@.len() <= end || image@.len() == before.len(),
            forall|i: int| 0 <= i < before.len() ==> image@[i] == before[i],
            forall|i: int| before.len() <= i < image@.len() ==> image@[i] == 0,
        decreases end - image@.len(),
    {
        image.push(0);
    }
    let mut k: usize = 0;
    while k < n
        invariant
            n == data@.len(),
            end == at + n,
            k <= n,
            end <= image@.len(),
            image@.len() == if end <= before.len() {
                before.len()
            } else {
                end as nat
            },
            forall|i: int|
                0 <= i < image@.len() ==> image@[i] == if at <= i < at + k {
                    data@[i - at]
                } else if i < before.len() {
                    before[i]
                } else {
                    0u8
                },
        decreases n - k,
    {
        image.set(at + k, data[k]);
        k += 1;
    }
    assert(image@ =~= written(before, at as int, data@));
}

/// Writes a pointer field at offset `at`, least significant byte first.
pub fn write_pointer(image: &mut Vec<u8>, at: usize, value: u32)
    requires
        at + 4 <= usize::MAX,
    ensures
        final(image)@ == written(old(image)@, at as int, le_encoding(value)),
{
    let field = le_write_u32(value);
    write_at(image, at, field.as_slice());
}

} // verus!
