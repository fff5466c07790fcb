//! How much of the free region a set of strings needs.

use crate::codec::{encode, spec_encode};
use crate::image::null_free;
use crate::error::Error;
use crate::record::{
    lemma_raw_entries_push, raw_entries, text_entries, RawEntry, RawRecord, StringRecord,
    TextEntry,
};
use vstd::prelude::*;

verus! {

/// `n` rounded up to the next multiple of four.
pub open spec fn round_up4(n: int) -> int {
    if n % 4 == 0 {
        n
    } else {
        n + 4 - n % 4
    }
}

/// Bytes that a string of `encoded_len` bytes takes in the free region: the
/// string and its null terminator, rounded up to a multiple of four.
pub open spec fn allocation_unit(encoded_len: nat) -> nat {
    round_up4(encoded_len as int + 1) as nat
}

/// Bytes that all the strings take, one after the other.
pub open spec fn total_units(entries: Seq<RawEntry>) -> nat
    decreases entries.len(),
{
    if entries.len() == 0 {
        0
    } else {
        total_units(entries.drop_last()) + allocation_unit(entries.last().bytes.len())
    }
}

/// The largest multiple of four that fits in 64 bits.
pub const SIZE_CEILING: u64 = 0xFFFF_FFFF_FFFF_FFFC;

/// A byte count as the estimator reports it: itself, or `SIZE_CEILING` where
/// it is larger than that.
pub open spec fn reported_size(n: nat) -> u64 {
    if n <= SIZE_CEILING {
        n as u64
    } else {
        SIZE_CEILING
    }
}

/// An allocation unit is a multiple of four, holds the string and its
/// terminator, and wastes fewer than four bytes.
pub proof fn lemma_allocation_unit(encoded_len: nat)
    ensures
        allocation_unit(encoded_len) % 4 == 0,
        encoded_len + 1 <= allocation_unit(encoded_len) <= encoded_len + 4,
{
}

/// The total is a multiple of four after every record.
pub proof fn lemma_total_units_multiple_of_four(entries: Seq<RawEntry>)
    ensures
        total_units(entries) % 4 == 0,
    decreases entries.len(),
{
    if entries.len() > 0 {
        lemma_total_units_multiple_of_four(entries.drop_last());
        lemma_allocation_unit(entries.last().bytes.len());
    }
}

/// Every record takes at least four bytes, so the total of a set that is
/// not empty is positive.
pub proof fn lemma_total_units_at_least(entries: Seq<RawEntry>)
    ensures
        total_units(entries) >= 4 * entries.len(),
    decreases entries.len(),
{
    if entries.len() > 0 {
        lemma_total_units_at_least(entries.drop_last());
        lemma_allocation_unit(entries.last().bytes.len());
    }
}

/// The total depends on the strings alone, not on the addresses they
/// belong to.
pub proof fn lemma_total_units_ignores_addresses(a: Seq<RawEntry>, b: Seq<RawEntry>)
    requires
        a.len() == b.len(),
        forall|j: int| 0 <= j < a.len() ==> (#[trigger] a[j]).bytes == b[j].bytes,
    ensures
        total_units(a) == total_units(b),
    decreases a.len(),
{
    if a.len() > 0 {
        assert forall|j: int| 0 <= j < a.drop_last().len() implies (#[trigger] a.drop_last()[j]).bytes
            == b.drop_last()[j].bytes by {
            assert(a.drop_last()[j] == a[j] && b.drop_last()[j] == b[j]);
        }
        lemma_total_units_ignores_addresses(a.drop_last(), b.drop_last());
        assert(a.last() == a[a.len() - 1] && b.last() == b[b.len() - 1]);
    }
}

/// Each record adds its own allocation unit to the total.
pub proof fn lemma_total_units_push(entries: Seq<RawEntry>, e: RawEntry)
    ensures
        total_units(entries.push(e)) == total_units(entries) + allocation_unit(e.bytes.len()),
{
    assert(entries.push(e).drop_last() =~= entries);
}

/// The allocation unit of a string of `encoded_len` bytes.
pub fn allocation_unit_of(encoded_len: usize) -> (r: u64)
    ensures
        r == reported_size(allocation_unit(encoded_len as nat)),
        r % 4 == 0,
{
    let len = encoded_len as u64;
    if len > SIZE_CEILING - 4 {
        return SIZE_CEILING;
    }
    let n = len + 1;
    let rem = n % 4;
    if rem == 0 {
        n
    } else {
        n + (4 - rem)
    }
}

/// The room that the strings need: the sum of their allocation units, or
/// `SIZE_CEILING` where the sum is larger than that.
pub fn required_size_of(entries: &Vec<RawRecord>) -> (r: u64)
    ensures
        r == reported_size(total_units(raw_entries(entries@))),
        r % 4 == 0,
{
    let mut sum: u64 = 0;
    let mut i: usize = 0;
    while i < entries.len()
        invariant
            i <= entries@.len(),
            sum == reported_size(total_units(raw_entries(entries@.subrange(0, i as int)))),
            sum % 4 == 0,
        decreases entries@.len() - i,
    {
        let unit = allocation_unit_of(entries[i].bytes.len());
        proof {
            let upto = entries@.subrange(0, i as int);
            assert(entries@.subrange(0, i + 1) =~= upto.push(entries@[i as int]));
            lemma_raw_entries_push(upto, entries@[i as int]);
            lemma_total_units_push(raw_entries(upto), entries@[i as int]@);
            lemma_total_units_multiple_of_four(raw_entries(upto));
            lemma_allocation_unit(entries@[i as int]@.bytes.len());
        }
        sum = if unit > SIZE_CEILING - sum {
            SIZE_CEILING
        } else {
            sum + unit
        };
        i += 1;
    }
    assert(entries@.subrange(0, i as int) =~= entries@);
    sum
}

/// The bytes that are stored for the text of the slot at `address`: its
/// encoding, whatever it holds.
pub open spec fn stored_bytes(address: u32, text: Seq<char>) -> Result<Seq<u8>, Error> {
    match spec_encode(text) {
        Err(cause) => Err(Error::Encoding { address, cause }),
        Ok(bytes) => Ok(bytes),
    }
}

/// No string holds a null byte.
pub open spec fn all_null_free(entries: Seq<RawEntry>) -> bool {
    forall|j: int| 0 <= j < entries.len() ==> null_free((#[trigger] entries[j]).bytes)
}

/// Whether no byte is null.
pub fn has_no_null(bytes: &[u8]) -> (r: bool)
    ensures
        r == null_free(bytes@),
{
    let mut i: usize = 0;
    while i < bytes.len()
        invariant
            i <= bytes@.len(),
            forall|j: int| 0 <= j < i ==> #[trigger] bytes@[j] != 0,
        decreases bytes@.len() - i,
    {
        if bytes[i] == 0 {
            return false;
        }
        i += 1;
    }
    true
}

/// Encodes the text of the slot at `address` for storage.
pub fn encode_string(address: u32, text: &str) -> (r: Result<Vec<u8>, Error>)
    ensures
        match r {
            Ok(v) => stored_bytes(address, text@) == Ok::<Seq<u8>, Error>(v@),
            Err(e) => stored_bytes(address, text@) == Err::<Seq<u8>, Error>(e),
        },
{
    match encode(text) {
        Err(cause) => Err(Error::Encoding { address, cause }),
        Ok(bytes) => Ok(bytes),
    }
}

/// Whether no string holds a null byte, so that each, once stored, reads
/// back whole.
pub fn strings_hold_no_null(entries: &Vec<RawRecord>) -> (r: bool)
    ensures
        r == all_null_free(raw_entries(entries@)),
{
    let mut j: usize = 0;
    while j < entries.len()
        invariant
            j <= entries@.len(),
            forall|i: int| 0 <= i < j ==> null_free((#[trigger] raw_entries(entries@)[i]).bytes),
        decreases entries@.len() - j,
    {
        if !has_no_null(entries[j].bytes.as_slice()) {
            assert(!null_free(raw_entries(entries@)[j as int].bytes));
            return false;
        }
        j += 1;
    }
    true
}

/// The records with their texts encoded for storage, or the error of the
/// first record whose text has no encoding.
pub open spec fn encoded_entries(records: Seq<TextEntry>) -> Result<Seq<RawEntry>, Error>
    decreases records.len(),
{
    if records.len() == 0 {
        Ok(Seq::empty())
    } else {
        match encoded_entries(records.drop_last()) {
            Err(e) => Err(e),
            Ok(done) => match stored_bytes(records.last().address, records.last().text) {
                Err(e) => Err(e),
                Ok(bytes) => Ok(done.push(RawEntry { address: records.last().address, bytes })),
            },
        }
    }
}

/// Encodes the text of every record, in order, and stops at the first that
/// has no encoding.
pub fn encode_records(records: &Vec<StringRecord>) -> (r: Result<Vec<RawRecord>, Error>)
    ensures
        match r {
            Ok(v) => encoded_entries(text_entries(records@)) == Ok::<Seq<RawEntry>, Error>(
                raw_entries(v@),
            ),
            Err(e) => encoded_entries(text_entries(records@)) == Err::<Seq<RawEntry>, Error>(e),
        },
{
    let mut out: Vec<RawRecord> = Vec::new();
    let mut i: usize = 0;
    assert(text_entries(records@.subrange(0, 0)) =~= Seq::<TextEntry>::empty());
    assert(raw_entries(out@) =~= Seq::<RawEntry>::empty());
    while i < records.len()
        invariant
            i <= records@.len(),
            encoded_entries(text_entries(records@.subrange(0, i as int))) == Ok::<
                Seq<RawEntry>,
                Error,
            >(raw_entries(out@)),
        decreases records@.len() - i,
    {
        let ghost upto = text_entries(records@.subrange(0, i as int));
        let ghost next = text_entries(records@.subrange(0, i + 1));
        proof {
            assert(next.drop_last() =~= upto);
            assert(next.last() == records@[i as int]@);
        }
        let address = records[i].address;
        match encode_string(address, records[i].text.as_str()) {
            Err(e) => {
                proof {
                    assert(text_entries(records@).subrange(0, i + 1) =~= next);
                    assert(encoded_entries(next) == Err::<Seq<RawEntry>, Error>(e));
                    lemma_encoded_entries_error_stays(text_entries(records@), i + 1);
                }
                return Err(e);
            },
            Ok(bytes) => {
                let rec = RawRecord { address, bytes };
                proof {
                    lemma_raw_entries_push(out@, rec);
                }
                out.push(rec);
            },
        }
        i += 1;
    }
    assert(records@.subrange(0, i as int) =~= records@);
    Ok(out)
}

/// The first `n` records failing to encode means all of them fail, with
/// that error.
proof fn lemma_encoded_entries_error_stays(records: Seq<TextEntry>, n: int)
    requires
        0 <= n <= records.len(),
        encoded_entries(records.subrange(0, n)) is Err,
    ensures
        encoded_entries(records) == encoded_entries(records.subrange(0, n)),
    decreases records.len() - n,
{
    if n < records.len() {
        assert(records.subrange(0, n + 1).drop_last() =~= records.subrange(0, n));
        lemma_encoded_entries_error_stays(records, n + 1);
    } else {
        assert(records.subrange(0, n) =~= records);
    }
}

/// The room that the records need once encoded, or the error of the first
/// record whose text has no encoding.
pub open spec fn spec_required_size(records: Seq<TextEntry>) -> Result<nat, Error> {
    match encoded_entries(records) {
        Err(e) => Err(e),
        Ok(entries) => Ok(total_units(entries)),
    }
}

/// The room in the free region that a patch with these records needs. It
/// writes nothing.
pub fn required_size(records: &Vec<StringRecord>) -> (r: Result<u64, Error>)
    ensures
        match r {
            Ok(n) => spec_required_size(text_entries(records@)) matches Ok(total) && n
                == reported_size(total) && n % 4 == 0,
            Err(e) => spec_required_size(text_entries(records@)) == Err::<nat, Error>(e),
        },
{
    match encode_records(records) {
        Err(e) => Err(e),
        Ok(entries) => Ok(required_size_of(&entries)),
    }
}

} // verus!
