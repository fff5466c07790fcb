//! The extraction engine: for every slot, in canonical order, the pointer is
//! read, the string it leads to is read up to its null terminator, and the
//! string is decoded.

use crate::codec::{decode, spec_decode};
use crate::error::Error;
use crate::image::{cstring_at, read_cstring, read_slot, slot_pointer_at};
use crate::layout::{lemma_slot_in_some_range, AddressTable};
use crate::record::{lemma_text_entries_push, text_entries, StringRecord, TextEntry};
use crate::sidecar::{serialize, sidecar_text};
use vstd::prelude::*;

verus! {

/// The text of the string that starts at `offset`, read for the slot at
/// `slot`: a null byte must end the string within the image, and its bytes
/// must be valid in the legacy encoding.
pub open spec fn string_at(img: Seq<u8>, slot: u32, offset: int) -> Result<Seq<char>, Error> {
    match cstring_at(img, offset) {
        None => Err(Error::Unterminated { address: slot }),
        Some(bytes) => match spec_decode(bytes) {
            Err(cause) => Err(Error::Encoding { address: slot, cause }),
            Ok(text) => Ok(text),
        },
    }
}

/// The text of the slot at `slot`: the slot must lie within the image and
/// its pointer at or above `diff`; the string at the pointer's offset must
/// end within the image and be valid in the legacy encoding.
pub open spec fn text_at(diff: u32, img: Seq<u8>, slot: u32) -> Result<Seq<char>, Error> {
    match slot_pointer_at(img, slot - diff) {
        None => Err(Error::Truncated { address: slot }),
        Some(pointer) => if pointer < diff {
            Err(Error::BadPointer { address: slot, pointer })
        } else {
            string_at(img, slot, pointer - diff)
        },
    }
}

/// The records of the slots, in their order, or the error of the first slot
/// that has none.
pub open spec fn extraction(diff: u32, img: Seq<u8>, slots: Seq<u32>) -> Result<
    Seq<TextEntry>,
    Error,
>
    decreases slots.len(),
{
    if slots.len() == 0 {
        Ok(Seq::empty())
    } else {
        match extraction(diff, img, slots.drop_last()) {
            Err(e) => Err(e),
            Ok(done) => match text_at(diff, img, slots.last()) {
                Err(e) => Err(e),
                Ok(text) => Ok(done.push(TextEntry { address: slots.last(), text })),
            },
        }
    }
}

/// An extraction yields one record for each slot, with the slot's address.
pub proof fn lemma_extraction_covers_slots(diff: u32, img: Seq<u8>, slots: Seq<u32>)
    requires
        extraction(diff, img, slots) is Ok,
    ensures
        extraction(diff, img, slots)->Ok_0.len() == slots.len(),
        forall|k: int|
            0 <= k < slots.len() ==> {
                &&& (#[trigger] extraction(diff, img, slots)->Ok_0[k]).address == slots[k]
                &&& text_at(diff, img, slots[k]) == Ok::<Seq<char>, Error>(
                    extraction(diff, img, slots)->Ok_0[k].text,
                )
            },
    decreases slots.len(),
{
    if slots.len() > 0 {
        lemma_extraction_covers_slots(diff, img, slots.drop_last());
        let done = extraction(diff, img, slots.drop_last())->Ok_0;
        let all = extraction(diff, img, slots)->Ok_0;
        assert forall|k: int| 0 <= k < slots.len() implies {
            &&& (#[trigger] all[k]).address == slots[k]
            &&& text_at(diff, img, slots[k]) == Ok::<Seq<char>, Error>(all[k].text)
        } by {
            if k < slots.len() - 1 {
                assert(all[k] == done[k]);
                assert(slots.drop_last()[k] == slots[k]);
            }
        }
    }
}

/// The first `n` slots failing means the whole extraction fails, with that
/// error.
proof fn lemma_extraction_error_stays(diff: u32, img: Seq<u8>, slots: Seq<u32>, n: int)
    requires
        0 <= n <= slots.len(),
        extraction(diff, img, slots.subrange(0, n)) is Err,
    ensures
        extraction(diff, img, slots) == extraction(diff, img, slots.subrange(0, n)),
    decreases slots.len() - n,
{
    if n < slots.len() {
        assert(slots.subrange(0, n + 1).drop_last() =~= slots.subrange(0, n));
        lemma_extraction_error_stays(diff, img, slots, n + 1);
    } else {
        assert(slots.subrange(0, n) =~= slots);
    }
}

/// Reads and decodes the string of the slot at `slot`, which starts at
/// `offset`. The image is only read.
pub fn read_string(image: &[u8], slot: u32, offset: usize) -> (r: Result<String, Error>)
    ensures
        match r {
            Ok(text) => string_at(image@, slot, offset as int) == Ok::<Seq<char>, Error>(text@),
            Err(e) => string_at(image@, slot, offset as int) == Err::<Seq<char>, Error>(e),
        },
{
    match read_cstring(image, offset) {
        None => Err(Error::Unterminated { address: slot }),
        Some(bytes) => match decode(bytes.as_slice()) {
            Err(cause) => Err(Error::Encoding { address: slot, cause }),
            Ok(text) => Ok(text),
        },
    }
}

/// Reads the text of one slot.
pub fn read_slot_text(diff: u32, image: &[u8], slot: u32) -> (r: Result<String, Error>)
    requires
        diff <= slot,
    ensures
        match r {
            Ok(text) => text_at(diff, image@, slot) == Ok::<Seq<char>, Error>(text@),
            Err(e) => text_at(diff, image@, slot) == Err::<Seq<char>, Error>(e),
        },
{
    match read_slot(image, (slot - diff) as usize) {
        None => Err(Error::Truncated { address: slot }),
        Some(pointer) => {
            if pointer < diff {
                return Err(Error::BadPointer { address: slot, pointer });
            }
            read_string(image, slot, (pointer - diff) as usize)
        },
    }
}

/// Extracts one record for every slot of the table, in canonical order. It
/// stops at the first slot that cannot be read.
pub fn extract_records(table: &AddressTable, image: &[u8]) -> (r: Result<Vec<StringRecord>, Error>)
    requires
        table.wf(),
    ensures
        match r {
            Ok(v) => extraction(table.diff, image@, table.slots()) == Ok::<Seq<TextEntry>, Error>(
                text_entries(v@),
            ) && v@.len() == table.slots().len(),
            Err(e) => extraction(table.diff, image@, table.slots()) == Err::<
                Seq<TextEntry>,
                Error,
            >(e),
        },
{
    let slots = table.slot_addresses();
    let mut out: Vec<StringRecord> = Vec::new();
    let mut k: usize = 0;
    assert(text_entries(out@) =~= Seq::<TextEntry>::empty());
    while k < slots.len()
        invariant
            table.wf(),
            slots@ == table.slots(),
            k <= slots@.len(),
            out@.len() == k,
            extraction(table.diff, image@, slots@.subrange(0, k as int)) == Ok::<
                Seq<TextEntry>,
                Error,
            >(text_entries(out@)),
        decreases slots@.len() - k,
    {
        let slot = slots[k];
        proof {
            assert(slots@.subrange(0, k + 1).drop_last() =~= slots@.subrange(0, k as int));
            assert(slots@.subrange(0, k + 1).last() == slot);
            lemma_slot_in_some_range(table.ranges@, k as int);
        }
        match read_slot_text(table.diff, image, slot) {
            Err(e) => {
                proof {
                    lemma_extraction_error_stays(table.diff, image@, slots@, k + 1);
                }
                return Err(e);
            },
            Ok(text) => {
                let rec = StringRecord { address: slot, text };
                proof {
                    lemma_text_entries_push(out@, rec);
                }
                out.push(rec);
            },
        }
        k += 1;
    }
    assert(slots@.subrange(0, k as int) =~= slots@);
    Ok(out)
}

/// The sidecar of an image and the number of its lines, or the error of the
/// first slot that cannot be read.
pub open spec fn extract_outcome(table: AddressTable, img: Seq<u8>) -> Result<
    (Seq<char>, nat),
    Error,
> {
    match extraction(table.diff, img, table.slots()) {
        Err(e) => Err(e),
        Ok(entries) => Ok((sidecar_text(entries), entries.len())),
    }
}

/// A table without slots gives an empty sidecar, of no line, whatever the
/// image holds.
pub proof fn lemma_no_slot_no_line(table: AddressTable, img: Seq<u8>)
    requires
        table.slots().len() == 0,
    ensures
        extract_outcome(table, img) == Ok::<(Seq<char>, nat), Error>((Seq::empty(), 0)),
{
}

/// Extracts the sidecar of an image: one line for every slot, in canonical
/// order, and the number of lines written.
pub fn extract(table: &AddressTable, image: &[u8]) -> (r: Result<(String, usize), Error>)
    requires
        table.wf(),
    ensures
        match r {
            Ok((text, lines)) => extract_outcome(*table, image@) == Ok::<(Seq<char>, nat), Error>(
                (text@, lines as nat),
            ) && lines == table.slots().len(),
            Err(e) => extract_outcome(*table, image@) == Err::<(Seq<char>, nat), Error>(e),
        },
{
    match extract_records(table, image) {
        Err(e) => Err(e),
        Ok(records) => {
            let text = serialize(&records);
            Ok((text, records.len()))
        },
    }
}

} // verus!
