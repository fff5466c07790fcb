//! Round trips: a string that is stored reads back as its text, a patched
//! image extracts as the records it was patched with, and a patch with the
//! sidecar of an extraction leaves what an extraction yields as it was.

use crate::capacity::{
    all_null_free, allocation_unit, encoded_entries, lemma_allocation_unit, stored_bytes,
    total_units,
};
use crate::codec::{bytes_round_trip, decode, lemma_decode_of_encode, round_trips, spec_decode};
use crate::effect::{
    allocated_offset, lemma_allocated_offset, lemma_padded_len, lemma_patch_frame,
    lemma_patch_places, lemma_written_holds, placed,
};
use crate::error::Error;
use crate::extract::{
    extract_outcome, extraction, lemma_extraction_covers_slots, string_at, text_at,
};
use crate::image::{
    cstring_at, le_encoding, lemma_cstring_len_unique, lemma_cstring_null_free,
    lemma_le_encoding_of_value, lemma_written_same, null_free, read_cstring, read_slot,
    slot_pointer_at, written,
};
use crate::layout::{lemma_all_slots_distinct, lemma_slot_in_some_range, AddressTable};
use crate::patch::{
    entry_map, first_duplicate, lemma_entry_map_distinct, lemma_first_missing_none,
    lemma_no_duplicate_distinct, lemma_patch_fits, lemma_patch_slots_cursor, padded,
    patch_records_outcome, patch_slots, patch_strings_outcome, slot_units, stored_at,
};
use crate::record::{RawEntry, TextEntry};
use crate::sidecar::{is_sidecar_safe, lemma_sidecar_round_trip, sidecar_safe};
use vstd::prelude::*;

verus! {

/// A string that is stored, terminated and padded, at `offset` reads back as
/// the bytes it was stored from, if they hold no null byte.
pub proof fn lemma_stored_bytes_read_back(img: Seq<u8>, offset: int, bytes: Seq<u8>)
    requires
        stored_at(img, offset, bytes),
        null_free(bytes),
    ensures
        cstring_at(img, offset) == Some(bytes),
{
    lemma_padded_len(bytes);
    lemma_allocation_unit(bytes.len());
    let stored = padded(bytes);
    assert forall|i: int| offset <= i < offset + bytes.len() implies img[i] != 0 by {
        assert(img.subrange(offset, offset + stored.len())[i - offset] == img[i]);
        assert(stored[i - offset] == bytes[i - offset]);
    }
    assert(img[offset + bytes.len()] == 0) by {
        assert(img.subrange(offset, offset + stored.len())[bytes.len() as int] == img[offset
            + bytes.len()]);
        assert(stored[bytes.len() as int] == 0);
    }
    lemma_cstring_len_unique(img, offset, bytes.len());
    assert(cstring_at(img, offset)->Some_0 =~= bytes);
}

/// A text that is stored reads back as itself: where the image holds, at
/// `offset`, the bytes that are stored for a text, and they hold no null
/// byte, reading the string at `offset` gives that text.
pub proof fn lemma_stored_text_reads_back(img: Seq<u8>, slot: u32, offset: int, text: Seq<char>)
    requires
        stored_bytes(slot, text) is Ok,
        null_free(stored_bytes(slot, text)->Ok_0),
        stored_at(img, offset, stored_bytes(slot, text)->Ok_0),
    ensures
        string_at(img, slot, offset) == Ok::<Seq<char>, Error>(text),
{
    lemma_stored_bytes_read_back(img, offset, stored_bytes(slot, text)->Ok_0);
    lemma_decode_of_encode(text);
}

/// Writing a text at an offset and reading the string at that offset gives
/// the text, if its encoding holds no null byte.
pub proof fn lemma_write_then_read(img: Seq<u8>, slot: u32, offset: int, text: Seq<char>)
    requires
        0 <= offset,
        stored_bytes(slot, text) is Ok,
        null_free(stored_bytes(slot, text)->Ok_0),
    ensures
        string_at(
            written(img, offset, padded(stored_bytes(slot, text)->Ok_0)),
            slot,
            offset,
        ) == Ok::<Seq<char>, Error>(text),
{
    let bytes = stored_bytes(slot, text)->Ok_0;
    lemma_padded_len(bytes);
    lemma_written_holds(img, offset, padded(bytes));
    lemma_stored_text_reads_back(written(img, offset, padded(bytes)), slot, offset, text);
}

/// Encoding keeps the addresses, in order, and gives each record the bytes
/// that are stored for its text.
pub proof fn lemma_encoded_entries(records: Seq<TextEntry>)
    requires
        encoded_entries(records) is Ok,
    ensures
        encoded_entries(records)->Ok_0.len() == records.len(),
        forall|j: int|
            0 <= j < records.len() ==> {
                &&& (#[trigger] encoded_entries(records)->Ok_0[j]).address == records[j].address
                &&& stored_bytes(records[j].address, records[j].text) == Ok::<Seq<u8>, Error>(
                    encoded_entries(records)->Ok_0[j].bytes,
                )
            },
    decreases records.len(),
{
    if records.len() > 0 {
        let head = records.drop_last();
        lemma_encoded_entries(head);
        let done = encoded_entries(head)->Ok_0;
        let all = encoded_entries(records)->Ok_0;
        assert forall|j: int| 0 <= j < records.len() implies {
            &&& (#[trigger] all[j]).address == records[j].address
            &&& stored_bytes(records[j].address, records[j].text) == Ok::<Seq<u8>, Error>(
                all[j].bytes,
            )
        } by {
            if j < head.len() {
                assert(all[j] == done[j]);
                assert(head[j] == records[j]);
            }
        }
    }
}

/// A slot that is in place reads back as the text that was stored for it,
/// if its string holds no null byte.
proof fn lemma_slot_reads_back(
    table: AddressTable,
    img: Seq<u8>,
    texts: Map<u32, Seq<u8>>,
    k: int,
    text: Seq<char>,
)
    requires
        table.wf(),
        0 <= k < table.slots().len(),
        slot_units(table.slots(), texts) <= table.free.capacity(),
        placed(table, img, texts, k),
        table.slots()[k] - table.diff + 8 <= img.len(),
        stored_bytes(table.slots()[k], text) == Ok::<Seq<u8>, Error>(texts[table.slots()[k]]),
        null_free(texts[table.slots()[k]]),
    ensures
        text_at(table.diff, img, table.slots()[k]) == Ok::<Seq<char>, Error>(text),
{
    lemma_allocated_offset(table, texts, k);
    lemma_stored_text_reads_back(
        img,
        table.slots()[k],
        allocated_offset(table, texts, k),
        text,
    );
}

/// Extraction of the first `m` slots gives the records whose texts the
/// slots read as.
proof fn lemma_reads_back_prefix(table: AddressTable, img: Seq<u8>, got: Seq<TextEntry>, m: int)
    requires
        0 <= m <= table.slots().len(),
        got.len() == table.slots().len(),
        forall|k: int|
            0 <= k < got.len() ==> (#[trigger] got[k]).address == table.slots()[k] && text_at(
                table.diff,
                img,
                table.slots()[k],
            ) == Ok::<Seq<char>, Error>(got[k].text),
    ensures
        extraction(table.diff, img, table.slots().subrange(0, m)) == Ok::<Seq<TextEntry>, Error>(
            got.subrange(0, m),
        ),
    decreases m,
{
    let slots = table.slots();
    if m == 0 {
        assert(got.subrange(0, 0) =~= Seq::<TextEntry>::empty());
    } else {
        let k = m - 1;
        lemma_reads_back_prefix(table, img, got, k);
        assert(slots.subrange(0, m).drop_last() =~= slots.subrange(0, k));
        assert(slots.subrange(0, m).last() == slots[k]);
        assert(got[k].address == slots[k]);
        assert(got.subrange(0, k).push(got[k]) =~= got.subrange(0, m));
    }
}

/// The record that the slot at `address` was patched with.
pub open spec fn record_for(records: Seq<TextEntry>, address: u32) -> TextEntry {
    records[choose|j: int| 0 <= j < records.len() && (#[trigger] records[j]).address == address]
}

/// Patching an image and then extracting it gives back, slot by slot, the
/// records that were patched in, wherever the patch succeeds, every slot
/// lies within the image and no encoded text holds a null byte.
pub proof fn lemma_patch_then_extract(table: AddressTable, img: Seq<u8>, records: Seq<TextEntry>)
    requires
        table.wf(),
        forall|k: int|
            0 <= k < table.slots().len() ==> (#[trigger] table.slots()[k]) - table.diff + 8
                <= img.len(),
        patch_records_outcome(table, img, records) is Ok,
        all_null_free(encoded_entries(records)->Ok_0),
    ensures
        extraction(table.diff, patch_records_outcome(table, img, records)->Ok_0.0, table.slots())
            == Ok::<Seq<TextEntry>, Error>(
            Seq::new(table.slots().len(), |k: int| record_for(records, table.slots()[k])),
        ),
        forall|k: int|
            0 <= k < table.slots().len() ==> (#[trigger] record_for(
                records,
                table.slots()[k],
            )).address == table.slots()[k],
{
    let slots = table.slots();
    let n = slots.len() as int;
    let raws = encoded_entries(records)->Ok_0;
    let texts = entry_map(raws);
    let out = patch_records_outcome(table, img, records)->Ok_0.0;
    let got = Seq::new(slots.len(), |k: int| record_for(records, slots[k]));
    lemma_encoded_entries(records);
    lemma_no_duplicate_distinct(raws);
    lemma_entry_map_distinct(raws);
    lemma_first_missing_none(slots, texts.dom());
    lemma_patch_slots_cursor(img, table.free_offset(), table.diff as int, slots, texts);
    lemma_patch_fits(table, raws);
    lemma_patch_places(table, img, texts, n);
    lemma_patch_frame(img, table.free_offset(), table.diff as int, slots, texts);
    assert(slots.subrange(0, n) =~= slots);
    assert forall|k: int| 0 <= k < got.len() implies (#[trigger] got[k]).address == slots[k]
        && text_at(table.diff, out, slots[k]) == Ok::<Seq<char>, Error>(got[k].text) by {
        assert(texts.dom().contains(slots[k]));
        let i = choose|i: int| 0 <= i < raws.len() && (#[trigger] raws[i]).address == slots[k];
        assert(records[i].address == slots[k]);
        let j = choose|j: int| 0 <= j < records.len() && (#[trigger] records[j]).address == slots[k];
        assert(raws[j].address == slots[k]);
        assert(i == j);
        assert(texts[slots[k]] == raws[j].bytes);
        assert(null_free(raws[j].bytes));
        assert(placed(table, out, texts, k));
        lemma_slot_reads_back(table, out, texts, k, records[j].text);
    }
    lemma_reads_back_prefix(table, out, got, n);
    assert(got.subrange(0, n) =~= got);
}

/// Extracting an image, patching it with the sidecar as it was written, and
/// extracting again gives the same records, wherever the patch succeeds,
/// every text is one that the sidecar gives back as it was, and no text is
/// encoded with a null byte.
pub proof fn lemma_patch_keeps_extraction(table: AddressTable, img: Seq<u8>)
    requires
        table.wf(),
        extract_outcome(table, img) is Ok,
        forall|k: int|
            0 <= k < table.slots().len() ==> sidecar_safe(
                (#[trigger] extraction(table.diff, img, table.slots())->Ok_0[k]).text,
            ),
        patch_strings_outcome(table, img, extract_outcome(table, img)->Ok_0.0) is Ok,
        all_null_free(encoded_entries(extraction(table.diff, img, table.slots())->Ok_0)->Ok_0),
    ensures
        extraction(
            table.diff,
            patch_strings_outcome(table, img, extract_outcome(table, img)->Ok_0.0)->Ok_0.0,
            table.slots(),
        ) == extraction(table.diff, img, table.slots()),
{
    let slots = table.slots();
    let records = extraction(table.diff, img, slots)->Ok_0;
    lemma_extraction_covers_slots(table.diff, img, slots);
    lemma_sidecar_round_trip(records);
    assert forall|k: int| 0 <= k < slots.len() implies (#[trigger] slots[k]) - table.diff + 8
        <= img.len() by {
        assert(records[k].address == slots[k]);
        assert(text_at(table.diff, img, slots[k]) is Ok);
    }
    lemma_patch_then_extract(table, img, records);
    lemma_all_slots_distinct(table.ranges@);
    let got = Seq::new(slots.len(), |k: int| record_for(records, slots[k]));
    assert forall|k: int| 0 <= k < slots.len() implies got[k] == records[k] by {
        assert(records[k].address == slots[k]);
        let j = choose|j: int| 0 <= j < records.len() && (#[trigger] records[j]).address == slots[k];
        assert(records[j].address == slots[j]);
        assert(j == k);
    }
    assert(got =~= records);
}

/// The bytes of the string that the slot at `slot` points to; none where
/// the slot or the string cannot be read.
pub open spec fn raw_at(diff: u32, img: Seq<u8>, slot: u32) -> Seq<u8> {
    match slot_pointer_at(img, slot - diff) {
        Some(pointer) => match cstring_at(img, pointer - diff) {
            Some(bytes) => bytes,
            None => Seq::empty(),
        },
        None => Seq::empty(),
    }
}

/// The strings of the slots as the image holds them.
pub open spec fn raw_strings(diff: u32, img: Seq<u8>, slots: Seq<u32>) -> Seq<RawEntry> {
    Seq::new(slots.len(), |k: int| RawEntry { address: slots[k], bytes: raw_at(diff, img, slots[k]) })
}

/// The texts of the slots as the image holds them.
pub open spec fn decoded_strings(diff: u32, img: Seq<u8>, slots: Seq<u32>) -> Seq<TextEntry> {
    Seq::new(
        slots.len(),
        |k: int|
            TextEntry { address: slots[k], text: spec_decode(raw_at(diff, img, slots[k]))->Ok_0 },
    )
}

/// The image holds its strings where a patch puts them: they fit in the
/// free region, and the string of each slot is stored, terminated and
/// padded, right after those of the slots before it, with the slot's pointer
/// leading there.
#[verifier::opaque]
pub open spec fn packed(table: AddressTable, img: Seq<u8>) -> bool {
    let slots = table.slots();
    let raws = raw_strings(table.diff, img, slots);
    &&& total_units(raws) <= table.free.capacity()
    &&& forall|k: int|
        0 <= k < slots.len() ==> {
            &&& slot_pointer_at(img, #[trigger] slots[k] - table.diff) == Some(
                (table.free.start + total_units(raws.subrange(0, k))) as u32,
            )
            &&& stored_at(img, table.free_offset() + total_units(raws.subrange(0, k)), raws[k].bytes)
        }
}

/// Every string of the image survives the trip through text and through
/// the sidecar: decoding it and encoding the text gives the same bytes, and
/// the text is one that the sidecar gives back as it was.
pub open spec fn faithful(table: AddressTable, img: Seq<u8>) -> bool {
    forall|k: int|
        0 <= k < table.slots().len() ==> {
            &&& bytes_round_trip(raw_at(table.diff, img, #[trigger] table.slots()[k]))
            &&& sidecar_safe(spec_decode(raw_at(table.diff, img, table.slots()[k]))->Ok_0)
        }
}

/// The bytes of the string that the slot at `slot` points to.
pub fn raw_string(diff: u32, image: &[u8], slot: u32) -> (r: Vec<u8>)
    requires
        diff <= slot,
    ensures
        r@ == raw_at(diff, image@, slot),
{
    match read_slot(image, (slot - diff) as usize) {
        None => Vec::new(),
        Some(pointer) => {
            if pointer < diff {
                return Vec::new();
            }
            match read_cstring(image, (pointer - diff) as usize) {
                None => Vec::new(),
                Some(bytes) => bytes,
            }
        },
    }
}

/// Whether every string of the image survives the trip through text and
/// through the sidecar.
pub fn is_faithful(table: &AddressTable, image: &[u8]) -> (r: bool)
    requires
        table.wf(),
    ensures
        r == faithful(*table, image@),
{
    let slots = table.slot_addresses();
    let mut k: usize = 0;
    while k < slots.len()
        invariant
            table.wf(),
            slots@ == table.slots(),
            k <= slots@.len(),
            forall|j: int|
                0 <= j < k ==> {
                    &&& bytes_round_trip(raw_at(table.diff, image@, #[trigger] table.slots()[j]))
                    &&& sidecar_safe(spec_decode(raw_at(table.diff, image@, table.slots()[j]))->Ok_0)
                },
        decreases slots@.len() - k,
    {
        proof {
            lemma_slot_in_some_range(table.ranges@, k as int);
        }
        let bytes = raw_string(table.diff, image, slots[k]);
        if !round_trips(bytes.as_slice()) {
            assert(!bytes_round_trip(raw_at(table.diff, image@, table.slots()[k as int])));
            return false;
        }
        match decode(bytes.as_slice()) {
            Err(_) => {
                assert(false);
                return false;
            },
            Ok(text) => {
                if !is_sidecar_safe(text.as_str()) {
                    assert(!sidecar_safe(
                        spec_decode(raw_at(table.diff, image@, table.slots()[k as int]))->Ok_0,
                    ));
                    return false;
                }
            },
        }
        k += 1;
    }
    true
}

/// The string that a slot points to holds no null byte.
proof fn lemma_raw_at_null_free(diff: u32, img: Seq<u8>, slot: u32)
    ensures
        null_free(raw_at(diff, img, slot)),
{
    if let Some(pointer) = slot_pointer_at(img, slot - diff) {
        if cstring_at(img, pointer - diff) is Some {
            lemma_cstring_null_free(img, pointer - diff);
        }
    }
}

/// The first `m` strings take no more room than all of them, and one more
/// string adds its allocation unit.
proof fn lemma_total_units_prefix(entries: Seq<RawEntry>, m: int)
    requires
        0 <= m <= entries.len(),
    ensures
        total_units(entries.subrange(0, m)) <= total_units(entries),
        m < entries.len() ==> total_units(entries.subrange(0, m + 1)) == total_units(
            entries.subrange(0, m),
        ) + allocation_unit(entries[m].bytes.len()),
    decreases entries.len() - m,
{
    if m < entries.len() {
        assert(entries.subrange(0, m + 1).drop_last() =~= entries.subrange(0, m));
        assert(entries.subrange(0, m + 1).last() == entries[m]);
        lemma_total_units_prefix(entries, m + 1);
    } else {
        assert(entries.subrange(0, m) =~= entries);
    }
}

/// What `packed` says of slot number `k`: its string lies at `at`, right
/// after those of the slots before it, and its pointer leads there.
proof fn lemma_packed_slot(table: AddressTable, img: Seq<u8>, k: int) -> (at: int)
    requires
        table.wf(),
        packed(table, img),
        0 <= k < table.slots().len(),
    ensures
        at == table.free_offset() + total_units(
            raw_strings(table.diff, img, table.slots()).subrange(0, k),
        ),
        0 <= at,
        at + table.diff + allocation_unit(raw_at(table.diff, img, table.slots()[k]).len())
            <= table.free.end,
        slot_pointer_at(img, table.slots()[k] - table.diff) == Some((at + table.diff) as u32),
        stored_at(img, at, raw_at(table.diff, img, table.slots()[k])),
        cstring_at(img, at) == Some(raw_at(table.diff, img, table.slots()[k])),
        total_units(raw_strings(table.diff, img, table.slots())) <= table.free.capacity(),
{
    reveal(packed);
    let slots = table.slots();
    let raws = raw_strings(table.diff, img, slots);
    lemma_total_units_prefix(raws, k);
    lemma_total_units_prefix(raws, k + 1);
    assert(slots[k] == slots[k]);
    let at = table.free_offset() + total_units(raws.subrange(0, k));
    lemma_raw_at_null_free(table.diff, img, slots[k]);
    lemma_stored_bytes_read_back(img, at, raw_at(table.diff, img, slots[k]));
    at
}

/// The mapping made of the image's own strings has, for slot number `k`,
/// the string of that slot.
proof fn lemma_own_string(table: AddressTable, img: Seq<u8>, k: int)
    requires
        table.wf(),
        0 <= k < table.slots().len(),
    ensures
        entry_map(raw_strings(table.diff, img, table.slots())).dom().contains(table.slots()[k]),
        entry_map(raw_strings(table.diff, img, table.slots()))[table.slots()[k]] == raw_at(
            table.diff,
            img,
            table.slots()[k],
        ),
        first_duplicate(raw_strings(table.diff, img, table.slots())) is None,
{
    let raws = raw_strings(table.diff, img, table.slots());
    lemma_all_slots_distinct(table.ranges@);
    lemma_entry_map_distinct(raws);
    assert(raws[k].address == table.slots()[k]);
}

/// Extraction of the first `m` slots of a packed, faithful image gives
/// their texts.
proof fn lemma_extraction_prefix(table: AddressTable, img: Seq<u8>, m: int)
    requires
        table.wf(),
        packed(table, img),
        faithful(table, img),
        0 <= m <= table.slots().len(),
    ensures
        extraction(table.diff, img, table.slots().subrange(0, m)) == Ok::<Seq<TextEntry>, Error>(
            decoded_strings(table.diff, img, table.slots()).subrange(0, m),
        ),
    decreases m,
{
    let slots = table.slots();
    let texts = decoded_strings(table.diff, img, slots);
    if m == 0 {
        assert(texts.subrange(0, 0) =~= Seq::<TextEntry>::empty());
    } else {
        let k = m - 1;
        lemma_extraction_prefix(table, img, k);
        let upto = slots.subrange(0, m);
        assert(upto.drop_last() =~= slots.subrange(0, k));
        assert(upto.last() == slots[k]);
        let at = lemma_packed_slot(table, img, k);
        assert(bytes_round_trip(raw_at(table.diff, img, slots[k])));
        assert(text_at(table.diff, img, slots[k]) == Ok::<Seq<char>, Error>(texts[k].text));
        assert(texts.subrange(0, k).push(texts[k]) =~= texts.subrange(0, m));
    }
}

/// Encoding the texts of the first `m` slots of a faithful image gives
/// their strings back.
proof fn lemma_encoded_prefix(table: AddressTable, img: Seq<u8>, m: int)
    requires
        faithful(table, img),
        0 <= m <= table.slots().len(),
    ensures
        encoded_entries(decoded_strings(table.diff, img, table.slots()).subrange(0, m)) == Ok::<
            Seq<RawEntry>,
            Error,
        >(raw_strings(table.diff, img, table.slots()).subrange(0, m)),
    decreases m,
{
    let slots = table.slots();
    let texts = decoded_strings(table.diff, img, slots);
    let raws = raw_strings(table.diff, img, slots);
    if m == 0 {
        assert(texts.subrange(0, 0) =~= Seq::<TextEntry>::empty());
        assert(raws.subrange(0, 0) =~= Seq::<RawEntry>::empty());
    } else {
        let k = m - 1;
        lemma_encoded_prefix(table, img, k);
        assert(texts.subrange(0, m).drop_last() =~= texts.subrange(0, k));
        assert(texts.subrange(0, m).last() == texts[k]);
        assert(bytes_round_trip(raw_at(table.diff, img, slots[k])));
        assert(stored_bytes(texts[k].address, texts[k].text) == Ok::<Seq<u8>, Error>(
            raws[k].bytes,
        ));
        assert(raws.subrange(0, k).push(raws[k]) =~= raws.subrange(0, m));
    }
}

/// Storing a string where the image already holds it, and overwriting a
/// pointer with the value it already has, changes nothing.
proof fn lemma_patch_step_same(img: Seq<u8>, at: int, diff: int, slot: int, bytes: Seq<u8>)
    requires
        stored_at(img, at, bytes),
        0 <= at + diff <= u32::MAX,
        slot_pointer_at(img, slot - diff) == Some((at + diff) as u32),
    ensures
        written(written(img, at, padded(bytes)), slot - diff, le_encoding((at + diff) as u32))
            == img,
{
    lemma_written_same(img, at, padded(bytes));
    let field = img.subrange(slot - diff, slot - diff + 4);
    lemma_le_encoding_of_value(field);
    lemma_written_same(img, slot - diff, field);
}

/// Patching the first `m` slots of a packed image with its own strings
/// leaves the image as it is.
proof fn lemma_patch_slots_prefix(table: AddressTable, img: Seq<u8>, m: int)
    requires
        table.wf(),
        packed(table, img),
        0 <= m <= table.slots().len(),
    ensures
        patch_slots(
            img,
            table.free_offset(),
            table.diff as int,
            table.slots().subrange(0, m),
            entry_map(raw_strings(table.diff, img, table.slots())),
        ) == (
            img,
            table.free_offset() + total_units(
                raw_strings(table.diff, img, table.slots()).subrange(0, m),
            ),
        ),
    decreases m,
{
    let slots = table.slots();
    let raws = raw_strings(table.diff, img, slots);
    let texts = entry_map(raws);
    if m == 0 {
        assert(raws.subrange(0, 0) =~= Seq::<RawEntry>::empty());
    } else {
        let k = m - 1;
        lemma_patch_slots_prefix(table, img, k);
        let upto = slots.subrange(0, m);
        assert(upto.drop_last() =~= slots.subrange(0, k));
        assert(upto.last() == slots[k]);
        lemma_total_units_prefix(raws, k);
        lemma_own_string(table, img, k);
        let at = lemma_packed_slot(table, img, k);
        lemma_patch_step_same(img, at, table.diff as int, slots[k] as int, texts[slots[k]]);
    }
}

/// Extracting the sidecar of an image and patching the image with that
/// sidecar, unmodified, leaves the image byte for byte as it was, and the
/// cursor ends right after the last string. This holds of an image that
/// holds its strings where a patch puts them, each of them surviving the
/// trip through text and through the sidecar.
pub proof fn lemma_extract_then_patch_is_identity(table: AddressTable, img: Seq<u8>)
    requires
        table.wf(),
        packed(table, img),
        faithful(table, img),
    ensures
        extract_outcome(table, img) is Ok,
        extract_outcome(table, img)->Ok_0.1 == table.slots().len(),
        patch_strings_outcome(table, img, extract_outcome(table, img)->Ok_0.0) == Ok::<
            (Seq<u8>, u32),
            Error,
        >(
            (
                img,
                (table.free.start + total_units(raw_strings(table.diff, img, table.slots()))) as u32,
            ),
        ),
{
    let slots = table.slots();
    let n = slots.len() as int;
    let texts = decoded_strings(table.diff, img, slots);
    let raws = raw_strings(table.diff, img, slots);
    lemma_extraction_prefix(table, img, n);
    assert(slots.subrange(0, n) =~= slots);
    assert(texts.subrange(0, n) =~= texts);
    assert(extraction(table.diff, img, slots) == Ok::<Seq<TextEntry>, Error>(texts));
    assert forall|k: int| 0 <= k < texts.len() implies sidecar_safe((#[trigger] texts[k]).text) by {
        assert(sidecar_safe(spec_decode(raw_at(table.diff, img, slots[k]))->Ok_0));
    }
    lemma_sidecar_round_trip(texts);
    lemma_encoded_prefix(table, img, n);
    assert(raws.subrange(0, n) =~= raws);
    assert(encoded_entries(texts) == Ok::<Seq<RawEntry>, Error>(raws));
    assert forall|k: int| 0 <= k < slots.len() implies entry_map(raws).dom().contains(
        #[trigger] slots[k],
    ) by {
        lemma_own_string(table, img, k);
    }
    lemma_first_missing_none(slots, entry_map(raws).dom());
    if n > 0 {
        lemma_own_string(table, img, 0);
        let at = lemma_packed_slot(table, img, 0);
    } else {
        assert(raws =~= Seq::<RawEntry>::empty());
    }
    lemma_patch_slots_prefix(table, img, n);
}

} // verus!
