//! What a patch leaves behind: where each string and each pointer ends up,
//! and which bytes of the image stay as they were.

use crate::capacity::{allocation_unit, lemma_allocation_unit, total_units};
use crate::error::Error;
use crate::image::{le_encoding, lemma_le_value_of_encoding, pointer_at, written};
use crate::layout::{
    is_slot_of, lemma_all_slots_apart, lemma_all_slots_distinct, lemma_slot_clear_of_free,
    lemma_slot_in_some_range, lemma_slot_membership, AddressTable,
};
use crate::patch::{
    entry_map, first_missing, lemma_first_missing_none, lemma_patch_fits,
    lemma_patch_slots_cursor, lemma_slot_units_exact, padded, patch_outcome, patch_slots,
    slot_units, stored_at,
};
use crate::record::RawEntry;
use vstd::prelude::*;

verus! {

/// Offset at which the string of slot number `k` is stored: the start of
/// the free region plus the allocation units of the slots before it.
pub open spec fn allocated_offset(table: AddressTable, texts: Map<u32, Seq<u8>>, k: int) -> int {
    table.free_offset() + slot_units(table.slots().subrange(0, k), texts)
}

/// Slot number `k` is in place: its string is stored at its allocated
/// offset, terminated and padded, and its pointer field holds the virtual
/// address of that offset.
pub open spec fn placed(table: AddressTable, img: Seq<u8>, texts: Map<u32, Seq<u8>>, k: int) -> bool {
    &&& stored_at(img, allocated_offset(table, texts, k), texts[table.slots()[k]])
    &&& pointer_at(img, table.slots()[k] - table.diff) == Some(
        (allocated_offset(table, texts, k) + table.diff) as u32,
    )
}

/// Offset `i` lies in the pointer field of one of the first `m` slots.
pub open spec fn in_pointer_field(slots: Seq<u32>, diff: int, m: int, i: int) -> bool {
    exists|k: int| 0 <= k < m && (#[trigger] slots[k]) - diff <= i < slots[k] - diff + 4
}

/// A write changes no byte outside the place written to, and never
/// shortens the image.
pub proof fn lemma_written_keeps(img: Seq<u8>, at: int, data: Seq<u8>, lo: int, hi: int)
    requires
        0 <= lo <= hi <= img.len(),
        hi <= at || at + data.len() <= lo,
    ensures
        img.len() <= written(img, at, data).len(),
        written(img, at, data).subrange(lo, hi) == img.subrange(lo, hi),
{
    assert(written(img, at, data).subrange(lo, hi) =~= img.subrange(lo, hi));
}

/// After a write the image holds what was written, at the place written to.
pub proof fn lemma_written_holds(img: Seq<u8>, at: int, data: Seq<u8>)
    requires
        0 <= at,
        data.len() > 0,
    ensures
        at + data.len() <= written(img, at, data).len(),
        img.len() <= written(img, at, data).len(),
        written(img, at, data).subrange(at, at + data.len()) == data,
{
    assert(written(img, at, data).subrange(at, at + data.len()) =~= data);
}

/// A stored string has the length of its allocation unit.
pub proof fn lemma_padded_len(bytes: Seq<u8>)
    ensures
        padded(bytes).len() == allocation_unit(bytes.len()),
        padded(bytes).len() >= 4,
{
    lemma_allocation_unit(bytes.len());
}

/// The allocated offsets go up by the allocation unit of each slot, and stay
/// within the room that all the slots take.
pub proof fn lemma_allocated_offset(table: AddressTable, texts: Map<u32, Seq<u8>>, k: int)
    requires
        0 <= k <= table.slots().len(),
    ensures
        table.free_offset() <= allocated_offset(table, texts, k) <= table.free_offset()
            + slot_units(table.slots(), texts),
        k < table.slots().len() ==> allocated_offset(table, texts, k + 1) == allocated_offset(
            table,
            texts,
            k,
        ) + allocation_unit(texts[table.slots()[k]].len()),
    decreases table.slots().len() - k,
{
    let slots = table.slots();
    if k < slots.len() {
        assert(slots.subrange(0, k + 1).drop_last() =~= slots.subrange(0, k));
        assert(slots.subrange(0, k + 1).last() == slots[k]);
        lemma_allocated_offset(table, texts, k + 1);
    } else {
        assert(slots.subrange(0, k) =~= slots);
    }
}

/// The offsets of two slots before `m` are in order.
proof fn lemma_allocated_offset_ordered(
    table: AddressTable,
    texts: Map<u32, Seq<u8>>,
    k: int,
    m: int,
)
    requires
        0 <= k < m <= table.slots().len(),
    ensures
        allocated_offset(table, texts, k) + allocation_unit(texts[table.slots()[k]].len())
            <= allocated_offset(table, texts, m),
    decreases m - k,
{
    lemma_allocated_offset(table, texts, k);
    if k + 1 < m {
        lemma_allocated_offset_ordered(table, texts, k + 1, m);
        lemma_allocated_offset(table, texts, k + 1);
    }
}

/// A slot that is in place stays in place when another slot, further on in
/// the traversal, is patched.
proof fn lemma_placed_stays(
    table: AddressTable,
    before: Seq<u8>,
    texts: Map<u32, Seq<u8>>,
    k: int,
    m: int,
)
    requires
        table.wf(),
        0 <= k < m < table.slots().len(),
        slot_units(table.slots(), texts) <= table.free.capacity(),
        placed(table, before, texts, k),
    ensures
        placed(
            table,
            written(
                written(
                    before,
                    allocated_offset(table, texts, m),
                    padded(texts[table.slots()[m]]),
                ),
                table.slots()[m] - table.diff,
                le_encoding((allocated_offset(table, texts, m) + table.diff) as u32),
            ),
            texts,
            k,
        ),
{
    let slots = table.slots();
    let at_k = allocated_offset(table, texts, k);
    let at_m = allocated_offset(table, texts, m);
    let string = padded(texts[slots[m]]);
    let field = le_encoding((at_m + table.diff) as u32);
    let f_k = slots[k] - table.diff;
    let f_m = slots[m] - table.diff;
    let stored = written(before, at_m, string);
    lemma_padded_len(texts[slots[k]]);
    lemma_padded_len(texts[slots[m]]);
    lemma_allocated_offset(table, texts, m);
    lemma_allocated_offset(table, texts, m + 1);
    lemma_allocated_offset_ordered(table, texts, k, m);
    lemma_slot_clear_of_free(table, k);
    lemma_slot_clear_of_free(table, m);
    lemma_all_slots_apart(table.ranges@);
    assert(slots[k] + 8 <= slots[m] || slots[m] + 8 <= slots[k]);
    let unit_k = padded(texts[slots[k]]).len() as int;
    // the string of slot k
    lemma_written_keeps(before, at_m, string, at_k, at_k + unit_k);
    lemma_written_keeps(stored, f_m, field, at_k, at_k + unit_k);
    // the pointer of slot k
    lemma_written_keeps(before, at_m, string, f_k, f_k + 4);
    lemma_written_keeps(stored, f_m, field, f_k, f_k + 4);
}

/// A slot is in place right after it was patched.
proof fn lemma_placed_after_step(
    table: AddressTable,
    before: Seq<u8>,
    texts: Map<u32, Seq<u8>>,
    m: int,
)
    requires
        table.wf(),
        0 <= m < table.slots().len(),
        slot_units(table.slots(), texts) <= table.free.capacity(),
    ensures
        placed(
            table,
            written(
                written(
                    before,
                    allocated_offset(table, texts, m),
                    padded(texts[table.slots()[m]]),
                ),
                table.slots()[m] - table.diff,
                le_encoding((allocated_offset(table, texts, m) + table.diff) as u32),
            ),
            texts,
            m,
        ),
{
    let slots = table.slots();
    let at_m = allocated_offset(table, texts, m);
    let string = padded(texts[slots[m]]);
    let value = (at_m + table.diff) as u32;
    let field = le_encoding(value);
    let f_m = slots[m] - table.diff;
    let stored = written(before, at_m, string);
    let after = written(stored, f_m, field);
    lemma_padded_len(texts[slots[m]]);
    lemma_allocated_offset(table, texts, m);
    lemma_allocated_offset(table, texts, m + 1);
    lemma_slot_clear_of_free(table, m);
    lemma_le_value_of_encoding(value);
    lemma_written_holds(before, at_m, string);
    lemma_written_keeps(stored, f_m, field, at_m, at_m + string.len());
    lemma_written_holds(stored, f_m, field);
    assert(after.subrange(f_m, f_m + 4) == field);
}

/// After the first `m` slots of a usable table were patched, with room for
/// all, each of them is in place: its string is stored at its allocated
/// offset and its pointer holds that offset's virtual address. The cursor
/// stands at the allocated offset of the next slot.
pub proof fn lemma_patch_places(
    table: AddressTable,
    img: Seq<u8>,
    texts: Map<u32, Seq<u8>>,
    m: int,
)
    requires
        table.wf(),
        0 <= m <= table.slots().len(),
        slot_units(table.slots(), texts) <= table.free.capacity(),
    ensures
        patch_slots(
            img,
            table.free_offset(),
            table.diff as int,
            table.slots().subrange(0, m),
            texts,
        ).1 == allocated_offset(table, texts, m),
        forall|k: int|
            0 <= k < m ==> #[trigger] placed(
                table,
                patch_slots(
                    img,
                    table.free_offset(),
                    table.diff as int,
                    table.slots().subrange(0, m),
                    texts,
                ).0,
                texts,
                k,
            ),
    decreases m,
{
    if m > 0 {
        let slots = table.slots();
        let j = m - 1;
        lemma_patch_places(table, img, texts, j);
        let upto = slots.subrange(0, m);
        assert(upto.drop_last() =~= slots.subrange(0, j));
        assert(upto.last() == slots[j]);
        let (before, at) = patch_slots(
            img,
            table.free_offset(),
            table.diff as int,
            slots.subrange(0, j),
            texts,
        );
        let after = patch_slots(img, table.free_offset(), table.diff as int, upto, texts).0;
        lemma_allocated_offset(table, texts, j);
        assert forall|k: int| 0 <= k < m implies #[trigger] placed(table, after, texts, k) by {
            if k < j {
                assert(placed(table, before, texts, k));
                lemma_placed_stays(table, before, texts, k, j);
            } else {
                lemma_placed_after_step(table, before, texts, j);
            }
        }
    }
}

/// A patch changes no byte of the image but those of the pointer fields of
/// the slots and those of the free region from its start up to where the
/// cursor ends, and it never shortens the image.
pub proof fn lemma_patch_frame(
    img: Seq<u8>,
    next: int,
    diff: int,
    slots: Seq<u32>,
    texts: Map<u32, Seq<u8>>,
)
    ensures
        next <= patch_slots(img, next, diff, slots, texts).1,
        img.len() <= patch_slots(img, next, diff, slots, texts).0.len(),
        forall|i: int|
            0 <= i < img.len() && !(next <= i < patch_slots(img, next, diff, slots, texts).1)
                && !in_pointer_field(slots, diff, slots.len() as int, i) ==> patch_slots(
                img,
                next,
                diff,
                slots,
                texts,
            ).0[i] == img[i],
    decreases slots.len(),
{
    if slots.len() > 0 {
        let head = slots.drop_last();
        let slot = slots.last();
        lemma_patch_frame(img, next, diff, head, texts);
        let (before, at) = patch_slots(img, next, diff, head, texts);
        let (after, end) = patch_slots(img, next, diff, slots, texts);
        let stored = written(before, at, padded(texts[slot]));
        lemma_padded_len(texts[slot]);
        assert forall|i: int|
            0 <= i < img.len() && !(next <= i < end) && !in_pointer_field(
                slots,
                diff,
                slots.len() as int,
                i,
            ) implies after[i] == img[i] by {
            if in_pointer_field(head, diff, head.len() as int, i) {
                let k = choose|k: int|
                    0 <= k < head.len() && (#[trigger] head[k]) - diff <= i < head[k] - diff + 4;
                assert(slots[k] == head[k]);
                assert(in_pointer_field(slots, diff, slots.len() as int, i));
            }
            assert(before[i] == img[i]);
            assert(slots[slots.len() - 1] == slot);
            assert(!(slot - diff <= i < slot - diff + 4));
            assert(stored[i] == before[i]);
            assert(after[i] == stored[i]);
        }
    }
}

/// What a patch that succeeds leaves behind. Every slot of every table, in
/// the order of the traversal, is in place: its string is stored at its
/// allocated offset and its pointer holds that offset's virtual address. The
/// cursor ends after the last string, within the free region. No byte of
/// the image has changed but those of the pointer fields of the slots and
/// those of the free region up to where the cursor ended.
pub proof fn lemma_patch_effect(table: AddressTable, img: Seq<u8>, entries: Seq<RawEntry>)
    requires
        table.wf(),
        patch_outcome(table, img, entries) is Ok,
    ensures
        img.len() <= patch_outcome(table, img, entries)->Ok_0.0.len(),
        patch_outcome(table, img, entries)->Ok_0.1 == table.free.start + slot_units(
            table.slots(),
            entry_map(entries),
        ),
        patch_outcome(table, img, entries)->Ok_0.1 <= table.free.end,
        forall|k: int|
            0 <= k < table.slots().len() ==> #[trigger] placed(
                table,
                patch_outcome(table, img, entries)->Ok_0.0,
                entry_map(entries),
                k,
            ),
        forall|i: int|
            0 <= i < img.len() && !(table.free_offset() <= i < patch_outcome(
                table,
                img,
                entries,
            )->Ok_0.1 - table.diff) && !in_pointer_field(
                table.slots(),
                table.diff as int,
                table.slots().len() as int,
                i,
            ) ==> patch_outcome(table, img, entries)->Ok_0.0[i] == img[i],
{
    let slots = table.slots();
    let texts = entry_map(entries);
    lemma_patch_fits(table, entries);
    lemma_patch_slots_cursor(img, table.free_offset(), table.diff as int, slots, texts);
    lemma_patch_places(table, img, texts, slots.len() as int);
    lemma_patch_frame(img, table.free_offset(), table.diff as int, slots, texts);
    assert(slots.subrange(0, slots.len() as int) =~= slots);
}

/// A patch asks the sidecar for the slots of the tables and for no other
/// address: where it fails for want of a text, the address it names is a
/// slot of one of the tables, and the sidecar has no line for it.
pub proof fn lemma_missing_slot_is_a_slot(table: AddressTable, img: Seq<u8>, entries: Seq<RawEntry>)
    requires
        table.wf(),
        patch_outcome(table, img, entries) matches Err(Error::MissingSlot { .. }),
    ensures
        patch_outcome(table, img, entries) matches Err(Error::MissingSlot { address })
            && !entry_map(entries).dom().contains(address) && exists|i: int|
            0 <= i < table.ranges@.len() && is_slot_of(#[trigger] table.ranges@[i], address),
{
    let address = first_missing(table.slots(), entry_map(entries).dom())->Some_0;
    lemma_first_missing_none(table.slots(), entry_map(entries).dom());
    lemma_slot_membership(table.ranges@, address);
}

/// Where the sidecar has exactly one line for each slot and none besides,
/// the cursor ends at the start of the free region plus the room that the
/// estimate counts.
pub proof fn lemma_cursor_ends_at_estimate(table: AddressTable, img: Seq<u8>, entries: Seq<RawEntry>)
    requires
        table.wf(),
        patch_outcome(table, img, entries) is Ok,
        forall|j: int|
            0 <= j < entries.len() ==> table.slots().contains((#[trigger] entries[j]).address),
    ensures
        patch_outcome(table, img, entries)->Ok_0.1 == table.free.start + total_units(entries),
        slot_units(table.slots(), entry_map(entries)) == total_units(entries),
{
    lemma_patch_effect(table, img, entries);
    lemma_first_missing_none(table.slots(), entry_map(entries).dom());
    lemma_all_slots_distinct(table.ranges@);
    lemma_slot_units_exact(table.slots(), entries);
}

/// A patch whose writes all fall within the image leaves its length as it
/// was.
proof fn lemma_patch_slots_len(
    img: Seq<u8>,
    next: int,
    diff: int,
    slots: Seq<u32>,
    texts: Map<u32, Seq<u8>>,
)
    requires
        0 <= next,
        next + slot_units(slots, texts) <= img.len(),
        forall|k: int|
            0 <= k < slots.len() ==> 0 <= (#[trigger] slots[k]) - diff && slots[k] - diff + 4
                <= img.len(),
    ensures
        patch_slots(img, next, diff, slots, texts).0.len() == img.len(),
    decreases slots.len(),
{
    if slots.len() > 0 {
        let head = slots.drop_last();
        let slot = slots.last();
        assert forall|k: int| 0 <= k < head.len() implies 0 <= (#[trigger] head[k]) - diff
            && head[k] - diff + 4 <= img.len() by {
            assert(head[k] == slots[k]);
        }
        lemma_patch_slots_len(img, next, diff, head, texts);
        lemma_patch_slots_cursor(img, next, diff, head, texts);
        lemma_padded_len(texts[slot]);
        assert(slots[slots.len() - 1] == slot);
    }
}

/// Offset `i` lies in the second half of slot number `k`, after its
/// pointer field.
pub open spec fn in_slot_rest(slots: Seq<u32>, diff: int, k: int, i: int) -> bool {
    0 <= k < slots.len() && slots[k] - diff + 4 <= i < slots[k] - diff + 8
}

/// Where the tables and the free region lie within the image, a patch
/// that succeeds leaves the length of the image as it was, and the four
/// bytes after the pointer field of every slot as they were.
pub proof fn lemma_patch_within_image(table: AddressTable, img: Seq<u8>, entries: Seq<RawEntry>)
    requires
        table.wf(),
        patch_outcome(table, img, entries) is Ok,
        table.free.end - table.diff <= img.len(),
        forall|k: int|
            0 <= k < table.slots().len() ==> (#[trigger] table.slots()[k]) - table.diff + 8
                <= img.len(),
    ensures
        patch_outcome(table, img, entries)->Ok_0.0.len() == img.len(),
        forall|k: int, i: int| #[trigger]
            in_slot_rest(table.slots(), table.diff as int, k, i) ==> patch_outcome(
                table,
                img,
                entries,
            )->Ok_0.0[i] == img[i],
{
    let slots = table.slots();
    let texts = entry_map(entries);
    let diff = table.diff as int;
    let out = patch_outcome(table, img, entries)->Ok_0.0;
    let end = patch_outcome(table, img, entries)->Ok_0.1;
    lemma_patch_effect(table, img, entries);
    lemma_all_slots_apart(table.ranges@);
    assert forall|k: int| 0 <= k < slots.len() implies 0 <= (#[trigger] slots[k]) - diff
        && slots[k] - diff + 4 <= img.len() by {
        lemma_slot_clear_of_free(table, k);
    }
    lemma_patch_slots_len(img, table.free_offset(), diff, slots, texts);
    assert forall|k: int, i: int| #[trigger] in_slot_rest(slots, diff, k, i) implies out[i]
        == img[i] by {
        lemma_slot_clear_of_free(table, k);
        if in_pointer_field(slots, diff, slots.len() as int, i) {
            let j = choose|j: int|
                0 <= j < slots.len() && (#[trigger] slots[j]) - diff <= i < slots[j] - diff + 4;
            if j < k {
                assert(slots[j] + 8 <= slots[k] || slots[k] + 8 <= slots[j]);
            } else if k < j {
                assert(slots[k] + 8 <= slots[j] || slots[j] + 8 <= slots[k]);
            }
            assert(false);
        }
        assert(!(table.free_offset() <= i < end - diff));
    }
}

/// Offset `i` lies in one of the tables.
pub open spec fn in_some_table(table: AddressTable, i: int) -> bool {
    exists|r: int|
        0 <= r < table.ranges@.len() && (#[trigger] table.ranges@[r]).start - table.diff <= i
            < table.ranges@[r].end - table.diff
}

/// A patch that succeeds changes no byte that lies outside the tables and
/// outside the free region: what stands between them, the end address of a
/// table among it, stays as it was.
pub proof fn lemma_patch_leaves_the_rest(table: AddressTable, img: Seq<u8>, entries: Seq<RawEntry>)
    requires
        table.wf(),
        patch_outcome(table, img, entries) is Ok,
    ensures
        forall|i: int|
            0 <= i < img.len() && !in_some_table(table, i) && !(table.free_offset() <= i
                < table.free.end - table.diff) ==> #[trigger] patch_outcome(
                table,
                img,
                entries,
            )->Ok_0.0[i] == img[i],
{
    let slots = table.slots();
    let diff = table.diff as int;
    let out = patch_outcome(table, img, entries)->Ok_0.0;
    lemma_patch_effect(table, img, entries);
    assert forall|i: int|
        0 <= i < img.len() && !in_some_table(table, i) && !(table.free_offset() <= i
            < table.free.end - table.diff) implies #[trigger] out[i] == img[i] by {
        if in_pointer_field(slots, diff, slots.len() as int, i) {
            let k = choose|k: int|
                0 <= k < slots.len() && (#[trigger] slots[k]) - diff <= i < slots[k] - diff + 4;
            lemma_slot_in_some_range(table.ranges@, k);
            let r = choose|r: int|
                0 <= r < table.ranges@.len() && (#[trigger] table.ranges@[r]).start <= slots[k]
                    && slots[k] + 8 <= table.ranges@[r].end;
            assert(table.ranges@[r].start - table.diff <= i < table.ranges@[r].end - table.diff);
            assert(false);
        }
    }
}

} // verus!
