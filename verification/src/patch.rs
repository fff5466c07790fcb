//! The patch engine: strings are laid out one after the other in the free
//! region, and every slot's pointer is rewritten to its string's new place.

use crate::capacity::{
    allocation_unit, allocation_unit_of, encode_records, encode_string, encoded_entries,
    lemma_allocation_unit, reported_size, required_size_of, stored_bytes, total_units,
};
use crate::error::Error;
use crate::image::{le_encoding, write_at, write_pointer, written};
use crate::layout::{lemma_all_slots_distinct, lemma_slot_in_some_range, AddressTable};
use crate::record::{raw_entries, text_entries, RawEntry, RawRecord, StringRecord, TextEntry};
use crate::sidecar::{parse_sidecar, spec_parse_sidecar};
use std::collections::HashMap;
use vstd::prelude::*;
use vstd::slice::slice_to_vec;

verus! {

/// Where in the image the next string goes, and where the free region ends.
/// Both are offsets into the image.
#[derive(Clone, Copy, Debug, PartialEq, Eq, Structural)]
pub struct AllocationCursor {
    pub next: u32,
    pub end: u32,
}

impl AllocationCursor {
    /// Between allocations the cursor is aligned and within the region.
    pub open spec fn wf(&self) -> bool {
        self.next <= self.end && self.next % 4 == 0
    }

    /// A cursor at the start of the table's free region.
    pub fn new(table: &AddressTable) -> (c: AllocationCursor)
        requires
            table.wf(),
        ensures
            c.wf(),
            c.next == table.free.start - table.diff,
            c.end == table.free.end - table.diff,
    {
        AllocationCursor { next: table.free.start - table.diff, end: table.free.end - table.diff }
    }
}

/// A string as it is stored: its bytes, the null terminator, and null bytes
/// up to a multiple of four.
pub open spec fn padded(encoded: Seq<u8>) -> Seq<u8> {
    encoded + Seq::new(
        (allocation_unit(encoded.len()) - encoded.len()) as nat,
        |i: int| 0u8,
    )
}

/// The image holds `bytes` at offset `at`, with the terminator and the
/// padding of a stored string.
pub open spec fn stored_at(img: Seq<u8>, at: int, bytes: Seq<u8>) -> bool {
    &&& 0 <= at
    &&& at + padded(bytes).len() <= img.len()
    &&& img.subrange(at, at + padded(bytes).len()) == padded(bytes)
}

/// Stores one encoded string at the cursor and advances the cursor by the
/// string's allocation unit. Where the unit does not fit in what is left of
/// the region, nothing is written and the cursor stays.
pub fn write_encoded(image: &mut Vec<u8>, cursor: &mut AllocationCursor, encoded: &[u8]) -> (r:
    Result<u32, Error>)
    requires
        old(cursor).wf(),
    ensures
        final(cursor).wf(),
        final(cursor).end == old(cursor).end,
        match r {
            Ok(at) => {
                &&& at == old(cursor).next
                &&& old(cursor).next + allocation_unit(encoded@.len()) <= old(cursor).end
                &&& final(cursor).next == old(cursor).next + allocation_unit(encoded@.len())
                &&& final(image)@ == written(old(image)@, at as int, padded(encoded@))
            },
            Err(e) => {
                &&& old(cursor).next + allocation_unit(encoded@.len()) > old(cursor).end
                &&& e == (Error::Capacity {
                    required: reported_size(allocation_unit(encoded@.len())),
                    available: (old(cursor).end - old(cursor).next) as u32,
                })
                &&& *final(cursor) == *old(cursor)
                &&& final(image)@ == old(image)@
            },
        },
{
    let unit = allocation_unit_of(encoded.len());
    let room = cursor.end - cursor.next;
    proof {
        lemma_allocation_unit(encoded@.len());
    }
    if unit > room as u64 {
        return Err(Error::Capacity { required: unit, available: room });
    }
    let mut buf = slice_to_vec(encoded);
    while buf.len() < unit as usize
        invariant
            encoded@.len() <= buf@.len() <= unit,
            unit == allocation_unit(encoded@.len()),
            buf@.subrange(0, encoded@.len() as int) == encoded@,
            forall|i: int| encoded@.len() <= i < buf@.len() ==> buf@[i] == 0,
        decreases unit - buf@.len(),
    {
        buf.push(0);
        assert(buf@.subrange(0, encoded@.len() as int) =~= encoded@);
    }
    assert(buf@ =~= padded(encoded@));
    let at = cursor.next;
    write_at(image, at as usize, buf.as_slice());
    cursor.next = at + unit as u32;
    Ok(at)
}

/// Encodes the text of the slot at `address` and stores it at the cursor.
/// Where the text has no encoding, or its allocation unit does not fit in
/// what is left of the region, nothing is written and the cursor stays.
pub fn write_string(
    image: &mut Vec<u8>,
    cursor: &mut AllocationCursor,
    address: u32,
    text: &str,
) -> (r: Result<u32, Error>)
    requires
        old(cursor).wf(),
    ensures
        final(cursor).wf(),
        final(cursor).end == old(cursor).end,
        match r {
            Ok(at) => {
                &&& stored_bytes(address, text@) matches Ok(encoded)
                &&& at == old(cursor).next
                &&& old(cursor).next + allocation_unit(encoded.len()) <= old(cursor).end
                &&& final(cursor).next == old(cursor).next + allocation_unit(encoded.len())
                &&& final(image)@ == written(old(image)@, at as int, padded(encoded))
            },
            Err(e) => {
                &&& *final(cursor) == *old(cursor)
                &&& final(image)@ == old(image)@
                &&& match stored_bytes(address, text@) {
                    Err(cause) => e == cause,
                    Ok(encoded) => old(cursor).next + allocation_unit(encoded.len()) > old(
                        cursor,
                    ).end && e == (Error::Capacity {
                        required: reported_size(allocation_unit(encoded.len())),
                        available: (old(cursor).end - old(cursor).next) as u32,
                    }),
                }
            },
        },
{
    match encode_string(address, text) {
        Err(e) => Err(e),
        Ok(encoded) => write_encoded(image, cursor, encoded.as_slice()),
    }
}

/// The sidecar as a mapping from slot address to encoded text. Where an
/// address occurs more than once, the last occurrence counts.
pub open spec fn entry_map(entries: Seq<RawEntry>) -> Map<u32, Seq<u8>>
    decreases entries.len(),
{
    if entries.len() == 0 {
        Map::empty()
    } else {
        entry_map(entries.drop_last()).insert(entries.last().address, entries.last().bytes)
    }
}

/// The address of the first entry whose address an earlier entry has too.
pub open spec fn first_duplicate(entries: Seq<RawEntry>) -> Option<u32>
    decreases entries.len(),
{
    if entries.len() == 0 {
        None
    } else {
        match first_duplicate(entries.drop_last()) {
            Some(a) => Some(a),
            None => if entry_map(entries.drop_last()).dom().contains(entries.last().address) {
                Some(entries.last().address)
            } else {
                None
            },
        }
    }
}

/// The first slot, in canonical order, that `have` does not hold.
pub open spec fn first_missing(slots: Seq<u32>, have: Set<u32>) -> Option<u32>
    decreases slots.len(),
{
    if slots.len() == 0 {
        None
    } else {
        match first_missing(slots.drop_last(), have) {
            Some(a) => Some(a),
            None => if have.contains(slots.last()) {
                None
            } else {
                Some(slots.last())
            },
        }
    }
}

/// Bytes of the free region that the strings of these slots take.
pub open spec fn slot_units(slots: Seq<u32>, texts: Map<u32, Seq<u8>>) -> nat
    decreases slots.len(),
{
    if slots.len() == 0 {
        0
    } else {
        slot_units(slots.drop_last(), texts) + allocation_unit(texts[slots.last()].len())
    }
}

/// The image and the cursor after the slots were patched, one after the
/// other: the slot's string is stored at the cursor, the slot's pointer field
/// is overwritten with the virtual address of that place, and the cursor
/// advances by the string's allocation unit.
pub open spec fn patch_slots(
    img: Seq<u8>,
    next: int,
    diff: int,
    slots: Seq<u32>,
    texts: Map<u32, Seq<u8>>,
) -> (Seq<u8>, int)
    decreases slots.len(),
{
    if slots.len() == 0 {
        (img, next)
    } else {
        let (before, at) = patch_slots(img, next, diff, slots.drop_last(), texts);
        let slot = slots.last();
        let stored = written(before, at, padded(texts[slot]));
        (
            written(stored, slot - diff, le_encoding((at + diff) as u32)),
            at + allocation_unit(texts[slot].len()),
        )
    }
}

/// What a patch run with these encoded strings comes to: the patched image
/// with the virtual address at which the cursor ended, or the reason why
/// nothing was written. The room needed is checked first, over all entries;
/// then that no address occurs twice; then that every slot has an entry.
pub open spec fn patch_outcome(table: AddressTable, img: Seq<u8>, entries: Seq<RawEntry>) -> Result<
    (Seq<u8>, u32),
    Error,
> {
    if total_units(entries) > table.free.capacity() {
        Err(
            Error::Capacity {
                required: reported_size(total_units(entries)),
                available: table.free.capacity() as u32,
            },
        )
    } else if first_duplicate(entries) is Some {
        Err(Error::DuplicateAddress { address: first_duplicate(entries)->Some_0 })
    } else if first_missing(table.slots(), entry_map(entries).dom()) is Some {
        Err(
            Error::MissingSlot {
                address: first_missing(table.slots(), entry_map(entries).dom())->Some_0,
            },
        )
    } else {
        let (patched, next) = patch_slots(
            img,
            table.free_offset(),
            table.diff as int,
            table.slots(),
            entry_map(entries),
        );
        Ok((patched, (next + table.diff) as u32))
    }
}

/// What a patch run with these texts comes to: the error of the first text
/// without an encoding, or what the run with the encoded texts comes to.
pub open spec fn patch_records_outcome(
    table: AddressTable,
    img: Seq<u8>,
    records: Seq<TextEntry>,
) -> Result<(Seq<u8>, u32), Error> {
    match encoded_entries(records) {
        Err(e) => Err(e),
        Ok(entries) => patch_outcome(table, img, entries),
    }
}

/// The cursor ends where it started plus the allocation units of all slots.
pub proof fn lemma_patch_slots_cursor(
    img: Seq<u8>,
    next: int,
    diff: int,
    slots: Seq<u32>,
    texts: Map<u32, Seq<u8>>,
)
    ensures
        patch_slots(img, next, diff, slots, texts).1 == next + slot_units(slots, texts),
    decreases slots.len(),
{
    if slots.len() > 0 {
        lemma_patch_slots_cursor(img, next, diff, slots.drop_last(), texts);
    }
}

/// Every slot has an entry exactly when no slot is missing.
pub proof fn lemma_first_missing_none(slots: Seq<u32>, have: Set<u32>)
    ensures
        first_missing(slots, have) is None <==> forall|k: int|
            0 <= k < slots.len() ==> have.contains(#[trigger] slots[k]),
        first_missing(slots, have) matches Some(a) ==> !have.contains(a) && slots.contains(a),
    decreases slots.len(),
{
    if slots.len() > 0 {
        lemma_first_missing_none(slots.drop_last(), have);
        if first_missing(slots.drop_last(), have) is None {
            assert forall|k: int| 0 <= k < slots.len() && have.contains(slots.last()) implies have.contains(
                #[trigger] slots[k],
            ) by {
                if k < slots.len() - 1 {
                    assert(slots.drop_last()[k] == slots[k]);
                }
            }
            assert(slots[slots.len() - 1] == slots.last());
        } else {
            let k = choose|k: int|
                0 <= k < slots.drop_last().len() && !have.contains(#[trigger] slots.drop_last()[k]);
            assert(slots[k] == slots.drop_last()[k]);
            let a = first_missing(slots.drop_last(), have)->Some_0;
            let j = choose|j: int| 0 <= j < slots.drop_last().len() && slots.drop_last()[j] == a;
            assert(slots[j] == a);
        }
    }
}

/// A slot found missing among the first `n` is the one found missing among
/// all.
proof fn lemma_first_missing_stays(slots: Seq<u32>, have: Set<u32>, n: int)
    requires
        0 <= n <= slots.len(),
        first_missing(slots.subrange(0, n), have) is Some,
    ensures
        first_missing(slots, have) == first_missing(slots.subrange(0, n), have),
    decreases slots.len() - n,
{
    if n < slots.len() {
        assert(slots.subrange(0, n + 1).drop_last() =~= slots.subrange(0, n));
        lemma_first_missing_stays(slots, have, n + 1);
    } else {
        assert(slots.subrange(0, n) =~= slots);
    }
}

/// A duplicate found among the first `n` entries is the one found among all.
proof fn lemma_first_duplicate_stays(entries: Seq<RawEntry>, n: int)
    requires
        0 <= n <= entries.len(),
        first_duplicate(entries.subrange(0, n)) is Some,
    ensures
        first_duplicate(entries) == first_duplicate(entries.subrange(0, n)),
    decreases entries.len() - n,
{
    if n < entries.len() {
        assert(entries.subrange(0, n + 1).drop_last() =~= entries.subrange(0, n));
        lemma_first_duplicate_stays(entries, n + 1);
    } else {
        assert(entries.subrange(0, n) =~= entries);
    }
}

/// The first `n` slots take no more room than all of them.
proof fn lemma_slot_units_prefix(slots: Seq<u32>, texts: Map<u32, Seq<u8>>, n: int)
    requires
        0 <= n <= slots.len(),
    ensures
        slot_units(slots.subrange(0, n), texts) <= slot_units(slots, texts),
    decreases slots.len() - n,
{
    if n < slots.len() {
        assert(slots.subrange(0, n + 1).drop_last() =~= slots.subrange(0, n));
        lemma_slot_units_prefix(slots, texts, n + 1);
    } else {
        assert(slots.subrange(0, n) =~= slots);
    }
}

/// Taking one slot out takes its allocation unit out of the sum.
proof fn lemma_slot_units_remove(slots: Seq<u32>, texts: Map<u32, Seq<u8>>, p: int)
    requires
        0 <= p < slots.len(),
    ensures
        slot_units(slots, texts) == slot_units(slots.remove(p), texts) + allocation_unit(
            texts[slots[p]].len(),
        ),
    decreases slots.len(),
{
    if p == slots.len() - 1 {
        assert(slots.remove(p) =~= slots.drop_last());
    } else {
        lemma_slot_units_remove(slots.drop_last(), texts, p);
        assert(slots.remove(p).drop_last() =~= slots.drop_last().remove(p));
        assert(slots.remove(p).last() == slots.last());
    }
}

/// The sum depends only on the texts of the slots summed over.
proof fn lemma_slot_units_agree(slots: Seq<u32>, a: Map<u32, Seq<u8>>, b: Map<u32, Seq<u8>>)
    requires
        forall|k: int| 0 <= k < slots.len() ==> a[#[trigger] slots[k]] == b[slots[k]],
    ensures
        slot_units(slots, a) == slot_units(slots, b),
    decreases slots.len(),
{
    if slots.len() > 0 {
        assert forall|k: int| 0 <= k < slots.drop_last().len() implies a[#[trigger] slots.drop_last()[k]]
            == b[slots.drop_last()[k]] by {
            assert(slots.drop_last()[k] == slots[k]);
        }
        lemma_slot_units_agree(slots.drop_last(), a, b);
        assert(slots.last() == slots[slots.len() - 1]);
    }
}

/// Distinct slots, each with an entry of its own, take no more room than all
/// the entries together: the estimate over the whole sidecar covers what the
/// patch writes.
pub proof fn lemma_slot_units_bounded(slots: Seq<u32>, entries: Seq<RawEntry>)
    requires
        slots.no_duplicates(),
        first_duplicate(entries) is None,
        forall|k: int| 0 <= k < slots.len() ==> entry_map(entries).dom().contains(#[trigger] slots[k]),
    ensures
        slot_units(slots, entry_map(entries)) <= total_units(entries),
    decreases entries.len(),
{
    if entries.len() == 0 {
        if slots.len() > 0 {
            assert(entry_map(entries).dom().contains(slots[0]));
        }
    } else {
        let head = entries.drop_last();
        let last = entries.last();
        let whole = entry_map(entries);
        let part = entry_map(head);
        assert(!part.dom().contains(last.address));
        if slots.contains(last.address) {
            let p = choose|p: int| 0 <= p < slots.len() && slots[p] == last.address;
            let rest = slots.remove(p);
            assert forall|k: int| 0 <= k < rest.len() implies part.dom().contains(#[trigger] rest[k])
                && whole[rest[k]] == part[rest[k]] by {
                let j = if k < p {
                    k
                } else {
                    k + 1
                };
                assert(rest[k] == slots[j]);
                assert(whole.dom().contains(slots[j]));
            }
            assert forall|i: int, j: int| 0 <= i < j < rest.len() implies rest[i] != rest[j] by {
                let i2 = if i < p {
                    i
                } else {
                    i + 1
                };
                let j2 = if j < p {
                    j
                } else {
                    j + 1
                };
                assert(rest[i] == slots[i2] && rest[j] == slots[j2]);
            }
            lemma_slot_units_remove(slots, whole, p);
            lemma_slot_units_agree(rest, whole, part);
            lemma_slot_units_bounded(rest, head);
        } else {
            assert forall|k: int| 0 <= k < slots.len() implies part.dom().contains(#[trigger] slots[k])
                && whole[slots[k]] == part[slots[k]] by {
                assert(whole.dom().contains(slots[k]));
                assert(slots.contains(slots[k]));
            }
            lemma_slot_units_agree(slots, whole, part);
            lemma_slot_units_bounded(slots, head);
        }
    }
}

/// Where no two entries have the same address, none is a duplicate, and the
/// mapping has exactly their addresses, each with the text of its entry.
pub proof fn lemma_entry_map_distinct(entries: Seq<RawEntry>)
    requires
        forall|i: int, j: int|
            0 <= i < j < entries.len() ==> (#[trigger] entries[i]).address != (
            #[trigger] entries[j]).address,
    ensures
        first_duplicate(entries) is None,
        forall|k: int|
            0 <= k < entries.len() ==> entry_map(entries).dom().contains(
                (#[trigger] entries[k]).address,
            ) && entry_map(entries)[entries[k].address] == entries[k].bytes,
        forall|a: u32|
            entry_map(entries).dom().contains(a) ==> exists|k: int|
                0 <= k < entries.len() && (#[trigger] entries[k]).address == a,
    decreases entries.len(),
{
    if entries.len() > 0 {
        let head = entries.drop_last();
        let last = entries.last();
        assert forall|i: int, j: int| 0 <= i < j < head.len() implies (#[trigger] head[i]).address
            != (#[trigger] head[j]).address by {
            assert(head[i] == entries[i] && head[j] == entries[j]);
        }
        lemma_entry_map_distinct(head);
        if entry_map(head).dom().contains(last.address) {
            let k = choose|k: int| 0 <= k < head.len() && (#[trigger] head[k]).address == last.address;
            assert(head[k] == entries[k]);
            assert(entries[entries.len() - 1] == last);
            assert(false);
        }
        assert forall|k: int| 0 <= k < entries.len() implies entry_map(entries).dom().contains(
            (#[trigger] entries[k]).address,
        ) && entry_map(entries)[entries[k].address] == entries[k].bytes by {
            if k < head.len() {
                assert(head[k] == entries[k]);
                assert(entries[entries.len() - 1] == last);
            }
        }
        assert forall|a: u32| entry_map(entries).dom().contains(a) implies exists|k: int|
            0 <= k < entries.len() && (#[trigger] entries[k]).address == a by {
            if a == last.address {
                assert(entries[entries.len() - 1].address == a);
            } else {
                let k = choose|k: int| 0 <= k < head.len() && (#[trigger] head[k]).address == a;
                assert(entries[k] == head[k]);
            }
        }
    }
}

/// Where the entries match the slots one for one, the strings of the slots
/// take exactly the room of all the entries: what the estimate counts is
/// what the patch writes.
pub proof fn lemma_slot_units_exact(slots: Seq<u32>, entries: Seq<RawEntry>)
    requires
        slots.no_duplicates(),
        first_duplicate(entries) is None,
        forall|k: int| 0 <= k < slots.len() ==> entry_map(entries).dom().contains(#[trigger] slots[k]),
        forall|j: int| 0 <= j < entries.len() ==> slots.contains((#[trigger] entries[j]).address),
    ensures
        slot_units(slots, entry_map(entries)) == total_units(entries),
    decreases entries.len(),
{
    if entries.len() == 0 {
        if slots.len() > 0 {
            assert(entry_map(entries).dom().contains(slots[0]));
        }
    } else {
        let head = entries.drop_last();
        let last = entries.last();
        let whole = entry_map(entries);
        let part = entry_map(head);
        assert(!part.dom().contains(last.address));
        lemma_no_duplicate_distinct(entries);
        assert(entries[entries.len() - 1] == last);
        assert(slots.contains(last.address));
        let p = choose|p: int| 0 <= p < slots.len() && slots[p] == last.address;
        let rest = slots.remove(p);
        assert forall|k: int| 0 <= k < rest.len() implies part.dom().contains(#[trigger] rest[k])
            && whole[rest[k]] == part[rest[k]] by {
            let j = if k < p {
                k
            } else {
                k + 1
            };
            assert(rest[k] == slots[j]);
            assert(whole.dom().contains(slots[j]));
        }
        assert forall|i: int, j: int| 0 <= i < j < rest.len() implies rest[i] != rest[j] by {
            let i2 = if i < p {
                i
            } else {
                i + 1
            };
            let j2 = if j < p {
                j
            } else {
                j + 1
            };
            assert(rest[i] == slots[i2] && rest[j] == slots[j2]);
        }
        assert forall|j: int| 0 <= j < head.len() implies rest.contains(
            (#[trigger] head[j]).address,
        ) by {
            assert(head[j] == entries[j]);
            assert(entries[j].address != entries[entries.len() - 1].address);
            assert(slots.contains(entries[j].address));
            let q = choose|q: int| 0 <= q < slots.len() && slots[q] == entries[j].address;
            let q2 = if q < p {
                q
            } else {
                q - 1
            };
            assert(rest[q2] == slots[q]);
        }
        lemma_slot_units_remove(slots, whole, p);
        lemma_slot_units_agree(rest, whole, part);
        lemma_slot_units_exact(rest, head);
    }
}

/// Where no entry is a duplicate, no two entries have the same address.
pub proof fn lemma_no_duplicate_distinct(entries: Seq<RawEntry>)
    requires
        first_duplicate(entries) is None,
    ensures
        forall|i: int, j: int|
            0 <= i < j < entries.len() ==> (#[trigger] entries[i]).address != (
            #[trigger] entries[j]).address,
    decreases entries.len(),
{
    if entries.len() > 0 {
        let head = entries.drop_last();
        let last = entries.last();
        lemma_no_duplicate_distinct(head);
        lemma_entry_map_distinct(head);
        assert forall|i: int, j: int| 0 <= i < j < entries.len() implies (#[trigger] entries[i]).address
            != (#[trigger] entries[j]).address by {
            assert(head[i] == entries[i]);
            if j < head.len() {
                assert(head[j] == entries[j]);
            } else {
                assert(entries[j] == last);
                assert(entry_map(head).dom().contains(head[i].address));
            }
        }
    }
}

/// Where a patch run gets as far as writing, the strings of the slots take
/// no more room than the free region has.
pub proof fn lemma_patch_fits(table: AddressTable, entries: Seq<RawEntry>)
    requires
        table.wf(),
        total_units(entries) <= table.free.capacity(),
        first_duplicate(entries) is None,
        first_missing(table.slots(), entry_map(entries).dom()) is None,
    ensures
        slot_units(table.slots(), entry_map(entries)) <= table.free.capacity(),
{
    lemma_first_missing_none(table.slots(), entry_map(entries).dom());
    lemma_all_slots_distinct(table.ranges@);
    lemma_slot_units_bounded(table.slots(), entries);
}

/// `index` leads from every address of the entries to an entry with that
/// address and with the text that the mapping has for it.
pub open spec fn indexes(index: Map<u32, usize>, entries: Seq<RawEntry>) -> bool {
    &&& index.dom() == entry_map(entries).dom()
    &&& forall|a: u32| #[trigger]
        index.dom().contains(a) ==> {
            &&& index[a] < entries.len()
            &&& entries[index[a] as int].address == a
            &&& entries[index[a] as int].bytes == entry_map(entries)[a]
        }
}

/// Builds the mapping from address to entry, and fails on the first address
/// that occurs twice.
fn index_entries(entries: &Vec<RawRecord>) -> (r: Result<HashMap<u32, usize>, Error>)
    ensures
        match r {
            Ok(index) => first_duplicate(raw_entries(entries@)) is None && indexes(
                index@,
                raw_entries(entries@),
            ),
            Err(e) => first_duplicate(raw_entries(entries@)) matches Some(address) && e
                == (Error::DuplicateAddress { address }),
        },
{
    broadcast use vstd::std_specs::hash::group_hash_axioms;

    let ghost all = raw_entries(entries@);
    let mut index: HashMap<u32, usize> = HashMap::new();
    let mut i: usize = 0;
    assert(index@.dom() =~= entry_map(all.subrange(0, 0)).dom());
    while i < entries.len()
        invariant
            all == raw_entries(entries@),
            i <= entries@.len(),
            first_duplicate(all.subrange(0, i as int)) is None,
            indexes(index@, all.subrange(0, i as int)),
        decreases entries@.len() - i,
    {
        let ghost upto = all.subrange(0, i as int);
        let ghost next = all.subrange(0, i + 1);
        proof {
            assert(next.drop_last() =~= upto);
            assert(next.last() == all[i as int]);
        }
        let address = entries[i].address;
        if index.contains_key(&address) {
            proof {
                lemma_first_duplicate_stays(all, i + 1);
            }
            return Err(Error::DuplicateAddress { address });
        }
        index.insert(address, i);
        proof {
            assert(index@.dom() =~= entry_map(next).dom());
            assert forall|a: u32| #[trigger] index@.dom().contains(a) implies {
                &&& index@[a] < next.len()
                &&& next[index@[a] as int].address == a
                &&& next[index@[a] as int].bytes == entry_map(next)[a]
            } by {
                if a != address {
                    assert(upto[index@[a] as int] == next[index@[a] as int]);
                }
            }
        }
        i += 1;
    }
    assert(all.subrange(0, i as int) =~= all);
    Ok(index)
}

/// The first slot, in canonical order, without an entry.
fn first_uncovered(slots: &Vec<u32>, index: &HashMap<u32, usize>) -> (r: Option<u32>)
    ensures
        r == first_missing(slots@, index@.dom()),
{
    broadcast use vstd::std_specs::hash::group_hash_axioms;

    let mut k: usize = 0;
    while k < slots.len()
        invariant
            k <= slots@.len(),
            first_missing(slots@.subrange(0, k as int), index@.dom()) is None,
        decreases slots@.len() - k,
    {
        proof {
            assert(slots@.subrange(0, k + 1).drop_last() =~= slots@.subrange(0, k as int));
        }
        if !index.contains_key(&slots[k]) {
            proof {
                lemma_first_missing_stays(slots@, index@.dom(), k + 1);
            }
            return Some(slots[k]);
        }
        k += 1;
    }
    assert(slots@.subrange(0, k as int) =~= slots@);
    None
}

/// Patches the image with strings that are already encoded. The room needed
/// is checked over all entries, then that no address occurs twice, then that
/// every slot has an entry; only then is the image written to. On an error
/// the image is as it was.
pub fn patch_encoded(table: &AddressTable, image: &mut Vec<u8>, entries: &Vec<RawRecord>) -> (r:
    Result<u32, Error>)
    requires
        table.wf(),
    ensures
        match r {
            Ok(end) => patch_outcome(*table, old(image)@, raw_entries(entries@)) == Ok::<
                (Seq<u8>, u32),
                Error,
            >((final(image)@, end)),
            Err(e) => final(image)@ == old(image)@ && patch_outcome(
                *table,
                old(image)@,
                raw_entries(entries@),
            ) == Err::<(Seq<u8>, u32), Error>(e),
        },
{
    broadcast use vstd::std_specs::hash::group_hash_axioms;

    let ghost all = raw_entries(entries@);
    let ghost before = image@;
    let required = required_size_of(entries);
    let available = table.free_capacity();
    if required > available as u64 {
        return Err(Error::Capacity { required, available });
    }
    let index = match index_entries(entries) {
        Ok(index) => index,
        Err(e) => {
            return Err(e);
        },
    };
    let slots = table.slot_addresses();
    if let Some(address) = first_uncovered(&slots, &index) {
        return Err(Error::MissingSlot { address });
    }
    let ghost texts = entry_map(all);
    let ghost origin = table.free_offset();
    let ghost diff = table.diff as int;
    proof {
        lemma_first_missing_none(slots@, index@.dom());
        lemma_all_slots_distinct(table.ranges@);
        lemma_slot_units_bounded(slots@, all);
    }
    let mut cursor = AllocationCursor::new(table);
    let mut k: usize = 0;
    while k < slots.len()
        invariant
            table.wf(),
            slots@ == table.slots(),
            all == raw_entries(entries@),
            texts == entry_map(all),
            indexes(index@, all),
            origin == table.free_offset(),
            diff == table.diff,
            forall|j: int| 0 <= j < slots@.len() ==> texts.dom().contains(#[trigger] slots@[j]),
            slot_units(slots@, texts) <= table.free.capacity(),
            k <= slots@.len(),
            cursor.wf(),
            cursor.end == table.free.end - table.diff,
            cursor.next == origin + slot_units(slots@.subrange(0, k as int), texts),
            (image@, cursor.next as int) == patch_slots(
                before,
                origin,
                diff,
                slots@.subrange(0, k as int),
                texts,
            ),
        decreases slots@.len() - k,
    {
        let slot = slots[k];
        proof {
            assert(slots@.subrange(0, k + 1).drop_last() =~= slots@.subrange(0, k as int));
            assert(slots@.subrange(0, k + 1).last() == slot);
            lemma_slot_units_prefix(slots@, texts, k + 1);
            lemma_slot_in_some_range(table.ranges@, k as int);
            assert(texts.dom().contains(slots@[k as int]));
        }
        let at = match index.get(&slot) {
            Some(i) => match write_encoded(image, &mut cursor, entries[*i].bytes.as_slice()) {
                Ok(at) => at,
                Err(e) => {
                    assert(false);
                    return Err(e);
                },
            },
            None => {
                assert(false);
                return Err(Error::MissingSlot { address: slot });
            },
        };
        write_pointer(image, (slot - table.diff) as usize, at + table.diff);
        k += 1;
    }
    assert(slots@.subrange(0, k as int) =~= slots@);
    Ok(cursor.next + table.diff)
}

/// Encodes the texts and patches the image with them. On an error the image
/// is as it was.
pub fn patch_records(table: &AddressTable, image: &mut Vec<u8>, records: &Vec<StringRecord>) -> (r:
    Result<u32, Error>)
    requires
        table.wf(),
    ensures
        match r {
            Ok(end) => patch_records_outcome(*table, old(image)@, text_entries(records@)) == Ok::<
                (Seq<u8>, u32),
                Error,
            >((final(image)@, end)),
            Err(e) => final(image)@ == old(image)@ && patch_records_outcome(
                *table,
                old(image)@,
                text_entries(records@),
            ) == Err::<(Seq<u8>, u32), Error>(e),
        },
{
    match encode_records(records) {
        Err(e) => Err(e),
        Ok(entries) => patch_encoded(table, image, &entries),
    }
}

/// What patching with a sidecar comes to: the error of the first line that
/// is not a record, or what the run with the records comes to.
pub open spec fn patch_strings_outcome(table: AddressTable, img: Seq<u8>, sidecar: Seq<char>) -> Result<
    (Seq<u8>, u32),
    Error,
> {
    match spec_parse_sidecar(sidecar) {
        Err(e) => Err(e),
        Ok(records) => patch_records_outcome(table, img, records),
    }
}

/// Patches the image with the texts of a sidecar and reports the virtual
/// address at which the cursor ended. On an error the image is as it was.
pub fn patch_strings(table: &AddressTable, image: &mut Vec<u8>, sidecar: &str) -> (r: Result<
    u32,
    Error,
>)
    requires
        table.wf(),
    ensures
        match r {
            Ok(end) => patch_strings_outcome(*table, old(image)@, sidecar@) == Ok::<
                (Seq<u8>, u32),
                Error,
            >((final(image)@, end)),
            Err(e) => final(image)@ == old(image)@ && patch_strings_outcome(
                *table,
                old(image)@,
                sidecar@,
            ) == Err::<(Seq<u8>, u32), Error>(e),
        },
{
    match parse_sidecar(sidecar) {
        Err(e) => Err(e),
        Ok(records) => patch_records(table, image, &records),
    }
}

} // verus!
