//! The address table: where the pointer tables and the free region lie in
//! an image, and the order in which slots are visited.

use vstd::prelude::*;

verus! {

/// Distance in bytes between two consecutive slots of a pointer table.
pub const STRIDE: u32 = 8;

/// Alignment in bytes of every allocation in the free region.
pub const ALIGNMENT: u32 = 4;

/// A pointer table: slots at `start`, `start + 8`, ... below `end`.
#[derive(Clone, Copy, Debug, PartialEq, Eq, Structural)]
pub struct AddressRange {
    pub start: u32,
    pub end: u32,
}

/// The window of virtual addresses reserved for relocated strings.
#[derive(Clone, Copy, Debug, PartialEq, Eq, Structural)]
pub struct FreeRegion {
    pub start: u32,
    pub end: u32,
}

/// The immutable configuration every component works from.
#[derive(Clone, Debug)]
pub struct AddressTable {
    pub ranges: Vec<AddressRange>,
    pub free: FreeRegion,
    /// Subtracted from a virtual address to get an offset into the image.
    pub diff: u32,
}

impl AddressRange {
    /// `end` is reachable from `start` by whole strides.
    pub open spec fn wf(self) -> bool {
        self.start <= self.end && (self.end - self.start) % 8 == 0
    }

    /// Number of slots of this table.
    pub open spec fn slot_count(self) -> nat {
        if self.start <= self.end {
            ((self.end - self.start) / 8) as nat
        } else {
            0
        }
    }

    /// The slot addresses of this table, in ascending order.
    pub open spec fn slots(self) -> Seq<u32> {
        Seq::new(self.slot_count(), |i: int| (self.start + 8 * i) as u32)
    }

    /// Two tables share no byte.
    pub open spec fn disjoint_from(self, other: AddressRange) -> bool {
        self.end <= other.start || other.end <= self.start || self.start == self.end || other.start
            == other.end
    }

    /// The table shares no byte with the window `[lo, hi)`.
    pub open spec fn clear_of(self, lo: u32, hi: u32) -> bool {
        self.end <= lo || hi <= self.start || self.start == self.end || lo >= hi
    }

    /// The table from `start` to `end`, if `end` is reachable from `start`
    /// by whole strides.
    pub fn new(start: u32, end: u32) -> (r: Option<AddressRange>)
        ensures
            r == if (AddressRange { start, end }).wf() {
                Some(AddressRange { start, end })
            } else {
                None::<AddressRange>
            },
    {
        if start <= end && (end - start) % STRIDE == 0 {
            Some(AddressRange { start, end })
        } else {
            None
        }
    }

    /// The slot addresses of this table, in the order they are visited.
    pub fn slot_addresses(&self) -> (r: Vec<u32>)
        requires
            self.wf(),
        ensures
            r@ == self.slots(),
    {
        let mut out: Vec<u32> = Vec::new();
        let mut at: u32 = self.start;
        while at < self.end
            invariant
                self.wf(),
                self.start <= at <= self.end,
                (at - self.start) % 8 == 0,
                out@.len() == (at - self.start) / 8,
                forall|i: int| 0 <= i < out@.len() ==> out@[i] == self.start + 8 * i,
            decreases self.end - at,
        {
            out.push(at);
            at = at + STRIDE;
        }
        assert(out@ =~= self.slots());
        out
    }
}

impl FreeRegion {
    /// Bytes that the region can hold.
    pub open spec fn capacity(self) -> nat {
        if self.start <= self.end {
            (self.end - self.start) as nat
        } else {
            0
        }
    }
}

/// The slots of several tables, table after table.
pub open spec fn all_slots(ranges: Seq<AddressRange>) -> Seq<u32>
    decreases ranges.len(),
{
    if ranges.len() == 0 {
        Seq::empty()
    } else {
        all_slots(ranges.drop_last()) + ranges.last().slots()
    }
}

/// No two of the tables share a byte.
pub open spec fn pairwise_disjoint(ranges: Seq<AddressRange>) -> bool {
    forall|i: int, j: int|
        0 <= i < j < ranges.len() ==> (#[trigger] ranges[i]).disjoint_from(#[trigger] ranges[j])
}

/// What makes a configuration usable: every table lies at or above `diff`
/// and is made of whole slots, no two tables share a byte, and the free
/// region lies at or above `diff`, starts on an aligned offset and shares no
/// byte with a table.
pub open spec fn table_wf(ranges: Seq<AddressRange>, free: FreeRegion, diff: u32) -> bool {
    &&& forall|i: int|
        0 <= i < ranges.len() ==> (#[trigger] ranges[i]).wf() && diff <= ranges[i].start
    &&& pairwise_disjoint(ranges)
    &&& diff <= free.start <= free.end
    &&& (free.start - diff) % 4 == 0
    &&& forall|i: int| 0 <= i < ranges.len() ==> (#[trigger] ranges[i]).clear_of(free.start, free.end)
}

/// The pointer tables of the image this tool was written for.
pub open spec fn standard_ranges() -> Seq<AddressRange> {
    seq![
        AddressRange { start: 0x020d0938, end: 0x020d4770 },
        AddressRange { start: 0x020d725c, end: 0x020d8de4 },
        AddressRange { start: 0x020db1d4, end: 0x020dc954 },
        AddressRange { start: 0x020dee2c, end: 0x020e05d4 },
        AddressRange { start: 0x020e3050, end: 0x020e4a88 },
        AddressRange { start: 0x020e81c8, end: 0x020ea460 },
        AddressRange { start: 0x020ebdd0, end: 0x020ecd78 },
        AddressRange { start: 0x020ee6ec, end: 0x020ef684 },
        AddressRange { start: 0x020f0e40, end: 0x020f1cd8 },
        AddressRange { start: 0x020f3348, end: 0x020f4150 },
        AddressRange { start: 0x020f5988, end: 0x020f67e8 },
    ]
}

impl AddressTable {
    /// The configuration is usable.
    pub open spec fn wf(&self) -> bool {
        table_wf(self.ranges@, self.free, self.diff)
    }

    /// Every slot address, in canonical order.
    pub open spec fn slots(&self) -> Seq<u32> {
        all_slots(self.ranges@)
    }

    /// Offset in the image of the first byte of the free region.
    pub open spec fn free_offset(&self) -> int {
        self.free.start - self.diff
    }

    /// Checks a configuration and, if it is usable, makes a table of it.
    pub fn new(ranges: Vec<AddressRange>, free: FreeRegion, diff: u32) -> (r: Option<AddressTable>)
        ensures
            r is Some <==> table_wf(ranges@, free, diff),
            r matches Some(t) ==> t.ranges@ == ranges@ && t.free == free && t.diff == diff,
    {
        if !(diff <= free.start && free.start <= free.end && (free.start - diff) % ALIGNMENT == 0) {
            return None;
        }
        let n = ranges.len();
        let mut i: usize = 0;
        while i < n
            invariant
                n == ranges@.len(),
                i <= n,
                forall|k: int|
                    0 <= k < i ==> (#[trigger] ranges@[k]).wf() && diff <= ranges@[k].start
                        && ranges@[k].clear_of(free.start, free.end),
                forall|k: int, j: int|
                    0 <= k < j < i ==> (#[trigger] ranges@[k]).disjoint_from(#[trigger] ranges@[j]),
            decreases n - i,
        {
            let r = ranges[i];
            if !(r.start <= r.end && (r.end - r.start) % STRIDE == 0 && diff <= r.start) {
                return None;
            }
            if !(r.end <= free.start || free.end <= r.start || r.start == r.end || free.start
                >= free.end) {
                return None;
            }
            let mut k: usize = 0;
            while k < i
                invariant
                    n == ranges@.len(),
                    i < n,
                    k <= i,
                    r == ranges@[i as int],
                    forall|m: int| 0 <= m < k ==> (#[trigger] ranges@[m]).disjoint_from(r),
                decreases i - k,
            {
                let q = ranges[k];
                if !(q.end <= r.start || r.end <= q.start || q.start == q.end || r.start == r.end) {
                    assert(!ranges@[k as int].disjoint_from(ranges@[i as int]));
                    return None;
                }
                k += 1;
            }
            i += 1;
        }
        Some(AddressTable { ranges, free, diff })
    }

    /// The configuration of the image this tool was written for.
    pub fn standard() -> (t: AddressTable)
        ensures
            t.wf(),
            t.ranges@ == standard_ranges(),
            t.diff == 0x1FFC000,
            t.free == (FreeRegion { start: 0x02106ad8, end: 0x0213e3a8 }),
    {
        let mut ranges: Vec<AddressRange> = Vec::new();
        ranges.push(AddressRange { start: 0x020d0938, end: 0x020d4770 });
        ranges.push(AddressRange { start: 0x020d725c, end: 0x020d8de4 });
        ranges.push(AddressRange { start: 0x020db1d4, end: 0x020dc954 });
        ranges.push(AddressRange { start: 0x020dee2c, end: 0x020e05d4 });
        ranges.push(AddressRange { start: 0x020e3050, end: 0x020e4a88 });
        ranges.push(AddressRange { start: 0x020e81c8, end: 0x020ea460 });
        ranges.push(AddressRange { start: 0x020ebdd0, end: 0x020ecd78 });
        ranges.push(AddressRange { start: 0x020ee6ec, end: 0x020ef684 });
        ranges.push(AddressRange { start: 0x020f0e40, end: 0x020f1cd8 });
        ranges.push(AddressRange { start: 0x020f3348, end: 0x020f4150 });
        ranges.push(AddressRange { start: 0x020f5988, end: 0x020f67e8 });
        let free = FreeRegion { start: 0x02106ad8, end: 0x0213e3a8 };
        assert(ranges@ =~= standard_ranges());
        AddressTable { ranges, free, diff: 0x1FFC000 }
    }

    /// Bytes the free region can hold.
    pub fn free_capacity(&self) -> (r: u32)
        requires
            self.wf(),
        ensures
            r == self.free.capacity(),
    {
        self.free.end - self.free.start
    }

    /// Every slot address, table after table, each table in ascending order.
    pub fn slot_addresses(&self) -> (r: Vec<u32>)
        requires
            self.wf(),
        ensures
            r@ == self.slots(),
    {
        let mut out: Vec<u32> = Vec::new();
        let mut i: usize = 0;
        while i < self.ranges.len()
            invariant
                self.wf(),
                i <= self.ranges@.len(),
                out@ == all_slots(self.ranges@.subrange(0, i as int)),
            decreases self.ranges@.len() - i,
        {
            let mut part = self.ranges[i].slot_addresses();
            proof {
                let upto = self.ranges@.subrange(0, i + 1);
                assert(upto.drop_last() =~= self.ranges@.subrange(0, i as int));
                assert(upto.last() == self.ranges@[i as int]);
            }
            out.append(&mut part);
            i += 1;
        }
        assert(self.ranges@.subrange(0, i as int) =~= self.ranges@);
        out
    }
}

/// `x` is a slot of the table: at or above its start, below its end, and a
/// whole number of strides from its start.
pub open spec fn is_slot_of(r: AddressRange, x: u32) -> bool {
    r.start <= x < r.end && (x - r.start) % 8 == 0
}

/// The slots of a table are the addresses from its start, stride by
/// stride, below its end; the end itself is none.
pub proof fn lemma_range_slots(r: AddressRange, x: u32)
    requires
        r.wf(),
    ensures
        r.slots().contains(x) <==> is_slot_of(r, x),
        !r.slots().contains(r.end),
{
    if is_slot_of(r, x) {
        let j = (x - r.start) / 8;
        assert(r.slots()[j] == x);
    }
    if r.slots().contains(x) {
        let j = choose|j: int| 0 <= j < r.slots().len() && r.slots()[j] == x;
        assert(x == r.start + 8 * j);
    }
    if r.slots().contains(r.end) {
        let j = choose|j: int| 0 <= j < r.slots().len() && r.slots()[j] == r.end;
        assert(r.end == r.start + 8 * j);
    }
}

/// An address is visited by the traversal exactly where it is a slot of
/// one of the tables.
pub proof fn lemma_slot_membership(ranges: Seq<AddressRange>, x: u32)
    requires
        forall|i: int| 0 <= i < ranges.len() ==> (#[trigger] ranges[i]).wf(),
    ensures
        all_slots(ranges).contains(x) <==> exists|i: int|
            0 <= i < ranges.len() && is_slot_of(#[trigger] ranges[i], x),
    decreases ranges.len(),
{
    if ranges.len() > 0 {
        let head = ranges.drop_last();
        let last = ranges.last();
        let a = all_slots(head);
        let b = last.slots();
        lemma_slot_membership(head, x);
        assert(last.wf());
        lemma_range_slots(last, x);
        if (a + b).contains(x) {
            let p = choose|p: int| 0 <= p < (a + b).len() && (a + b)[p] == x;
            if p < a.len() {
                assert(a[p] == x);
                let i = choose|i: int| 0 <= i < head.len() && is_slot_of(#[trigger] head[i], x);
                assert(ranges[i] == head[i]);
            } else {
                assert(b[p - a.len()] == x);
                assert(ranges[ranges.len() - 1] == last);
            }
        }
        if exists|i: int| 0 <= i < ranges.len() && is_slot_of(#[trigger] ranges[i], x) {
            let i = choose|i: int| 0 <= i < ranges.len() && is_slot_of(#[trigger] ranges[i], x);
            if i < head.len() {
                assert(head[i] == ranges[i]);
                let p = choose|p: int| 0 <= p < a.len() && a[p] == x;
                assert((a + b)[p] == x);
            } else {
                let q = choose|q: int| 0 <= q < b.len() && b[q] == x;
                assert((a + b)[a.len() + q] == x);
            }
        }
    }
}

/// The slots of table number `i` stand together in the traversal, in
/// ascending order, right after the slots of the tables before it.
pub proof fn lemma_range_in_traversal(ranges: Seq<AddressRange>, i: int, j: int)
    requires
        0 <= i < ranges.len(),
        0 <= j < ranges[i].slot_count(),
    ensures
        all_slots(ranges.subrange(0, i)).len() + j < all_slots(ranges).len(),
        all_slots(ranges)[all_slots(ranges.subrange(0, i)).len() + j] == ranges[i].start + 8 * j,
    decreases ranges.len(),
{
    let head = ranges.drop_last();
    if i == ranges.len() - 1 {
        assert(ranges.subrange(0, i) =~= head);
        assert(ranges.last().slots()[j] == ranges[i].start + 8 * j);
    } else {
        lemma_range_in_traversal(head, i, j);
        assert(head.subrange(0, i) =~= ranges.subrange(0, i));
        assert(head[i] == ranges[i]);
    }
}

/// `x` is the address of a whole slot of one of the tables.
pub open spec fn in_some_range(ranges: Seq<AddressRange>, x: u32) -> bool {
    exists|i: int| 0 <= i < ranges.len() && (#[trigger] ranges[i]).start <= x && x + 8 <= ranges[i].end
}

/// Every address of the traversal is that of a whole slot of one of the
/// tables.
pub proof fn lemma_slot_in_some_range(ranges: Seq<AddressRange>, k: int)
    requires
        forall|i: int| 0 <= i < ranges.len() ==> (#[trigger] ranges[i]).wf(),
        0 <= k < all_slots(ranges).len(),
    ensures
        in_some_range(ranges, all_slots(ranges)[k]),
    decreases ranges.len(),
{
    let head = ranges.drop_last();
    let last = ranges.last();
    if k < all_slots(head).len() {
        lemma_slot_in_some_range(head, k);
        let i = choose|i: int|
            0 <= i < head.len() && (#[trigger] head[i]).start <= all_slots(head)[k] && all_slots(
                head,
            )[k] + 8 <= head[i].end;
        assert(ranges[i] == head[i]);
    } else {
        let j = k - all_slots(head).len();
        assert(last.wf());
        assert(all_slots(ranges)[k] == last.slots()[j]);
        assert(ranges[ranges.len() - 1] == last);
    }
}

/// Any two slots of the traversal of tables that share no byte lie at least
/// a whole slot apart.
pub proof fn lemma_all_slots_apart(ranges: Seq<AddressRange>)
    requires
        forall|i: int| 0 <= i < ranges.len() ==> (#[trigger] ranges[i]).wf(),
        pairwise_disjoint(ranges),
    ensures
        forall|p: int, q: int|
            0 <= p < q < all_slots(ranges).len() ==> {
                ||| (#[trigger] all_slots(ranges)[p]) + 8 <= (#[trigger] all_slots(ranges)[q])
                ||| all_slots(ranges)[q] + 8 <= all_slots(ranges)[p]
            },
    decreases ranges.len(),
{
    if ranges.len() > 0 {
        let head = ranges.drop_last();
        let last = ranges.last();
        lemma_all_slots_apart(head);
        let a = all_slots(head);
        let b = last.slots();
        assert(last.wf());
        assert forall|p: int, q: int| 0 <= p < q < (a + b).len() implies {
            ||| (#[trigger] (a + b)[p]) + 8 <= (#[trigger] (a + b)[q])
            ||| (a + b)[q] + 8 <= (a + b)[p]
        } by {
            if q < a.len() {
                assert((a + b)[p] == a[p] && (a + b)[q] == a[q]);
            } else if p >= a.len() {
            } else {
                lemma_slot_in_some_range(head, p);
                let i = choose|i: int|
                    0 <= i < head.len() && (#[trigger] head[i]).start <= a[p] && a[p] + 8
                        <= head[i].end;
                assert(ranges[i] == head[i]);
                assert(ranges[ranges.len() - 1] == last);
                assert(ranges[i].disjoint_from(ranges[ranges.len() - 1]));
                let y = b[q - a.len()];
                assert(last.start <= y && y + 8 <= last.end);
            }
        }
    }
}

/// No address occurs twice in the traversal of tables that share no byte.
pub proof fn lemma_all_slots_distinct(ranges: Seq<AddressRange>)
    requires
        forall|i: int| 0 <= i < ranges.len() ==> (#[trigger] ranges[i]).wf(),
        pairwise_disjoint(ranges),
    ensures
        all_slots(ranges).no_duplicates(),
{
    lemma_all_slots_apart(ranges);
}

/// A slot of a usable table lies at or above `diff` and shares no byte with
/// the free region.
pub proof fn lemma_slot_clear_of_free(table: AddressTable, k: int)
    requires
        table.wf(),
        0 <= k < table.slots().len(),
    ensures
        table.diff <= table.slots()[k],
        table.slots()[k] + 8 <= u32::MAX,
        table.slots()[k] + 8 <= table.free.start || table.free.end <= table.slots()[k]
            || table.free.start == table.free.end,
{
    lemma_slot_in_some_range(table.ranges@, k);
    let i = choose|i: int|
        0 <= i < table.ranges@.len() && (#[trigger] table.ranges@[i]).start <= table.slots()[k]
            && table.slots()[k] + 8 <= table.ranges@[i].end;
    assert(table.ranges@[i].clear_of(table.free.start, table.free.end));
}

/// A table whose two ends coincide has no slot.
pub proof fn lemma_empty_range_has_no_slots(r: AddressRange)
    requires
        r.start == r.end,
    ensures
        r.slots() == Seq::<u32>::empty(),
        r.slot_count() == 0,
{
    assert(r.slots() =~= Seq::<u32>::empty());
}

/// Adding a table whose two ends coincide adds no slot to the traversal.
pub proof fn lemma_empty_range_adds_no_slot(ranges: Seq<AddressRange>, r: AddressRange)
    requires
        r.start == r.end,
    ensures
        all_slots(ranges.push(r)) == all_slots(ranges),
{
    lemma_empty_range_has_no_slots(r);
    assert(ranges.push(r).drop_last() =~= ranges);
    assert(all_slots(ranges) + Seq::<u32>::empty() =~= all_slots(ranges));
}

} // verus!
