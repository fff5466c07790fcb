use romtext::layout::{AddressRange, AddressTable, FreeRegion};

#[test]
fn range_yields_slots_at_stride_eight() {
    let r = AddressRange::new(0x1000, 0x1010).unwrap();
    assert_eq!(r.slot_addresses(), vec![0x1000, 0x1008]);
}

#[test]
fn empty_range_yields_no_slot() {
    let r = AddressRange::new(0x1000, 0x1000).unwrap();
    assert_eq!(r.slot_addresses(), Vec::<u32>::new());
}

#[test]
fn range_must_be_whole_strides() {
    assert_eq!(AddressRange::new(0x1000, 0x100c), None);
    assert_eq!(AddressRange::new(0x1010, 0x1000), None);
    assert_eq!(
        AddressRange::new(0x1004, 0x100c),
        Some(AddressRange { start: 0x1004, end: 0x100c })
    );
}

#[test]
fn table_visits_ranges_in_declared_order() {
    let ranges = vec![
        AddressRange { start: 0x3000, end: 0x3010 },
        AddressRange { start: 0x2000, end: 0x2000 },
        AddressRange { start: 0x1000, end: 0x1008 },
    ];
    let free = FreeRegion { start: 0x4000, end: 0x4100 };
    let t = AddressTable::new(ranges, free, 0x1000).unwrap();
    assert_eq!(t.slot_addresses(), vec![0x3000, 0x3008, 0x1000]);
    assert_eq!(t.free_capacity(), 0x100);
}

#[test]
fn table_rejects_overlapping_ranges() {
    let ranges = vec![
        AddressRange { start: 0x1000, end: 0x1010 },
        AddressRange { start: 0x1008, end: 0x1018 },
    ];
    let free = FreeRegion { start: 0x4000, end: 0x4100 };
    assert!(AddressTable::new(ranges, free, 0).is_none());
}

#[test]
fn table_rejects_ranges_below_the_translation_offset() {
    let ranges = vec![AddressRange { start: 0x1000, end: 0x1010 }];
    let free = FreeRegion { start: 0x4000, end: 0x4100 };
    assert!(AddressTable::new(ranges, free, 0x2000).is_none());
}

#[test]
fn table_rejects_misaligned_free_region() {
    let free = FreeRegion { start: 0x4002, end: 0x4100 };
    assert!(AddressTable::new(vec![], free, 0).is_none());
    let free = FreeRegion { start: 0x4002, end: 0x4100 };
    assert!(AddressTable::new(vec![], free, 2).is_some());
}

#[test]
fn table_rejects_free_region_over_a_table() {
    let ranges = vec![AddressRange { start: 0x1000, end: 0x1010 }];
    let free = FreeRegion { start: 0x1008, end: 0x1100 };
    assert!(AddressTable::new(ranges, free, 0).is_none());
}

#[test]
fn table_rejects_inverted_free_region() {
    let free = FreeRegion { start: 0x4100, end: 0x4000 };
    assert!(AddressTable::new(vec![], free, 0).is_none());
}

#[test]
fn standard_table_has_the_known_shape() {
    let t = AddressTable::standard();
    assert_eq!(t.ranges.len(), 11);
    assert_eq!(t.diff, 0x1FFC000);
    assert_eq!(t.free_capacity(), 0x0213e3a8 - 0x02106ad8);
    let slots = t.slot_addresses();
    assert_eq!(slots.len(), 8703);
    assert_eq!(slots[0], 0x020d0938);
    assert_eq!(slots[1], 0x020d0940);
    assert_eq!(slots[1991], 0x020d725c);
    assert_eq!(slots[8702], 0x020f67e0);
    let again = AddressTable::new(t.ranges.clone(), t.free, t.diff).unwrap();
    assert_eq!(again.slot_addresses(), slots);
}
