use std::sync::Arc;
use virmem::{MemError, MemProp, Segment, VirMem};

#[test]
fn virtual_mem_test_behavior() {
    let prop = MemProp::new(0, 4096, 65536);
    let minimum = prop.granularity_minimum();
    let recommended = prop.granularity_recommended();
    assert!(minimum <= recommended);

    // a larger virtual address region
    let mut virmem = VirMem::new(10 * minimum, 0);
    // a smaller physical page
    let phymem = prop.create(minimum);
    // bind it
    let mapped = virmem.map(minimum, phymem.clone()).unwrap();
    assert_eq!(mapped.start, minimum);
    assert_eq!(mapped.len, minimum);
    assert!(mapped.mapped);

    // another virtual address region, with the same physical page mapped in
    let mut virmem2 = VirMem::new(2 * minimum, 0);
    let mapped2 = virmem2.map(minimum, phymem.clone()).unwrap();
    assert_eq!(mapped2.len, minimum);

    // the one physical page is held here and by both region tables
    assert_eq!(Arc::strong_count(&phymem), 3);
}

#[test]
fn map_unmap_literal_tables() {
    let prop = MemProp::new(0, 4096, 4096);
    let mut vm = VirMem::new(40960, 0);
    let phy = prop.create(4096);
    vm.map(4096, phy.clone()).unwrap();
    assert_eq!(
        vm.segments(),
        vec![
            Segment { start: 0, len: 4096, mapped: false },
            Segment { start: 4096, len: 4096, mapped: true },
            Segment { start: 8192, len: 32768, mapped: false },
        ]
    );
    let back = vm.unmap(4096).unwrap();
    assert_eq!(back.len(), 4096);
    assert!(!back.is_empty());
    // three distinct vacant entries: no coalescing
    assert_eq!(
        vm.segments(),
        vec![
            Segment { start: 0, len: 4096, mapped: false },
            Segment { start: 4096, len: 4096, mapped: false },
            Segment { start: 8192, len: 32768, mapped: false },
        ]
    );
}

#[test]
fn round_trip_keeps_split() {
    let prop = MemProp::new(0, 4096, 4096);
    let mut vm = VirMem::new(16384, 0);
    let before = vm.segments();
    assert_eq!(before, vec![Segment { start: 0, len: 16384, mapped: false }]);
    let phy = prop.create(4096);
    vm.map(8192, phy).unwrap();
    vm.unmap(8192).unwrap();
    // the same bytes are vacant as before, but the split boundaries stay
    assert_eq!(
        vm.segments(),
        vec![
            Segment { start: 0, len: 8192, mapped: false },
            Segment { start: 8192, len: 4096, mapped: false },
            Segment { start: 12288, len: 4096, mapped: false },
        ]
    );
}

#[test]
fn exact_fit_leaves_single_entry() {
    let prop = MemProp::new(0, 4096, 4096);
    let mut vm = VirMem::new(4096, 0);
    let phy = prop.create(4096);
    vm.map(0, phy).unwrap();
    assert_eq!(vm.segments(), vec![Segment { start: 0, len: 4096, mapped: true }]);
}

#[test]
fn interior_split_lengths_sum() {
    let prop = MemProp::new(0, 4096, 4096);
    let mut vm = VirMem::new(40960, 0);
    let phy = prop.create(8192);
    vm.map(12288, phy).unwrap();
    let segs = vm.segments();
    assert_eq!(segs.len(), 3);
    assert_eq!(segs[0], Segment { start: 0, len: 12288, mapped: false });
    assert_eq!(segs[1], Segment { start: 12288, len: 8192, mapped: true });
    assert_eq!(segs[2], Segment { start: 20480, len: 20480, mapped: false });
    // lead + mapped + trail cover the original vacant segment exactly
    assert_eq!(segs[0].len + segs[1].len + segs[2].len, 40960);
}

#[test]
fn unmap_not_boundary_fails() {
    let mut vm = VirMem::new(40960, 0);
    let err = vm.unmap(5).unwrap_err();
    assert_eq!(err, MemError::NotABoundary);
    assert_eq!(err.message(), "offset is not a boundary");
    // the table is untouched
    assert_eq!(vm.segments(), vec![Segment { start: 0, len: 40960, mapped: false }]);
}

#[test]
fn unmap_vacant_boundary_fails() {
    let prop = MemProp::new(0, 4096, 4096);
    let mut vm = VirMem::new(40960, 0);
    let phy = prop.create(4096);
    vm.map(4096, phy).unwrap();
    // offset 0 starts a vacant segment
    let err = vm.unmap(0).unwrap_err();
    assert_eq!(err, MemError::NotMapped);
    assert_eq!(err.message(), "offset is not mapped");
}

#[test]
fn map_errors_are_reported() {
    let prop = MemProp::new(0, 4096, 4096);
    let mut vm = VirMem::new(8192, 0);
    // reaches past the end of the range
    let phy = prop.create(4096);
    assert_eq!(vm.map(8192, phy.clone()), Err(MemError::OutOfRange));
    let err = vm.map(4096 + 4096 / 2, phy.clone()).unwrap_err();
    assert_eq!(err, MemError::OutOfRange);
    assert_eq!(err.message(), "mem is out of range");
    // lands in an already mapped segment
    vm.map(0, phy.clone()).unwrap();
    let err = vm.map(0, phy.clone()).unwrap_err();
    assert_eq!(err, MemError::AlreadyMapped);
    assert_eq!(err.message(), "mem is mapped");
    // overruns the vacant segment it starts in
    let mut vm2 = VirMem::new(12288, 0);
    let big = prop.create(8192);
    vm2.map(8192, prop.create(4096)).unwrap();
    let err = vm2.map(4096, big).unwrap_err();
    assert_eq!(err, MemError::Oversized);
    assert_eq!(err.message(), "mem is oversized");
}

#[test]
fn shared_ownership_round_trip() {
    let prop = MemProp::new(0, 4096, 4096);
    let phy = prop.create(4096);
    let mut a = VirMem::new(8192, 0);
    let mut b = VirMem::new(16384, 0);
    a.map(0, phy.clone()).unwrap();
    b.map(4096, phy.clone()).unwrap();
    // held here and by both tables
    assert_eq!(Arc::strong_count(&phy), 3);
    let from_a = a.unmap(0).unwrap();
    assert!(Arc::ptr_eq(&from_a, &phy));
    drop(from_a);
    assert_eq!(Arc::strong_count(&phy), 2);
    let from_b = b.unmap(4096).unwrap();
    assert!(Arc::ptr_eq(&from_b, &phy));
    drop(from_b);
    // only the caller's reference is left: the block may now be released
    assert_eq!(Arc::strong_count(&phy), 1);
}

#[test]
fn teardown_unmaps_everything() {
    let prop = MemProp::new(0, 4096, 4096);
    let phy1 = prop.create(4096);
    let phy2 = prop.create(4096);
    let mut vm = VirMem::new(40960, 0);
    vm.map(0, phy1.clone()).unwrap();
    vm.map(8192, phy2.clone()).unwrap();
    let handles = vm.unmap_all();
    // every mapped entry was unmapped, in ascending offset order
    assert_eq!(handles.len(), 2);
    assert!(Arc::ptr_eq(&handles[0], &phy1));
    assert!(Arc::ptr_eq(&handles[1], &phy2));
    assert_eq!(
        vm.segments(),
        vec![
            Segment { start: 0, len: 4096, mapped: false },
            Segment { start: 4096, len: 4096, mapped: false },
            Segment { start: 8192, len: 4096, mapped: false },
            Segment { start: 12288, len: 28672, mapped: false },
        ]
    );
    // the table's references are gone; other owners keep theirs
    drop(handles);
    assert_eq!(Arc::strong_count(&phy1), 1);
    assert_eq!(Arc::strong_count(&phy2), 1);
}

#[test]
fn physical_handle_reports_its_length() {
    let prop = MemProp::new(0, 4096, 4096);
    let phy = prop.create(12288);
    assert_eq!(phy.len(), 12288);
    assert!(!phy.is_empty());
    assert_eq!(phy.device_id, 0);
}

#[test]
fn map_walks_to_the_right_segment() {
    let prop = MemProp::new(0, 4096, 4096);
    let mut vm = VirMem::new(24576, 0);
    vm.map(8192, prop.create(4096)).unwrap();
    vm.map(16384, prop.create(4096)).unwrap();
    assert_eq!(
        vm.segments(),
        vec![
            Segment { start: 0, len: 8192, mapped: false },
            Segment { start: 8192, len: 4096, mapped: true },
            Segment { start: 12288, len: 4096, mapped: false },
            Segment { start: 16384, len: 4096, mapped: true },
            Segment { start: 20480, len: 4096, mapped: false },
        ]
    );
    // an exact fit into the first vacant segment replaces it in place
    vm.map(0, prop.create(8192)).unwrap();
    let segs = vm.segments();
    assert_eq!(segs.len(), 5);
    assert_eq!(segs[0], Segment { start: 0, len: 8192, mapped: true });
}
