use wasabi::Error;
use wasabi::allocator::FirstFitAllocator;
use wasabi::paging::{PML4, PageAttr, Table};
use wasabi::uefi::{EfiMemoryDescriptor, EfiMemoryType};

fn allocator_with(pages: u64) -> FirstFitAllocator {
    let mut a = FirstFitAllocator::new();
    let d = EfiMemoryDescriptor::new(EfiMemoryType::CONVENTIONAL_MEMORY, 0x100000, 0, pages, 0);
    a.add_free_from_descriptor(&d);
    a
}

fn count_present(t: &Table) -> usize {
    let mut n = 0;
    for i in 0..512 {
        if t.entry(i).is_present() {
            n += 1;
        }
    }
    n
}

fn index_of(va: u64, shift: u32) -> usize {
    ((va >> shift) & 0x1FF) as usize
}

#[test]
fn fresh_tree_has_no_present_entries() {
    let mut a = allocator_with(64);
    let pml4 = PML4::new(&mut a).expect("table node allocation should succeed");
    for i in 0..512 {
        assert!(!pml4.entry(i).is_present());
        assert_eq!(pml4.entry(i).read_value(), 0);
        assert!(pml4.next_level(i).is_none());
    }
}

#[test]
fn single_page_mapping_walks_to_the_leaf() {
    let mut a = allocator_with(64);
    let mut pml4 = PML4::new(&mut a).expect("table node allocation should succeed");
    let va: u64 = 0x4000_0000;
    let pa: u64 = 0x20_0000;
    pml4.create_mapping(&mut a, va, va + 4096, pa, PageAttr::ReadWriteKernel)
        .expect("mapping should succeed");

    // Every intermediate level shows exactly one present entry on the path.
    let t3 = pml4.next_level(index_of(va, 39)).expect("level 3 table");
    let t2 = t3.next_level(index_of(va, 30)).expect("level 2 table");
    let t1 = t2.next_level(index_of(va, 21)).expect("level 1 table");
    let mut root_present = 0;
    for i in 0..512 {
        if pml4.entry(i).is_present() {
            root_present += 1;
        }
    }
    assert_eq!(root_present, 1);
    assert_eq!(count_present(t3), 1);
    assert_eq!(count_present(t2), 1);
    assert_eq!(count_present(t1), 1);

    // The leaf decodes back to the requested frame, present and writable.
    let leaf = t1.entry(index_of(va, 12));
    assert!(leaf.is_present());
    assert!(leaf.is_writable());
    assert!(!leaf.is_user());
    assert_eq!(leaf.read_value() & 0xFFFF_FFFF_FFFF_F000, pa);
}

#[test]
fn mapping_across_level1_boundary_fills_two_tables() {
    let mut a = allocator_with(64);
    let mut pml4 = PML4::new(&mut a).expect("table node allocation should succeed");
    // 513 consecutive pages starting at the last slot of one level-1 table.
    let va: u64 = 511 * 4096;
    let end: u64 = va + 513 * 4096;
    let pa: u64 = 0x80_0000;
    pml4.create_mapping(&mut a, va, end, pa, PageAttr::ReadWriteKernel)
        .expect("mapping should succeed");

    let t3 = pml4.next_level(index_of(va, 39)).expect("level 3 table");
    let t2 = t3.next_level(index_of(va, 30)).expect("level 2 table");
    // Two level-1 tables under the same level-2 table, in adjacent slots.
    assert_eq!(count_present(t2), 2);
    let first = t2.next_level(0).expect("first level 1 table");
    let second = t2.next_level(1).expect("second level 1 table");
    assert_eq!(count_present(first), 1);
    assert_eq!(count_present(second), 512);
    // Each half is indexed for its part of the range.
    let e0 = first.entry(511);
    assert!(e0.is_present());
    assert_eq!(e0.read_value() & 0xFFFF_FFFF_FFFF_F000, pa);
    let e1 = second.entry(0);
    assert_eq!(e1.read_value() & 0xFFFF_FFFF_FFFF_F000, pa + 4096);
    let e_last = second.entry(511);
    assert_eq!(e_last.read_value() & 0xFFFF_FFFF_FFFF_F000, pa + 512 * 4096);
}

#[test]
fn io_attribute_sets_write_through_and_cache_disable() {
    let mut a = allocator_with(64);
    let mut pml4 = PML4::new(&mut a).expect("table node allocation should succeed");
    let va: u64 = 0x8000_0000;
    pml4.create_mapping(&mut a, va, va + 4096, 0x30_0000, PageAttr::ReadWriteIo)
        .expect("mapping should succeed");
    let t3 = pml4.next_level(index_of(va, 39)).unwrap();
    let t2 = t3.next_level(index_of(va, 30)).unwrap();
    let t1 = t2.next_level(index_of(va, 21)).unwrap();
    let v = t1.entry(index_of(va, 12)).read_value();
    assert_eq!(v & 0x1B, 0x1B);
    assert_eq!(v & 0xFFFF_FFFF_FFFF_F000, 0x30_0000);
}

#[test]
fn not_present_attribute_writes_an_absent_leaf() {
    let mut a = allocator_with(64);
    let mut pml4 = PML4::new(&mut a).expect("table node allocation should succeed");
    let va: u64 = 0x1000_0000;
    pml4.create_mapping(&mut a, va, va + 4096, 0x40_0000, PageAttr::NotPresent)
        .expect("mapping should succeed");
    let t3 = pml4.next_level(index_of(va, 39)).unwrap();
    let t2 = t3.next_level(index_of(va, 30)).unwrap();
    let t1 = t2.next_level(index_of(va, 21)).unwrap();
    let leaf = t1.entry(index_of(va, 12));
    assert!(!leaf.is_present());
    assert_eq!(leaf.read_value(), 0x40_0000);
}

#[test]
fn remapping_a_leaf_silently_overwrites() {
    // Pinned behavior: an already-mapped leaf entry is overwritten.
    let mut a = allocator_with(64);
    let mut pml4 = PML4::new(&mut a).expect("table node allocation should succeed");
    let va: u64 = 0x4000_0000;
    pml4.create_mapping(&mut a, va, va + 4096, 0x10_0000, PageAttr::ReadWriteKernel).unwrap();
    pml4.create_mapping(&mut a, va, va + 4096, 0x50_0000, PageAttr::ReadWriteKernel).unwrap();
    let t3 = pml4.next_level(index_of(va, 39)).unwrap();
    let t2 = t3.next_level(index_of(va, 30)).unwrap();
    let t1 = t2.next_level(index_of(va, 21)).unwrap();
    let leaf = t1.entry(index_of(va, 12));
    assert_eq!(leaf.read_value() & 0xFFFF_FFFF_FFFF_F000, 0x50_0000);
}

#[test]
fn empty_range_maps_nothing() {
    let mut a = allocator_with(64);
    let mut pml4 = PML4::new(&mut a).expect("table node allocation should succeed");
    pml4.create_mapping(&mut a, 0x4000_0000, 0x4000_0000, 0x10_0000, PageAttr::ReadWriteKernel)
        .expect("empty mapping should succeed");
    for i in 0..512 {
        assert!(!pml4.entry(i).is_present());
    }
}

#[test]
fn unaligned_physical_base_is_rejected() {
    let mut a = allocator_with(64);
    let mut pml4 = PML4::new(&mut a).expect("table node allocation should succeed");
    let r = pml4.create_mapping(&mut a, 0x4000_0000, 0x4000_1000, 0x20_0123, PageAttr::ReadWriteKernel);
    assert_eq!(r, Err(Error::NotAligned));
    for i in 0..512 {
        assert!(!pml4.entry(i).is_present());
    }
}

#[test]
fn table_allocation_failure_is_out_of_memory() {
    let mut empty = FirstFitAllocator::new();
    assert!(matches!(PML4::new(&mut empty), Err(Error::OutOfMemory)));

    // Room for the root table only: the descent runs out of memory.
    let mut small = FirstFitAllocator::new();
    let d = EfiMemoryDescriptor::new(EfiMemoryType::CONVENTIONAL_MEMORY, 0x10000, 0, 3, 0);
    small.add_free_from_descriptor(&d);
    let mut pml4 = PML4::new(&mut small).expect("root table should fit");
    let r = pml4.create_mapping(&mut small, 0x4000_0000, 0x4000_1000, 0, PageAttr::ReadWriteKernel);
    assert_eq!(r, Err(Error::OutOfMemory));
}

#[test]
fn table_nodes_come_from_the_allocator() {
    let mut a = allocator_with(64);
    let headers_before = a.num_headers();
    let mut pml4 = PML4::new(&mut a).expect("table node allocation should succeed");
    let va: u64 = 0x4000_0000;
    pml4.create_mapping(&mut a, va, va + 4096, 0x20_0000, PageAttr::ReadWriteKernel).unwrap();
    // Root plus three interior tables were carved out of the heap.
    let allocated = (0..a.num_headers()).filter(|&i| a.header_at(i).is_allocated).count();
    assert_eq!(allocated, 4);
    assert!(a.num_headers() > headers_before);
    // Every table node sits at a page-aligned allocator payload.
    for i in 0..a.num_headers() {
        let h = a.header_at(i);
        if h.is_allocated {
            assert_eq!((h.addr + 32) % 4096, 0);
        }
    }
}

#[test]
fn calc_index_extracts_nine_bit_slices() {
    let t4 = Table::new_table(4, 0);
    let t3 = Table::new_table(3, 0);
    let t2 = Table::new_table(2, 0);
    let t1 = Table::new_table(1, 0);
    let va: u64 = 0x0000_7FCC_BBAA_9000;
    assert_eq!(t4.calc_index(va), ((va >> 39) & 0x1FF) as usize);
    assert_eq!(t3.calc_index(va), ((va >> 30) & 0x1FF) as usize);
    assert_eq!(t2.calc_index(va), ((va >> 21) & 0x1FF) as usize);
    assert_eq!(t1.calc_index(va), ((va >> 12) & 0x1FF) as usize);
}

#[test]
fn set_page_checks_alignment() {
    let mut e = wasabi::paging::Entry { value: 0, child: None };
    assert_eq!(e.set_page(0x1234, PageAttr::ReadWriteKernel), Err(Error::NotAligned));
    assert_eq!(e.read_value(), 0);
    assert_eq!(e.set_page(0x1000, PageAttr::ReadWriteKernel), Ok(()));
    assert_eq!(e.read_value(), 0x1003);
    assert!(e.is_present());
    assert!(e.is_writable());
}

#[test]
fn ensure_populated_rejects_a_leaf_in_a_table_slot() {
    // A present entry that owns no child is a leaf sitting where a child
    // table is structurally expected.
    let mut a = allocator_with(64);
    let mut leaf_like = wasabi::paging::Entry { value: 0x7000 | 3, child: None };
    assert_eq!(leaf_like.ensure_populated(&mut a, 1), Err(Error::AlreadyPopulated));
    assert_eq!(leaf_like.read_value(), 0x7003);

    // An absent entry gets a fresh, zeroed, present and writable child.
    let mut absent = wasabi::paging::Entry { value: 0, child: None };
    assert_eq!(absent.ensure_populated(&mut a, 1), Ok(()));
    assert!(absent.is_present());
    assert!(absent.is_writable());
    let child = absent.child.as_ref().expect("child table");
    assert_eq!(absent.read_value() & 0xFFFF_FFFF_FFFF_F000, {
        let mut phys = 0;
        for i in 0..a.num_headers() {
            let h = a.header_at(i);
            if h.is_allocated {
                phys = (h.addr + 32) as u64;
            }
        }
        phys
    });
    assert_eq!(child.entry(0).read_value(), 0);
}
