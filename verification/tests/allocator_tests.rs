use wasabi::Error;
use wasabi::allocator::{FirstFitAllocator, HEADER_SIZE, round_up_to_nearest_pow2};
use wasabi::uefi::{EfiMemoryDescriptor, EfiMemoryType, MemoryMapHolder};

fn conventional(start: u64, pages: u64) -> EfiMemoryDescriptor {
    EfiMemoryDescriptor::new(EfiMemoryType::CONVENTIONAL_MEMORY, start, 0, pages, 0)
}

#[test]
fn round_up_to_nearest_pow2_values() {
    assert_eq!(round_up_to_nearest_pow2(5), Ok(8));
    assert_eq!(round_up_to_nearest_pow2(9), Ok(16));
    assert_eq!(round_up_to_nearest_pow2(1), Ok(1));
    assert_eq!(round_up_to_nearest_pow2(4096), Ok(4096));
    assert_eq!(round_up_to_nearest_pow2(4097), Ok(8192));
}

#[test]
fn round_up_to_nearest_pow2_zero_fails() {
    // Pinned behavior: a zero-sized request is rejected.
    assert_eq!(round_up_to_nearest_pow2(0), Err(Error::OutOfRange));
}

#[test]
fn round_up_to_nearest_pow2_overflow() {
    assert_eq!(round_up_to_nearest_pow2(usize::MAX), Err(Error::OutOfRange));
    assert_eq!(round_up_to_nearest_pow2((1 << 63) + 1), Err(Error::OutOfRange));
    assert_eq!(round_up_to_nearest_pow2(1 << 63), Ok(1 << 63));
}

#[test]
fn register_region_prepends_and_trims() {
    let mut a = FirstFitAllocator::new();
    a.add_free_from_descriptor(&conventional(0x10000, 16));
    assert_eq!(a.num_headers(), 1);
    let h = a.header_at(0);
    assert_eq!(h.addr, 0x10000);
    assert_eq!(h.size, 16 * 4096);
    assert!(!h.is_allocated);

    // A region starting at physical address 0 gives up its first page.
    a.add_free_from_descriptor(&conventional(0, 4));
    assert_eq!(a.num_headers(), 2);
    let h0 = a.header_at(0);
    assert_eq!(h0.addr, 4096);
    assert_eq!(h0.size, 3 * 4096);

    // Regions of at most one page are discarded.
    a.add_free_from_descriptor(&conventional(0x90000, 1));
    a.add_free_from_descriptor(&conventional(0, 2));
    assert_eq!(a.num_headers(), 2);
}

#[test]
fn init_with_mmap_keeps_donated_total() {
    // The sum of all header sizes equals the donated bytes minus the
    // first-page carve-out of the region at address 0.
    let mut mm = MemoryMapHolder::new();
    mm.push_descriptor(conventional(0x100000, 8));
    mm.push_descriptor(EfiMemoryDescriptor::new(
        EfiMemoryType::MEMORY_MAPPED_IO,
        0x200000,
        0,
        8,
        0,
    ));
    mm.push_descriptor(conventional(0, 4));
    mm.push_descriptor(conventional(0x300000, 2));
    let mut a = FirstFitAllocator::new();
    a.init_with_mmap(&mm);
    // Reverse registration order: last donating region first.
    assert_eq!(a.num_headers(), 3);
    assert_eq!(a.header_at(0).addr, 0x300000);
    assert_eq!(a.header_at(1).addr, 4096);
    assert_eq!(a.header_at(2).addr, 0x100000);
    let total: usize = (0..a.num_headers()).map(|i| a.header_at(i).size).sum();
    assert_eq!(total, 8 * 4096 + 3 * 4096 + 2 * 4096);
}

#[test]
fn alloc_carves_from_end_of_block() {
    let mut a = FirstFitAllocator::new();
    a.add_free_from_descriptor(&conventional(0x10000, 16));
    let p = a.alloc_with_options(100, 8).expect("allocation should succeed");
    // 100 bytes round to 128; carved flush against the end of the block.
    assert_eq!(p, 0x20000 - 128);
    assert_eq!(p % HEADER_SIZE, 0);
    assert_eq!(a.num_headers(), 2);
    let free = a.header_at(0);
    let used = a.header_at(1);
    assert!(!free.is_allocated);
    assert!(used.is_allocated);
    assert_eq!(used.addr, p - HEADER_SIZE);
    assert_eq!(used.size, 128 + HEADER_SIZE);
    assert_eq!(free.size + used.size, 16 * 4096);
}

#[test]
fn alloc_respects_alignment_with_padding() {
    let mut a = FirstFitAllocator::new();
    a.add_free_from_descriptor(&conventional(0x10000, 16));
    let p = a.alloc_with_options(100, 4096).expect("allocation should succeed");
    assert_eq!(p % 4096, 0);
    // Aligning down leaves slack at the end: a free padding block follows.
    assert_eq!(a.num_headers(), 3);
    assert!(!a.header_at(0).is_allocated);
    assert!(a.header_at(1).is_allocated);
    assert!(!a.header_at(2).is_allocated);
    let total: usize = (0..a.num_headers()).map(|i| a.header_at(i).size).sum();
    assert_eq!(total, 16 * 4096);
}

#[test]
fn alloc_advances_past_unsuitable_headers() {
    // The first block is too small for the request; the walk advances past
    // it and succeeds from a later block.
    let mut a = FirstFitAllocator::new();
    a.add_free_from_descriptor(&conventional(0x100000, 16));
    a.add_free_from_descriptor(&conventional(0x10000, 2));
    assert_eq!(a.header_at(0).addr, 0x10000);
    let p = a.alloc_with_options(8192, 8).expect("allocation should succeed");
    assert!(p >= 0x100000 && p < 0x100000 + 16 * 4096);
}

#[test]
fn alloc_too_large_fails_without_corrupting_list() {
    let mut a = FirstFitAllocator::new();
    a.add_free_from_descriptor(&conventional(0x100000, 16));
    a.add_free_from_descriptor(&conventional(0x10000, 2));
    let before: Vec<_> = (0..a.num_headers()).map(|i| a.header_at(i)).collect();
    assert_eq!(a.alloc_with_options(1 << 20, 8), None);
    // The list is fully walkable and unchanged.
    let after: Vec<_> = (0..a.num_headers()).map(|i| a.header_at(i)).collect();
    assert_eq!(before, after);
}

#[test]
fn live_allocations_never_overlap() {
    let mut a = FirstFitAllocator::new();
    a.add_free_from_descriptor(&conventional(0x100000, 64));
    let mut live: Vec<(usize, usize)> = Vec::new();
    let sizes = [100usize, 4000, 17, 512, 9000, 33];
    for (k, &sz) in sizes.iter().enumerate() {
        let p = a.alloc_with_options(sz, 8).expect("allocation should succeed");
        live.push((p, sz));
        if k == 2 {
            let (q, _) = live.remove(1);
            a.dealloc(q);
        }
    }
    for i in 0..live.len() {
        for j in 0..live.len() {
            if i != j {
                let (pi, si) = live[i];
                let (pj, sj) = live[j];
                assert!(pi + si <= pj || pj + sj <= pi, "live allocations overlap");
            }
        }
    }
}

#[test]
fn dealloc_marks_block_free_and_keeps_total() {
    let mut a = FirstFitAllocator::new();
    a.add_free_from_descriptor(&conventional(0x10000, 16));
    let p = a.alloc_with_options(256, 8).expect("allocation should succeed");
    let total_before: usize = (0..a.num_headers()).map(|i| a.header_at(i).size).sum();
    a.dealloc(p);
    assert_eq!(a.num_headers(), 2);
    assert!(!a.header_at(1).is_allocated);
    let total_after: usize = (0..a.num_headers()).map(|i| a.header_at(i).size).sum();
    assert_eq!(total_before, total_after);
    // No merging happens: the freed block keeps its own header.
    assert_eq!(a.header_at(1).addr, p - HEADER_SIZE);
}

#[test]
fn memory_map_iterator_walks_in_order() {
    let mut mm = MemoryMapHolder::new();
    mm.push_descriptor(conventional(0x1000, 1));
    mm.push_descriptor(conventional(0x2000, 2));
    let mut it = mm.iter();
    assert_eq!(it.next().map(|d| d.physical_start()), Some(0x1000));
    assert_eq!(it.next().map(|d| d.number_of_pages()), Some(2));
    assert!(it.next().is_none());
    assert!(it.next().is_none());
}

#[test]
fn memory_type_from_code_decodes() {
    assert_eq!(EfiMemoryType::from_code(7), EfiMemoryType::CONVENTIONAL_MEMORY);
    assert_eq!(EfiMemoryType::from_code(0), EfiMemoryType::RESERVED);
    assert_eq!(EfiMemoryType::from_code(11), EfiMemoryType::MEMORY_MAPPED_IO);
    assert_eq!(EfiMemoryType::from_code(14), EfiMemoryType::PERSISTENT_MEMORY);
    assert_eq!(EfiMemoryType::from_code(99), EfiMemoryType::RESERVED);
}
