use hobo_os::page_manager::{
    align, allocations_done, check_descriptor_ordering, check_if_page_addr, dealloc,
    find_first_contiguous, get_heap_size, get_page_addr_from_page_index, heap_layout_fits, init_memory,
    page_in_heap, read_word, show_layout, write_word, zalloc, DescriptorValue, FullHeapLayout,
    MemoryAllocatioErrors, MemoryDeallocatioError, PageDescriptor,
};

const HEAP_START: usize = 0x8000_0000;

// A heap of twenty pages' worth of bytes: the descriptors take the first
// page, so nineteen pages remain.
fn twenty_page_heap() -> hobo_os::page_manager::PageManager {
    init_memory(HEAP_START, HEAP_START + 20 * 4096 - 1)
}

#[test]
fn align_rounds_up_to_a_boundary() {
    assert_eq!(align(0, 12), 0);
    assert_eq!(align(1, 12), 4096);
    assert_eq!(align(4095, 12), 4096);
    assert_eq!(align(4096, 12), 4096);
    assert_eq!(align(4097, 12), 8192);
    assert_eq!(align(17, 3), 24);
    assert_eq!(align(16, 3), 16);
    assert_eq!(align(0, 3), 0);
}

#[test]
fn heap_size_counts_both_ends() {
    assert_eq!(get_heap_size(100, 199), 100);
    assert_eq!(get_heap_size(5, 5), 1);
}

#[test]
fn page_addresses_are_multiples_of_the_page_size() {
    assert!(check_if_page_addr(0x8000_1000));
    assert!(!check_if_page_addr(0x8000_1008));
}

#[test]
fn init_lays_out_descriptors_then_pages() {
    let mut pm = twenty_page_heap();
    let layout = show_layout(&mut pm);
    assert_eq!(layout.heap_start, Some(HEAP_START));
    assert_eq!(layout.heap_size, Some(20 * 4096));
    assert_eq!(layout.num_of_pages, Some(19));
    assert_eq!(layout.num_of_descriptors, Some(19));
    assert_eq!(layout.alloc_start_address, Some(HEAP_START + 4096));
    assert_eq!(layout.last_page_address, Some(HEAP_START + 19 * 4096));
    assert_eq!(layout.first_padding_address, Some(HEAP_START + 19));
    assert_eq!(layout.unused_bytes, Some(0));
    assert_eq!(layout.num_of_allocated_pages, 0);
    assert_eq!(layout.num_of_unallocated_pages, 19);
    assert!(check_descriptor_ordering(&pm));
}

#[test]
fn allocation_is_first_fit() {
    let mut pm = twenty_page_heap();
    let a = zalloc(&mut pm, 2).unwrap();
    let b = zalloc(&mut pm, 3).unwrap();
    assert_eq!(a, HEAP_START + 4096);
    assert_eq!(b, a + 2 * 4096);
    dealloc(&mut pm, a).unwrap();
    // the freed run of two is the first that fits one page
    assert_eq!(zalloc(&mut pm, 1).unwrap(), a);
    assert_eq!(find_first_contiguous(&pm, 1), Some(1));
    assert_eq!(get_page_addr_from_page_index(&pm, 1), a + 4096);
    assert_eq!(allocations_done(&pm), 6);
    assert!(check_descriptor_ordering(&pm));
}

#[test]
fn zero_pages_requested_is_refused() {
    let mut pm = twenty_page_heap();
    assert!(matches!(zalloc(&mut pm, 0), Err(MemoryAllocatioErrors::ZeroPagesRequested(_))));
}

#[test]
fn no_run_long_enough_is_refused() {
    let mut pm = twenty_page_heap();
    assert!(matches!(zalloc(&mut pm, 20), Err(MemoryAllocatioErrors::NoFreeContiguousSpace(_))));
    assert!(zalloc(&mut pm, 19).is_ok());
    assert!(matches!(zalloc(&mut pm, 1), Err(MemoryAllocatioErrors::NoFreeContiguousSpace(_))));
}

#[test]
fn dealloc_refuses_bad_addresses() {
    let mut pm = twenty_page_heap();
    let a = zalloc(&mut pm, 3).unwrap();
    assert!(matches!(dealloc(&mut pm, 0x1000), Err(MemoryDeallocatioError::NonHeapAddressFound(_))));
    assert!(matches!(
        dealloc(&mut pm, a + 8),
        Err(MemoryDeallocatioError::PageAddressIsMiddlePage(_))
    ));
    assert!(matches!(dealloc(&mut pm, a + 4096), Err(MemoryDeallocatioError::PageNotLeading(_))));
    assert!(matches!(
        dealloc(&mut pm, a + 3 * 4096),
        Err(MemoryDeallocatioError::PageNotLeading(_))
    ));
    assert!(dealloc(&mut pm, a).is_ok());
    // freeing twice: the page no longer leads an allocation
    assert!(matches!(dealloc(&mut pm, a), Err(MemoryDeallocatioError::PageNotLeading(_))));
}

#[test]
fn dealloc_undoes_alloc() {
    let mut pm = twenty_page_heap();
    let before = show_layout(&mut pm);
    let a = zalloc(&mut pm, 4).unwrap();
    assert_eq!(show_layout(&mut pm).num_of_allocated_pages, 4);
    dealloc(&mut pm, a).unwrap();
    let after = show_layout(&mut pm);
    assert_eq!(after.num_of_allocated_pages, before.num_of_allocated_pages);
    assert_eq!(after.num_of_unallocated_pages, 19);
    assert_eq!(after.num_of_allocations_done, 4);
    assert_eq!(after.num_of_deallocations_done, 4);
    assert_eq!(zalloc(&mut pm, 19).unwrap(), a);
}

#[test]
fn freed_pages_come_back_zeroed() {
    let mut pm = twenty_page_heap();
    let a = zalloc(&mut pm, 2).unwrap() as u64;
    write_word(&mut pm, a + 8, 0xdead_beef);
    write_word(&mut pm, a + 4096 + 16, 7);
    assert_eq!(read_word(&pm, a + 8), 0xdead_beef);
    dealloc(&mut pm, a as usize).unwrap();
    let b = zalloc(&mut pm, 2).unwrap() as u64;
    assert_eq!(b, a);
    assert_eq!(read_word(&pm, b + 8), 0);
    assert_eq!(read_word(&pm, b + 4096 + 16), 0);
}

#[test]
fn page_in_heap_checks_bounds_and_alignment() {
    let pm = twenty_page_heap();
    assert!(page_in_heap(&pm, (HEAP_START + 4096) as u64));
    assert!(page_in_heap(&pm, (HEAP_START + 19 * 4096) as u64));
    assert!(!page_in_heap(&pm, (HEAP_START + 20 * 4096) as u64));
    assert!(!page_in_heap(&pm, HEAP_START as u64));
    assert!(!page_in_heap(&pm, (HEAP_START + 4096 + 8) as u64));
}

#[test]
fn descriptors_hold_their_values() {
    let mut d = PageDescriptor::new_empty();
    assert_eq!(d.get_val(), DescriptorValue::Empty);
    d.set_first();
    assert_eq!(d.get_val(), DescriptorValue::FirstAndTaken);
    d.set_middle();
    assert_eq!(d.get_val(), DescriptorValue::MiddleAndTaken);
    d.set_last();
    assert_eq!(d.get_val(), DescriptorValue::LastAndTaken);
    d.set_flast();
    assert_eq!(d.get_val(), DescriptorValue::FirstAndLast);
    d.set_empty();
    assert_eq!(d.get_val(), DescriptorValue::Empty);
    assert_eq!(PageDescriptor::new(DescriptorValue::LastAndTaken).get_val(), DescriptorValue::LastAndTaken);
}

#[test]
fn a_new_layout_is_blank() {
    let l = FullHeapLayout::new();
    assert_eq!(l.heap_start, None);
    assert_eq!(l.num_of_pages, None);
    assert_eq!(l.num_of_allocations_done, 0);
    assert_eq!(l.num_of_deallocations_done, 0);
}

#[test]
fn a_heap_must_leave_room_for_a_page() {
    assert!(heap_layout_fits(HEAP_START, HEAP_START + 20 * 4096 - 1));
    // the descriptors' page boundary lies past the end of the heap
    assert!(!heap_layout_fits(HEAP_START + 1, HEAP_START + 100));
    // a heap at address zero too small for one descriptor
    assert!(!heap_layout_fits(0, 100));
    assert!(!heap_layout_fits(HEAP_START + 10, HEAP_START));
    assert!(!heap_layout_fits(0, usize::MAX));
}
