use hobo_os::byte_manager::alloc_list::AllocList;
use hobo_os::byte_manager::{
    get_head, get_num_allocations, get_page_table, init_kernel_byte_allocation, is_chunk_payload,
    kfree, kmalloc, kmem_table, kzmalloc, AllocListFlags, KMEM_ALLOC,
};
use hobo_os::page_manager::{init_memory, PageManager};

const HEAP_START: usize = 0x8000_0000;

fn page_heap() -> PageManager {
    // room for the byte heap's pages, the root table page and the descriptors
    init_memory(HEAP_START, HEAP_START + 520 * 4096 - 1)
}

#[test]
fn header_flags_and_size() {
    let taken = AllocListFlags::Taken.val();
    assert_eq!(taken, 1usize << (usize::BITS - 1));
    let mut h = AllocList { flags_size: 0 };
    assert!(h.is_free());
    h.set_size(64);
    assert_eq!(h.get_size(), 64);
    h.set_taken();
    assert!(h.is_taken());
    assert_eq!(h.get_size(), 64);
    h.set_size(128);
    assert!(h.is_taken());
    assert_eq!(h.get_size(), 128);
    h.set_free();
    assert!(h.is_free());
    assert_eq!(h.get_size(), 128);
}

#[test]
fn the_byte_heap_starts_as_one_free_chunk() {
    let mut pm = page_heap();
    let heap = init_kernel_byte_allocation(&mut pm).unwrap();
    assert_eq!(get_head(&heap), HEAP_START + 4096);
    assert_eq!(get_num_allocations(&heap), KMEM_ALLOC);
    assert_eq!(get_page_table(&heap), HEAP_START + 4096 + KMEM_ALLOC * 4096);
    assert_eq!(kmem_table(&heap), vec![(HEAP_START + 4096, KMEM_ALLOC * 4096, false)]);
}

#[test]
fn the_byte_heap_needs_enough_pages() {
    let mut pm = init_memory(HEAP_START, HEAP_START + 100 * 4096 - 1);
    assert!(init_kernel_byte_allocation(&mut pm).is_none());
}

#[test]
fn kmalloc_splits_the_first_free_chunk() {
    let mut pm = page_heap();
    let mut heap = init_kernel_byte_allocation(&mut pm).unwrap();
    let head = get_head(&heap);
    // 10 bytes: rounded up to 16, plus the header
    let a = kmalloc(&mut heap, 10);
    assert_eq!(a, head + 8);
    // 16 bytes: already a multiple of eight, plus the header
    let b = kmalloc(&mut heap, 16);
    assert_eq!(b, head + 24 + 8);
    assert_eq!(
        kmem_table(&heap),
        vec![(head, 24, true), (head + 24, 24, true), (head + 48, KMEM_ALLOC * 4096 - 48, false)]
    );
    assert!(is_chunk_payload(&heap, a));
    assert!(is_chunk_payload(&heap, b));
    assert!(!is_chunk_payload(&heap, a + 8));
}

#[test]
fn kmalloc_gives_zero_when_nothing_fits() {
    let mut pm = page_heap();
    let mut heap = init_kernel_byte_allocation(&mut pm).unwrap();
    assert_eq!(kmalloc(&mut heap, KMEM_ALLOC * 4096), 0);
    // the whole heap, header included
    let a = kmalloc(&mut heap, KMEM_ALLOC * 4096 - 8);
    assert_ne!(a, 0);
    assert_eq!(kmalloc(&mut heap, 0), 0);
}

#[test]
fn kfree_undoes_kmalloc() {
    let mut pm = page_heap();
    let mut heap = init_kernel_byte_allocation(&mut pm).unwrap();
    let before = kmem_table(&heap);
    let a = kmalloc(&mut heap, 100);
    assert_ne!(a, 0);
    kfree(&mut heap, a);
    assert_eq!(kmem_table(&heap), before);
}

#[test]
fn kfree_merges_with_the_free_chunk_after() {
    let mut pm = page_heap();
    let mut heap = init_kernel_byte_allocation(&mut pm).unwrap();
    let head = get_head(&heap);
    let a = kmalloc(&mut heap, 8);
    let b = kmalloc(&mut heap, 8);
    kfree(&mut heap, b);
    assert_eq!(kmem_table(&heap), vec![(head, 16, true), (head + 16, KMEM_ALLOC * 4096 - 16, false)]);
    kfree(&mut heap, a);
    assert_eq!(kmem_table(&heap), vec![(head, KMEM_ALLOC * 4096, false)]);
    kfree(&mut heap, 0);
    assert_eq!(kmem_table(&heap), vec![(head, KMEM_ALLOC * 4096, false)]);
}

#[test]
fn kzmalloc_rounds_to_whole_words() {
    let mut pm = page_heap();
    let mut heap = init_kernel_byte_allocation(&mut pm).unwrap();
    let head = get_head(&heap);
    // 5 bytes: rounded up to 8, plus the header
    let a = kzmalloc(&mut heap, 5);
    assert_eq!(a, head + 8);
    assert_eq!(kmem_table(&heap)[0], (head, 16, true));
}

#[test]
fn two_allocations_do_not_overlap() {
    let mut pm = page_heap();
    let mut heap = init_kernel_byte_allocation(&mut pm).unwrap();
    let a = kmalloc(&mut heap, 40);
    let b = kmalloc(&mut heap, 100);
    // each gets its size rounded up to a multiple of eight
    assert!(a + 40 <= b || b + 104 <= a);
    kfree(&mut heap, a);
    let c = kmalloc(&mut heap, 8);
    assert_eq!(c, a);
    assert!(c + 16 <= b);
}

#[test]
fn header_size_survives_any_run_of_marks() {
    let mut h = AllocList { flags_size: 0 };
    h.set_size(40);
    h.set_taken();
    h.set_free();
    h.set_taken();
    h.set_taken();
    assert_eq!(h.get_size(), 40);
    assert!(h.is_taken());
    h.set_free();
    assert_eq!(h.get_size(), 40);
    assert!(h.is_free());
}

#[test]
fn header_is_free_reads_the_top_bit() {
    let top = 1usize << (usize::BITS - 1);
    assert!(!AllocList { flags_size: top | 5 }.is_free());
    assert!(AllocList { flags_size: 5 }.is_free());
    assert!(AllocList { flags_size: top - 1 }.is_free());
}

#[test]
fn kmalloc_of_the_largest_request_finds_no_chunk() {
    let mut pm = page_heap();
    let mut heap = init_kernel_byte_allocation(&mut pm).unwrap();
    assert_eq!(kmalloc(&mut heap, usize::MAX - 15), 0);
}
