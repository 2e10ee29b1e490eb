use hobo_os::map_kernel::{identity_map_kernel, KernelSections};
use hobo_os::page_manager::{init_memory, zalloc};
use hobo_os::sv39_mmu::{show_mappings, translate, TranslationError};

const HEAP_START: usize = 0x8000_0000;

fn sections() -> KernelSections {
    KernelSections {
        text_start: 0x8000_0000,
        text_end: 0x8000_1000,
        rodata_start: 0x8000_2000,
        rodata_end: 0x8000_2000,
        data_start: 0x8000_3000,
        data_end: 0x8000_3000,
        bss_start: 0x8000_4000,
        bss_end: 0x8000_4000,
        kernel_stack_start: 0x8000_5000,
        kernel_stack_end: 0x8000_6000,
        heap_start: 0x8000_7000,
        heap_end: 0x8000_7000,
    }
}

#[test]
fn the_kernel_is_mapped_to_itself() {
    let mut pm = init_memory(HEAP_START, HEAP_START + 40 * 4096 - 1);
    let root = zalloc(&mut pm, 1).unwrap();
    assert!(identity_map_kernel(&mut pm, root, &sections()));
    let root = root as u64;
    let ram = [0x8000_0000u64, 0x8000_1000, 0x8000_2000, 0x8000_3000, 0x8000_4000, 0x8000_5000,
        0x8000_6000, 0x8000_7000];
    let devices = [0x1000_0000u64, 0x0c00_0000, 0x0c00_1000, 0x0c00_2000, 0x0c20_0000, 0x0c20_4000,
        0x0c20_8000, 0x0200_0000, 0x0200_b000, 0x0200_c000];
    for page in ram.iter().chain(devices.iter()) {
        assert_eq!(translate(&pm, root, *page), Ok(*page));
    }
    assert!(matches!(translate(&pm, root, 0x8000_8000), Err(TranslationError::UnallocatedVirtualAddress(_))));
    assert!(matches!(translate(&pm, root, 0x0c00_3000), Err(TranslationError::UnallocatedVirtualAddress(_))));
    // eight RAM pages, the UART, three and nine interrupt controller pages, three timer pages
    assert_eq!(show_mappings(&pm, root).len(), 8 + 1 + 3 + 9 + 3);
}

#[test]
fn the_identity_map_fails_without_pages_for_tables() {
    let mut pm = init_memory(HEAP_START, HEAP_START + 3 * 4096 - 1);
    let root = zalloc(&mut pm, 1).unwrap();
    assert!(!identity_map_kernel(&mut pm, root, &sections()));
}
