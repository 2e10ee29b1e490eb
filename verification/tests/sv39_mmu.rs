use hobo_os::page_manager::{init_memory, zalloc, PageManager};
use hobo_os::sv39_mmu::{
    show_mappings, translate, unmap, validate_access_map, validate_physical_address,
    validate_virtual_address, MappingError, TableEntry, TranslationError,
};

const HEAP_START: usize = 0x8000_0000;

fn small_heap(pages: usize) -> PageManager {
    init_memory(HEAP_START, HEAP_START + (pages + 1) * 4096 - 1)
}

#[test]
fn test_validate_virtual_address_above_range() {
    assert_eq!(validate_virtual_address(2u64.pow(48)), false);
}

#[test]
fn test_validate_virtual_address_within_range() {
    assert_eq!(validate_virtual_address(2u64.pow(39)), true);
}

#[test]
fn test_validate_physical_address_within_range() {
    assert_eq!(validate_physical_address(2u64.pow(56)), true);
}

#[test]
fn test_validate_physical_address_above_range() {
    assert_eq!(validate_physical_address(2u64.pow(60)), false);
}

#[test]
fn test_validate_access_map_messed() {
    assert_eq!(validate_access_map(0b11110), false);
}

#[test]
fn test_validate_access_map_branch() {
    assert_eq!(validate_access_map(0b10000), false);
}

#[allow(non_snake_case)]
#[test]
fn test_validate_access_map_RWX() {
    assert_eq!(validate_access_map(0b01110), true);
}

#[allow(non_snake_case)]
#[test]
fn test_validate_access_map_RO() {
    assert_eq!(validate_access_map(0b00010), true);
}

#[test]
fn test_map_function_catches_bad_phy_addr() {
    let mut pm = small_heap(8);
    let res = hobo_os::sv39_mmu::map(&mut pm, 2u64.pow(24), 2u64.pow(61), 2, 2u64.pow(20));
    assert_eq!(
        res,
        Err(MappingError::InvalidPhysicalAddress("Invalid Physical address passed to mapping function"))
    );
}

#[test]
fn test_map_function_catches_bad_virt_addr() {
    let mut pm = small_heap(8);
    let res = hobo_os::sv39_mmu::map(&mut pm, 2u64.pow(48), 2u64.pow(48), 2, 2u64.pow(20));
    assert_eq!(
        res,
        Err(MappingError::InvalidVirtualAddress("Invalid Virtual address passed to mapping function"))
    );
}

#[test]
fn test_map_function_catches_bad_access_map() {
    let mut pm = small_heap(8);
    let res = hobo_os::sv39_mmu::map(&mut pm, 2u64.pow(24), 2u64.pow(48), 0b100110, 2u64.pow(20));
    assert_eq!(
        res,
        Err(MappingError::InvalidAccessMap("Invalid access_map passed to mapping function"))
    );
}

#[test]
fn virtual_address_must_be_page_aligned() {
    assert!(!validate_virtual_address(4097));
    assert!(validate_virtual_address(0));
    assert!(!validate_physical_address(2u64.pow(56) + 4096));
}

#[test]
fn table_entry_address_round_trip() {
    let mut e = TableEntry::new();
    assert_eq!(e.get_val(), 0);
    e.set_address(0x8020_3000);
    assert_eq!(e.get_val(), 0x8020_3000 >> 2);
    assert_eq!(e.get_address(), 0x8020_3000);
    e.set_as_valid();
    e.set_as_readable();
    e.set_as_writable();
    assert_eq!(e.get_address(), 0x8020_3000);
    assert!(e.check_if_valid());
    assert!(e.check_if_leaf());
    assert!(!e.check_if_branch());
    assert!(e.check_if_readable() && e.check_if_writable() && !e.check_if_executable());
    e.set_as_non_writable();
    e.set_as_executable();
    e.set_as_usermode_only();
    assert!(!e.check_if_writable() && e.check_if_executable() && e.check_if_usermode_only());
    e.set_as_non_readable();
    e.set_as_non_executable();
    assert!(e.check_if_branch());
    e.set_as_invalid();
    assert!(!e.check_if_valid());
    e.add_access_mask(0b1010);
    assert!(e.check_if_readable() && e.check_if_executable());
}

#[test]
fn map_then_translate_gives_back_the_page() {
    let mut pm = small_heap(8);
    let root = zalloc(&mut pm, 1).unwrap() as u64;
    assert_eq!(hobo_os::sv39_mmu::map(&mut pm, 0x4000_3000, 0x9000_0000, 0b0110, root), Ok(()));
    assert_eq!(translate(&pm, root, 0x4000_3000), Ok(0x9000_0000));
    assert_eq!(translate(&pm, root, 0x4000_3abc), Ok(0x9000_0abc));
    assert_eq!(show_mappings(&pm, root), vec![(0x4000_3000u64, 0x9000_0000u64)]);
}

#[test]
fn translate_reports_each_failure() {
    let mut pm = small_heap(8);
    let root = zalloc(&mut pm, 1).unwrap() as u64;
    assert!(matches!(
        translate(&pm, root, 0x4000_3000),
        Err(TranslationError::UnallocatedVirtualAddress(_))
    ));
    assert!(matches!(
        translate(&pm, root, 2u64.pow(40)),
        Err(TranslationError::NonRangeVirtualAddress(_))
    ));
    assert!(matches!(
        translate(&pm, 0x1000, 0x4000_3000),
        Err(TranslationError::InvalidRootTableAddress(_))
    ));
}

#[test]
fn map_refuses_a_root_outside_the_heap() {
    let mut pm = small_heap(8);
    assert!(matches!(
        hobo_os::sv39_mmu::map(&mut pm, 0x4000_3000, 0x9000_0000, 0b0110, 0x1000),
        Err(MappingError::InvalidRootTableAddress(_))
    ));
}

#[test]
fn unmap_frees_the_tables() {
    let mut pm = small_heap(8);
    let root = zalloc(&mut pm, 1).unwrap() as u64;
    hobo_os::sv39_mmu::map(&mut pm, 0x4000_3000, 0x9000_0000, 0b0110, root).unwrap();
    hobo_os::sv39_mmu::map(&mut pm, 0x4000_4000, 0x9000_1000, 0b0010, root).unwrap();
    assert_eq!(show_mappings(&pm, root).len(), 2);
    unmap(&mut pm, root);
    assert!(matches!(
        translate(&pm, root, 0x4000_3000),
        Err(TranslationError::UnallocatedVirtualAddress(_))
    ));
    assert_eq!(show_mappings(&pm, root).len(), 0);
    // every page, the root included, is free again: eight pages fit
    assert!(zalloc(&mut pm, 8).is_ok());
}

#[test]
fn mapping_a_page_keeps_the_other_translations() {
    let mut pm = small_heap(8);
    let root = zalloc(&mut pm, 1).unwrap() as u64;
    hobo_os::sv39_mmu::map(&mut pm, 0x4000_3000, 0x9000_0000, 0b0110, root).unwrap();
    hobo_os::sv39_mmu::map(&mut pm, 0x4000_4000, 0x9000_1000, 0b0010, root).unwrap();
    hobo_os::sv39_mmu::map(&mut pm, 0x0000_5000, 0x9000_2000, 0b1010, root).unwrap();
    assert_eq!(translate(&pm, root, 0x4000_3000), Ok(0x9000_0000));
    assert_eq!(translate(&pm, root, 0x4000_4000), Ok(0x9000_1000));
    assert_eq!(translate(&pm, root, 0x0000_5000), Ok(0x9000_2000));
    // mapping a page again replaces its translation
    hobo_os::sv39_mmu::map(&mut pm, 0x4000_3000, 0x9000_7000, 0b0110, root).unwrap();
    assert_eq!(translate(&pm, root, 0x4000_3000), Ok(0x9000_7000));
    assert_eq!(translate(&pm, root, 0x4000_4000), Ok(0x9000_1000));
}

#[test]
fn map_refuses_a_root_that_no_allocation_holds() {
    let mut pm = small_heap(8);
    // the first page of the heap, never allocated
    let free_page = (0x8000_0000u64) + 4096;
    assert!(matches!(
        hobo_os::sv39_mmu::map(&mut pm, 0x4000_3000, 0x9000_0000, 0b0110, free_page),
        Err(MappingError::InvalidRootTableAddress(_))
    ));
}

#[test]
fn table_entry_address_survives_flag_updates() {
    let mut e = TableEntry::new();
    e.set_address(0x8765_4000);
    e.add_access_mask(0b1110);
    e.set_as_valid();
    e.set_as_non_writable();
    e.set_as_usermode_only();
    e.set_as_invalid();
    e.set_as_non_executable();
    assert_eq!(e.get_address(), 0x8765_4000);
    assert!(!e.check_if_valid());
    assert!(e.check_if_readable());
}
