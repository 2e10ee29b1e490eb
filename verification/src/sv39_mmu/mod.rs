//! SV39 translation: table entries, input validation, and the map,
//! translate and unmap walks over translation tables kept in heap pages.
//!
//! A virtual address splits into a root index (bits 30..38), a mid index
//! (bits 21..29), a leaf index (bits 12..20) and a page offset (bits 0..11).
//! Each translation table is one heap page of 512 eight-byte entries.

pub mod errors;
pub mod mmu_abstractions;
pub mod table_tree;
pub mod unmap_tree;

use vstd::prelude::*;

use crate::page_manager::{
    find_first_contiguous,
    free_page_other_than,
    get_page_addr_from_page_index,
    lemma_alloc_in_range,
    dealloc,
    page_in_heap,
    page_is_held,
    read_word,
    write_word,
    zalloc,
    AllocOutcome,
    HeapModel,
    PageManager,
};
use crate::page_manager::descriptor_rules::has_fit;
pub use errors::{MappingError, TranslationError};
pub use mmu_abstractions::{
    pte_address,
    pte_branch,
    pte_valid,
    Table,
    TableEntry,
};

verus! {

/// The highest virtual address that is accepted (2^39).
pub const MAX_VIRTUAL_ADDRESS: u64 = 0x80_0000_0000;

/// The highest physical address that is accepted (2^56).
pub const MAX_PHYSICAL_ADDRESS: u64 = 0x100_0000_0000_0000;

pub open spec fn root_index(va: u64) -> u64 {
    (va >> 30u64) & 0x1ffu64
}

pub open spec fn mid_index(va: u64) -> u64 {
    (va >> 21u64) & 0x1ffu64
}

pub open spec fn leaf_index(va: u64) -> u64 {
    (va >> 12u64) & 0x1ffu64
}

pub open spec fn page_offset(va: u64) -> u64 {
    va & 0xfffu64
}

/// The address of entry `index` of the table at `table`.
pub open spec fn slot(table: u64, index: u64) -> int {
    table + 8 * index
}

/// The virtual address is at most 2^39 and page aligned.
pub open spec fn valid_virtual_address(address: u64) -> bool {
    address <= MAX_VIRTUAL_ADDRESS && address % 4096 == 0
}

/// The physical address is at most 2^56 and page aligned.
pub open spec fn valid_physical_address(address: u64) -> bool {
    address <= MAX_PHYSICAL_ADDRESS && address % 4096 == 0
}

/// The access map sets some of the read, write and execute bits and no
/// other bit.
pub open spec fn valid_access_map(map: u64) -> bool {
    map != 0 && map & !14u64 == 0
}

/// Whether the address is at most 2^39 and page aligned.
pub fn validate_virtual_address(address: u64) -> (b: bool)
    ensures
        b == valid_virtual_address(address),
{
    if address > 0x80_0000_0000u64 {
        return false;
    }
    if address % 4096 != 0 {
        return false;
    }
    true
}

/// Whether the address is at most 2^56 and page aligned.
pub fn validate_physical_address(address: u64) -> (b: bool)
    ensures
        b == valid_physical_address(address),
{
    if address > 0x100_0000_0000_0000u64 {
        return false;
    }
    if address % 4096 != 0 {
        return false;
    }
    true
}

/// Whether at least one of the read, write and execute bits is set and
/// every other bit is clear.
pub fn validate_access_map(map: u64) -> (b: bool)
    ensures
        b == valid_access_map(map),
{
    assert(((map & 2u64 == 2u64 || map & 4u64 == 4u64 || map & 8u64 == 8u64) && (map & !14u64
        == 0)) == (map != 0 && map & !14u64 == 0)) by (bit_vector);
    if (map & 2u64 == 2u64 || map & 4u64 == 4u64 || map & 8u64 == 8u64) && (map & !14u64 == 0) {
        true
    } else {
        false
    }
}

/// A virtual address is accepted exactly when it is a page boundary at most
/// 2^39, and a physical address exactly when it is a page boundary at most
/// 2^56.
pub proof fn lemma_addresses_accepted(a: u64)
    ensures
        valid_virtual_address(a) <==> (a <= 0x80_0000_0000 && a % 4096 == 0),
        valid_physical_address(a) <==> (a <= 0x100_0000_0000_0000 && a % 4096 == 0),
{
}

/// The access maps that are accepted are exactly the seven non-empty
/// combinations of the read (2), write (4) and execute (8) bits; each bit
/// alone is accepted, and so is any mix of them, but nothing with another
/// bit or with none of them.
pub proof fn lemma_access_maps_accepted(map: u64)
    ensures
        valid_access_map(map) <==> (map == 2 || map == 4 || map == 8 || map == 6 || map == 10
            || map == 12 || map == 14),
{
    assert(valid_access_map(map) <==> (map == 2 || map == 4 || map == 8 || map == 6 || map == 10
        || map == 12 || map == 14)) by (bit_vector);
}

/// How a translation ends.
pub ghost enum TranslateOutcome {
    Translated(u64),
    NonRangeVirtualAddress,
    InvalidRootTableAddress,
    UnallocatedVirtualAddress,
    InvalidPhysicalAddress,
}

/// What translating `va` through the tables rooted at `root` gives. A
/// table of the walk that is not a heap page cannot be read: for the root
/// that is an invalid root table, further down the address is unmapped.
pub open spec fn translate_spec(m: HeapModel, root: u64, va: u64) -> TranslateOutcome {
    if va > MAX_VIRTUAL_ADDRESS {
        TranslateOutcome::NonRangeVirtualAddress
    } else if !m.is_page(root as int) {
        TranslateOutcome::InvalidRootTableAddress
    } else {
        let re = m.word(slot(root, root_index(va)));
        let mid = pte_address(re);
        if !pte_valid(re) || !m.is_page(mid as int) {
            TranslateOutcome::UnallocatedVirtualAddress
        } else {
            let me = m.word(slot(mid, mid_index(va)));
            let leaf = pte_address(me);
            if !pte_valid(me) || !m.is_page(leaf as int) {
                TranslateOutcome::UnallocatedVirtualAddress
            } else {
                let le = m.word(slot(leaf, leaf_index(va)));
                if !pte_valid(le) {
                    TranslateOutcome::UnallocatedVirtualAddress
                } else if pte_branch(le) {
                    TranslateOutcome::InvalidPhysicalAddress
                } else {
                    TranslateOutcome::Translated((pte_address(le) + page_offset(va)) as u64)
                }
            }
        }
    }
}

/// The leaf entry that translating `va` through the tables rooted at
/// `root` reads.
pub open spec fn leaf_entry(m: HeapModel, root: u64, va: u64) -> u64 {
    let mid = pte_address(m.word(slot(root, root_index(va))));
    let leaf = pte_address(m.word(slot(mid, mid_index(va))));
    m.word(slot(leaf, leaf_index(va)))
}

pub open spec fn translate_result_matches(
    r: Result<u64, TranslationError>,
    o: TranslateOutcome,
) -> bool {
    match o {
        TranslateOutcome::Translated(a) => r == Ok::<u64, TranslationError>(a),
        TranslateOutcome::NonRangeVirtualAddress => r == Err::<u64, TranslationError>(
            TranslationError::NonRangeVirtualAddress(
                "Out of Range virtual address passed to the translating function",
            ),
        ),
        TranslateOutcome::InvalidRootTableAddress => r == Err::<u64, TranslationError>(
            TranslationError::InvalidRootTableAddress(
                "Invalid Root table address passed to translating function",
            ),
        ),
        TranslateOutcome::UnallocatedVirtualAddress => r == Err::<u64, TranslationError>(
            TranslationError::UnallocatedVirtualAddress(
                "Attempted to translate an unmapped virtual address",
            ),
        ),
        TranslateOutcome::InvalidPhysicalAddress => r == Err::<u64, TranslationError>(
            TranslationError::InvalidPhysicalAddress("The Physical address has no access permissions"),
        ),
    }
}

proof fn lemma_index_bounds(va: u64)
    ensures
        root_index(va) < 512,
        mid_index(va) < 512,
        leaf_index(va) < 512,
        page_offset(va) < 4096,
{
    assert(((va >> 30u64) & 0x1ffu64) < 512 && ((va >> 21u64) & 0x1ffu64) < 512 && ((va
        >> 12u64) & 0x1ffu64) < 512 && (va & 0xfffu64) < 4096) by (bit_vector);
}

proof fn lemma_slot_in_table(m: HeapModel, table: u64, index: u64)
    requires
        m.wf(),
        m.is_page(table as int),
        index < 512,
    ensures
        m.in_pages(slot(table, index)),
        slot(table, index) % 8 == 0,
        slot(table, index) <= u64::MAX,
        m.page_index(slot(table, index)) == m.page_index(table as int),
{
    assert(table % 8 == 0);
    assert((table - m.alloc_start) % 4096 == 0);
}

/// The entry of the table at `table` for `index`, read from memory.
fn read_entry(pm: &PageManager, table: u64, index: u64) -> (e: TableEntry)
    requires
        pm.wf(),
        pm@.is_page(table as int),
        index < 512,
    ensures
        e.val == pm@.word(slot(table, index)),
{
    proof {
        lemma_slot_in_table(pm@, table, index);
    }
    TableEntry { val: read_word(pm, table + 8 * index) }
}

/// The physical address that `virt_address` translates to through the
/// tables rooted at `root_table_address`. Fails for a virtual address above
/// 2^39, for a root that is not a heap page, for an address without a valid
/// entry at every level, and for a leaf entry without access bits. Tables
/// are read only from the heap's pages: a mid or leaf table outside them
/// counts as missing, so the address counts as unmapped.
pub fn translate(pm: &PageManager, root_table_address: u64, virt_address: u64) -> (r: Result<
    u64,
    TranslationError,
>)
    requires
        pm.wf(),
    ensures
        translate_result_matches(r, translate_spec(pm@, root_table_address, virt_address)),
{
    if virt_address > 0x80_0000_0000u64 {
        return Err(
            TranslationError::NonRangeVirtualAddress(
                "Out of Range virtual address passed to the translating function",
            ),
        );
    }
    if !page_in_heap(pm, root_table_address) {
        return Err(
            TranslationError::InvalidRootTableAddress(
                "Invalid Root table address passed to translating function",
            ),
        );
    }
    let root_table_index = (virt_address >> 30) & 0b111111111;
    let mid_table_index = (virt_address >> 21) & 0b111111111;
    let leaf_table_index = (virt_address >> 12) & 0b111111111;
    let page_offset = virt_address & 0b111111111111;
    proof {
        lemma_index_bounds(virt_address);
    }
    let root_table_entry = read_entry(pm, root_table_address, root_table_index);
    if root_table_entry.check_if_valid() == false {
        return Err(
            TranslationError::UnallocatedVirtualAddress(
                "Attempted to translate an unmapped virtual address",
            ),
        );
    }
    let mid_table_address = root_table_entry.get_address();
    if !page_in_heap(pm, mid_table_address) {
        return Err(
            TranslationError::UnallocatedVirtualAddress(
                "Attempted to translate an unmapped virtual address",
            ),
        );
    }
    let mid_table_entry = read_entry(pm, mid_table_address, mid_table_index);
    if mid_table_entry.check_if_valid() == false {
        return Err(
            TranslationError::UnallocatedVirtualAddress(
                "Attempted to translate an unmapped virtual address",
            ),
        );
    }
    let leaf_table_address = mid_table_entry.get_address();
    if !page_in_heap(pm, leaf_table_address) {
        return Err(
            TranslationError::UnallocatedVirtualAddress(
                "Attempted to translate an unmapped virtual address",
            ),
        );
    }
    let leaf_table_entry = read_entry(pm, leaf_table_address, leaf_table_index);
    if leaf_table_entry.check_if_valid() == false {
        return Err(
            TranslationError::UnallocatedVirtualAddress(
                "Attempted to translate an unmapped virtual address",
            ),
        );
    }
    if leaf_table_entry.check_if_branch() == true {
        return Err(
            TranslationError::InvalidPhysicalAddress("The Physical address has no access permissions"),
        );
    }
    let physical_page_address = leaf_table_entry.get_address();
    let ghost v = leaf_table_entry.val;
    assert(((v << 2u64) & !0xfffu64) <= 0xffff_ffff_ffff_f000u64) by (bit_vector);
    let physical_byte_address = physical_page_address + page_offset;
    Ok(physical_byte_address)
}

} // verus!

verus! {

/// How a mapping request ends.
pub ghost enum MapOutcome {
    Mapped,
    InvalidVirtualAddress,
    InvalidPhysicalAddress,
    InvalidAccessMap,
    InvalidRootTableAddress,
    /// A translation table was needed and no page was free.
    OutOfPages,
}

/// The value of a valid entry that refers to the table at `table`.
pub open spec fn table_pointer(table: u64) -> u64 {
    (table >> 2u64) | 1u64
}

/// The value of the leaf entry that maps a page to `pa` with `access`.
pub open spec fn leaf_value(pa: u64, access: u64) -> u64 {
    ((pa >> 2u64) | 1u64) | access
}

/// The table that the entry at `entry_slot` leads to, and the state after
/// reaching it: a valid entry leads to the table it names; an invalid one is
/// pointed at a newly allocated page. `None` when no page is free.
pub open spec fn next_table(m: HeapModel, entry_slot: int) -> Option<(HeapModel, u64)> {
    let e = m.word(entry_slot);
    if pte_valid(e) {
        Some((m, pte_address(e)))
    } else {
        match m.alloc_spec(1).1 {
            AllocOutcome::Allocated(k) => {
                let t = m.page_addr(k) as u64;
                Some((m.alloc_spec(1).0.with_word(entry_slot, table_pointer(t)), t))
            },
            _ => None,
        }
    }
}

/// What mapping the page at `va` to `pa` with `access` through the tables
/// rooted at `root` does.
pub open spec fn map_spec(m: HeapModel, va: u64, pa: u64, access: u64, root: u64) -> (
    HeapModel,
    MapOutcome,
) {
    if !valid_virtual_address(va) {
        (m, MapOutcome::InvalidVirtualAddress)
    } else if !valid_physical_address(pa) {
        (m, MapOutcome::InvalidPhysicalAddress)
    } else if !valid_access_map(access) {
        (m, MapOutcome::InvalidAccessMap)
    } else if !m.held_page(root as int) {
        (m, MapOutcome::InvalidRootTableAddress)
    } else {
        match next_table(m, slot(root, root_index(va))) {
            None => (m, MapOutcome::OutOfPages),
            Some((m1, mid)) => if !m1.held_page(mid as int) {
                (m1, MapOutcome::InvalidRootTableAddress)
            } else {
                match next_table(m1, slot(mid, mid_index(va))) {
                    None => (m1, MapOutcome::OutOfPages),
                    Some((m2, leaf)) => if !m2.held_page(leaf as int) {
                        (m2, MapOutcome::InvalidRootTableAddress)
                    } else {
                        (
                            m2.with_word(slot(leaf, leaf_index(va)), leaf_value(pa, access)),
                            MapOutcome::Mapped,
                        )
                    },
                }
            },
        }
    }
}

pub open spec fn map_result_matches(r: Result<(), MappingError>, o: MapOutcome) -> bool {
    match o {
        MapOutcome::Mapped => r is Ok,
        MapOutcome::InvalidVirtualAddress => r == Err::<(), MappingError>(
            MappingError::InvalidVirtualAddress("Invalid Virtual address passed to mapping function"),
        ),
        MapOutcome::InvalidPhysicalAddress => r == Err::<(), MappingError>(
            MappingError::InvalidPhysicalAddress("Invalid Physical address passed to mapping function"),
        ),
        MapOutcome::InvalidAccessMap => r == Err::<(), MappingError>(
            MappingError::InvalidAccessMap("Invalid access_map passed to mapping function"),
        ),
        MapOutcome::InvalidRootTableAddress => r == Err::<(), MappingError>(
            MappingError::InvalidRootTableAddress(
                "Invalid Root table address passed to mapping function",
            ),
        ),
        MapOutcome::OutOfPages => false,
    }
}

/// Follows the entry at `entry_slot` to the table it names, first pointing
/// it at a newly allocated page if it is not valid.
fn table_through_entry(pm: &mut PageManager, entry_slot: u64) -> (t: u64)
    requires
        old(pm).wf(),
        old(pm)@.in_pages(entry_slot as int),
        old(pm)@.descs[old(pm)@.page_index(entry_slot as int)] != crate::page_manager::DescriptorValue::Empty,
        entry_slot % 8 == 0,
        old(pm)@.layout.num_of_allocations_done + 1 <= usize::MAX,
        next_table(old(pm)@, entry_slot as int) is Some,
    ensures
        final(pm).wf(),
        next_table(old(pm)@, entry_slot as int) == Some((final(pm)@, t)),
        final(pm)@.layout.num_of_allocations_done <= old(pm)@.layout.num_of_allocations_done + 1,
{
    let mut entry = TableEntry { val: read_word(pm, entry_slot) };
    if entry.check_if_valid() == true {
        entry.get_address()
    } else {
        let ghost m0 = pm@;
        let new_table = match zalloc(pm, 1) {
            Ok(address) => {
                proof {
                    lemma_alloc_in_range(m0, 1);
                    let k = m0.alloc_spec(1).1->Allocated_0;
                    assert(address == m0.page_addr(k) as usize);
                    assert(m0.page_addr(k) <= usize::MAX);
                }
                address as u64
            },
            Err(_) => {
                proof {
                    assert(false);
                }
                0
            },
        };
        entry.set_address(new_table);
        entry.set_as_valid();
        proof {
            let k = m0.alloc_spec(1).1->Allocated_0;
            assert(new_table == m0.page_addr(k) as u64);
            assert(entry.val == table_pointer(new_table));
            assert(pm@ == m0.alloc_spec(1).0);
        }
        write_word(pm, entry_slot, entry.get_val());
        new_table
    }
}

/// Records in the tables rooted at `root_table_address` that the virtual
/// page `virt_address` maps to the physical page `physical_address` with
/// the access bits `access_map`, creating the mid and leaf tables on the way
/// where they are missing. Refuses a virtual address above 2^39 or not page
/// aligned, a physical address above 2^56 or not page aligned, an access map
/// that is not a non-empty set of read, write and execute bits, and a walk
/// through a table that is not a heap page held by an allocation: tables
/// are read and written only in the heap's allocated pages.
pub fn map(
    pm: &mut PageManager,
    virt_address: u64,
    physical_address: u64,
    access_map: u64,
    root_table_address: u64,
) -> (r: Result<(), MappingError>)
    requires
        old(pm).wf(),
        valid_virtual_address(virt_address) && valid_physical_address(physical_address)
            && valid_access_map(access_map) && old(pm)@.held_page(root_table_address as int)
            ==> old(pm)@.layout.num_of_allocations_done + 2 <= usize::MAX,
        map_spec(old(pm)@, virt_address, physical_address, access_map, root_table_address).1
            != MapOutcome::OutOfPages,
    ensures
        final(pm).wf(),
        final(pm)@ == map_spec(
            old(pm)@,
            virt_address,
            physical_address,
            access_map,
            root_table_address,
        ).0,
        map_result_matches(
            r,
            map_spec(old(pm)@, virt_address, physical_address, access_map, root_table_address).1,
        ),
{
    if validate_virtual_address(virt_address) == false {
        return Err(
            MappingError::InvalidVirtualAddress("Invalid Virtual address passed to mapping function"),
        );
    } else if validate_physical_address(physical_address) == false {
        return Err(
            MappingError::InvalidPhysicalAddress(
                "Invalid Physical address passed to mapping function",
            ),
        );
    } else if validate_access_map(access_map) == false {
        return Err(MappingError::InvalidAccessMap("Invalid access_map passed to mapping function"));
    } else if !page_is_held(pm, root_table_address) {
        return Err(
            MappingError::InvalidRootTableAddress(
                "Invalid Root table address passed to mapping function",
            ),
        );
    } else {
        let root_table_index = (virt_address >> 30) & 0b111111111;
        let mid_table_index = (virt_address >> 21) & 0b111111111;
        let leaf_table_index = (virt_address >> 12) & 0b111111111;
        proof {
            lemma_index_bounds(virt_address);
            lemma_slot_in_table(pm@, root_table_address, root_table_index);
        }
        let mid_table_address = table_through_entry(pm, root_table_address + 8 * root_table_index);
        if !page_is_held(pm, mid_table_address) {
            return Err(
                MappingError::InvalidRootTableAddress(
                    "Invalid Root table address passed to mapping function",
                ),
            );
        }
        proof {
            lemma_slot_in_table(pm@, mid_table_address, mid_table_index);
        }
        let leaf_table_address = table_through_entry(pm, mid_table_address + 8 * mid_table_index);
        if !page_is_held(pm, leaf_table_address) {
            return Err(
                MappingError::InvalidRootTableAddress(
                    "Invalid Root table address passed to mapping function",
                ),
            );
        }
        proof {
            lemma_slot_in_table(pm@, leaf_table_address, leaf_table_index);
        }
        let mut leaf_table_entry = read_entry(pm, leaf_table_address, leaf_table_index);
        leaf_table_entry.set_address(physical_address);
        leaf_table_entry.set_as_valid();
        leaf_table_entry.add_access_mask(access_map);
        write_word(pm, leaf_table_address + 8 * leaf_table_index, leaf_table_entry.get_val());
        return Ok(());
    }
}

} // verus!

verus! {

proof fn lemma_fit_after_one(d: Seq<crate::page_manager::DescriptorValue>, k: int)
    requires
        0 <= k < d.len(),
        d[k] == crate::page_manager::DescriptorValue::Empty,
    ensures
        has_fit(crate::page_manager::descriptor_rules::filled(d, k, 1), 1) <==> exists|j: int|
            0 <= j < d.len() && j != k && #[trigger] d[j]
                == crate::page_manager::DescriptorValue::Empty,
{
    let f = crate::page_manager::descriptor_rules::filled(d, k, 1);
    if has_fit(f, 1) {
        let j = choose|j: int| crate::page_manager::descriptor_rules::run_free(f, j, 1);
        assert(f[j] == crate::page_manager::DescriptorValue::Empty);
        assert(d[j] == crate::page_manager::DescriptorValue::Empty);
    }
    if exists|j: int|
        0 <= j < d.len() && j != k && #[trigger] d[j] == crate::page_manager::DescriptorValue::Empty {
        let j = choose|j: int|
            0 <= j < d.len() && j != k && #[trigger] d[j]
                == crate::page_manager::DescriptorValue::Empty;
        assert(crate::page_manager::descriptor_rules::run_free(f, j, 1));
    }
}

proof fn lemma_pointer_to_page(t: u64)
    requires
        t % 4096 == 0,
    ensures
        pte_valid(table_pointer(t)),
        pte_address(table_pointer(t)) == t,
{
    crate::sv39_mmu::mmu_abstractions::lemma_set_address_round_trip(t);
    crate::sv39_mmu::mmu_abstractions::lemma_flags_keep_address(t >> 2u64, 1);
    crate::sv39_mmu::mmu_abstractions::lemma_flag_bits_independent(t >> 2u64);
}

/// When the root entry is missing, `map` runs out of pages exactly when no
/// page is free for the mid table, or the new mid table's entry is missing
/// too and no second page is free.
proof fn lemma_out_of_pages_fresh_root(m: HeapModel, va: u64, pa: u64, access: u64, root: u64)
    requires
        m.wf(),
        valid_virtual_address(va),
        valid_physical_address(pa),
        valid_access_map(access),
        m.held_page(root as int),
        !pte_valid(m.word(slot(root, root_index(va)))),
        has_fit(m.descs, 1),
    ensures
        ({
            let k = crate::page_manager::descriptor_rules::first_fit(m.descs, 1);
            let t = m.page_addr(k) as u64;
            (map_spec(m, va, pa, access, root).1 == MapOutcome::OutOfPages) <==> (slot(
                t,
                mid_index(va),
            ) != slot(root, root_index(va)) && !pte_valid(m.word(slot(t, mid_index(va))))
                && !(exists|j: int|
                0 <= j < m.num_pages && j != k && #[trigger] m.descs[j]
                    == crate::page_manager::DescriptorValue::Empty))
        }),
{
    let k = crate::page_manager::descriptor_rules::first_fit(m.descs, 1);
    lemma_alloc_in_range(m, 1);
    lemma_index_bounds(va);
    let t = m.page_addr(k) as u64;
    lemma_pointer_to_page(t);
    let rs = slot(root, root_index(va));
    let ms = slot(t, mid_index(va));
    lemma_slot_in_table(m, root, root_index(va));
    lemma_slot_in_table(m, t, mid_index(va));
    let m1 = m.alloc_spec(1).0.with_word(rs, table_pointer(t));
    assert(next_table(m, rs) == Some((m1, t)));
    assert(m1.is_page(t as int));
    assert(m1.page_index(t as int) == k);
    assert(m1.held_page(t as int));
    if ms == rs {
        assert(m1.word(ms) == table_pointer(t));
    } else {
        assert((ms - m.alloc_start) / 8 != (rs - m.alloc_start) / 8);
        assert(m1.word(ms) == m.word(ms));
    }
    lemma_fit_after_one(m.descs, k);
}

/// When the root entry is valid and names a heap page, `map` runs out of
/// pages exactly when the mid entry is missing and no page is free.
proof fn lemma_out_of_pages_valid_root(m: HeapModel, va: u64, pa: u64, access: u64, root: u64)
    requires
        m.wf(),
        valid_virtual_address(va),
        valid_physical_address(pa),
        valid_access_map(access),
        m.held_page(root as int),
        pte_valid(m.word(slot(root, root_index(va)))),
        m.held_page(pte_address(m.word(slot(root, root_index(va)))) as int),
    ensures
        (map_spec(m, va, pa, access, root).1 == MapOutcome::OutOfPages) <==> (!pte_valid(
            m.word(slot(pte_address(m.word(slot(root, root_index(va)))), mid_index(va))),
        ) && !has_fit(m.descs, 1)),
{
}

/// Whether `map` with these arguments finds a free page for every
/// translation table it has to create.
#[verifier::spinoff_prover]
#[verifier::rlimit(40)]
pub fn map_tables_available(
    pm: &PageManager,
    virt_address: u64,
    physical_address: u64,
    access_map: u64,
    root_table_address: u64,
) -> (b: bool)
    requires
        pm.wf(),
    ensures
        b == (map_spec(pm@, virt_address, physical_address, access_map, root_table_address).1
            != MapOutcome::OutOfPages),
{
    if !validate_virtual_address(virt_address) || !validate_physical_address(physical_address)
        || !validate_access_map(access_map) || !page_is_held(pm, root_table_address) {
        return true;
    }
    let root_table_index = (virt_address >> 30) & 0b111111111;
    let mid_table_index = (virt_address >> 21) & 0b111111111;
    proof {
        lemma_index_bounds(virt_address);
    }
    let root_table_entry = read_entry(pm, root_table_address, root_table_index);
    if root_table_entry.check_if_valid() == true {
        let mid_table_address = root_table_entry.get_address();
        if !page_is_held(pm, mid_table_address) {
            return true;
        }
        proof {
            lemma_out_of_pages_valid_root(
                pm@,
                virt_address,
                physical_address,
                access_map,
                root_table_address,
            );
        }
        let mid_table_entry = read_entry(pm, mid_table_address, mid_table_index);
        if mid_table_entry.check_if_valid() == true {
            return true;
        }
        let found = find_first_contiguous(pm, 1);
        proof {
            if found is Some {
                assert(crate::page_manager::descriptor_rules::run_free(pm@.descs, found->0 as int, 1));
            }
        }
        return found.is_some();
    } else {
        match find_first_contiguous(pm, 1) {
            None => {
                return false;
            },
            Some(k) => {
                let ghost m = pm@;
                proof {
                    assert(crate::page_manager::descriptor_rules::run_free(m.descs, k as int, 1));
                    crate::page_manager::descriptor_rules::lemma_first_fit_unique(m.descs, 1, k as int);
                    lemma_alloc_in_range(m, 1);
                    lemma_out_of_pages_fresh_root(
                        m,
                        virt_address,
                        physical_address,
                        access_map,
                        root_table_address,
                    );
                }
                let new_table = get_page_addr_from_page_index(pm, k) as u64;
                let root_slot = root_table_address + 8 * root_table_index;
                proof {
                    lemma_slot_in_table(m, root_table_address, root_table_index);
                    lemma_slot_in_table(m, new_table, mid_table_index);
                }
                let mid_slot = new_table + 8 * mid_table_index;
                if mid_slot == root_slot {
                    return true;
                }
                let mid_entry = read_word(pm, mid_slot);
                if mid_entry & 1 == 1 {
                    return true;
                }
                return free_page_other_than(pm, k);
            },
        }
    }
}

} // verus!

verus! {

/// The mid and leaf tables that `map` walks through.
pub open spec fn map_tables(m: HeapModel, va: u64, root: u64) -> (u64, u64) {
    let (m1, mid) = next_table(m, slot(root, root_index(va)))->Some_0;
    let (m2, leaf) = next_table(m1, slot(mid, mid_index(va)))->Some_0;
    (mid, leaf)
}

proof fn lemma_slots_distinct(m: HeapModel, t1: u64, i1: u64, t2: u64, i2: u64)
    requires
        m.wf(),
        m.is_page(t1 as int),
        m.is_page(t2 as int),
        t1 != t2,
        i1 < 512,
        i2 < 512,
    ensures
        (slot(t1, i1) - m.alloc_start) / 8 != (slot(t2, i2) - m.alloc_start) / 8,
{
    assert(t1 % 8 == 0 && t2 % 8 == 0 && m.alloc_start % 8 == 0);
    assert((slot(t1, i1) - m.alloc_start) % 8 == 0);
    assert((slot(t2, i2) - m.alloc_start) % 8 == 0);
}

proof fn lemma_next_table_entry(m: HeapModel, s: int)
    requires
        m.wf(),
        m.in_pages(s),
        m.descs[m.page_index(s)] != crate::page_manager::DescriptorValue::Empty,
        s % 8 == 0,
        next_table(m, s) is Some,
        m.layout.num_of_allocations_done + 1 <= usize::MAX,
    ensures
        ({
            let (m1, t) = next_table(m, s)->Some_0;
            &&& m1.wf()
            &&& pte_valid(m1.word(s))
            &&& pte_address(m1.word(s)) == t
            &&& m1.alloc_start == m.alloc_start
            &&& m1.num_pages == m.num_pages
            &&& m1.heap_end == m.heap_end
            &&& forall|a: int|
                m.in_pages(a) && (a - m.alloc_start) / 8 != (s - m.alloc_start) / 8
                    ==> #[trigger] m1.word(a) == m.word(a)
        }),
{
    if !pte_valid(m.word(s)) {
        lemma_alloc_in_range(m, 1);
        let k = crate::page_manager::descriptor_rules::first_fit(m.descs, 1);
        let t = m.page_addr(k) as u64;
        lemma_pointer_to_page(t);
        crate::page_manager::descriptor_rules::lemma_filled_well_ordered(m.descs, k, 1);
        crate::page_manager::descriptor_rules::lemma_count_range_change(
            m.descs,
            crate::page_manager::descriptor_rules::filled(m.descs, k, 1),
            k,
            k + 1,
        );
        let ma = m.alloc_spec(1).0;
        assert(ma == m.after_alloc(k, 1));
        crate::page_manager::lemma_alloc_gives_zero_pages(m, 1);
        assert(ma.wf());
        let x = s - m.alloc_start;
        vstd::arithmetic::div_mod::lemma_div_denominator(x as int, 8, 512);
        assert((x / 8) / 512 == m.page_index(s));
        assert(ma.descs[m.page_index(s)] != crate::page_manager::DescriptorValue::Empty);
        let m1 = ma.with_word(s, table_pointer(t));
        assert(next_table(m, s) == Some((m1, t)));
        assert(m1.wf());
        assert(m1.word(s) == table_pointer(t));
        assert forall|a: int|
            m.in_pages(a) && (a - m.alloc_start) / 8 != (s - m.alloc_start) / 8 implies #[trigger] m1.word(a)
            == m.word(a) by {
            assert(m1.mem[(a - m.alloc_start) / 8] == ma.mem[(a - m.alloc_start) / 8]);
        }
    }
}

/// Translation works page by page: an address `off` bytes into a page
/// translates to the address `off` bytes past where the page's first byte
/// translates.
pub proof fn lemma_translate_within_page(m: HeapModel, root: u64, va: u64, off: u64, p: u64)
    requires
        va % 4096 == 0,
        off < 4096,
        va + off <= MAX_VIRTUAL_ADDRESS,
        translate_spec(m, root, va) == TranslateOutcome::Translated(p),
    ensures
        p + off <= u64::MAX,
        translate_spec(m, root, (va + off) as u64) == TranslateOutcome::Translated((p + off) as u64),
{
    let v2 = (va + off) as u64;
    assert(root_index(v2) == root_index(va) && mid_index(v2) == mid_index(va) && leaf_index(v2)
        == leaf_index(va) && page_offset(v2) == off && page_offset(va) == 0) by (bit_vector)
        requires
            va % 4096 == 0,
            off < 4096,
            va + off <= 0x80_0000_0000u64,
            v2 == va + off,
    ;
    let re = m.word(slot(root, root_index(va)));
    let me = m.word(slot(pte_address(re), mid_index(va)));
    let le = m.word(slot(pte_address(me), leaf_index(va)));
    assert(((le << 2u64) & !0xfffu64) <= 0xffff_ffff_ffff_f000u64) by (bit_vector);
}

/// Translating a page right after mapping it gives back the physical page
/// it was mapped to, and the leaf entry carries exactly the access bits and
/// the valid bit, provided the root, mid and leaf tables of the walk are
/// three different pages.
pub proof fn lemma_map_then_translate(m: HeapModel, va: u64, pa: u64, access: u64, root: u64)
    requires
        m.wf(),
        m.layout.num_of_allocations_done + 2 <= usize::MAX,
        map_spec(m, va, pa, access, root).1 == MapOutcome::Mapped,
        root != map_tables(m, va, root).0,
        root != map_tables(m, va, root).1,
        map_tables(m, va, root).0 != map_tables(m, va, root).1,
    ensures
        translate_spec(map_spec(m, va, pa, access, root).0, root, va) == TranslateOutcome::Translated(
            pa,
        ),
        leaf_entry(map_spec(m, va, pa, access, root).0, root, va) & 0x3ff == access | 1,
{
    lemma_index_bounds(va);
    let rs = slot(root, root_index(va));
    lemma_slot_in_table(m, root, root_index(va));
    lemma_next_table_entry(m, rs);
    let (m1, mid) = next_table(m, rs)->Some_0;
    let ms = slot(mid, mid_index(va));
    lemma_slot_in_table(m1, mid, mid_index(va));
    assert(m1.layout.num_of_allocations_done <= m.layout.num_of_allocations_done + 1);
    lemma_next_table_entry(m1, ms);
    let (m2, leaf) = next_table(m1, ms)->Some_0;
    let ls = slot(leaf, leaf_index(va));
    lemma_slot_in_table(m2, leaf, leaf_index(va));
    let lv = leaf_value(pa, access);
    let m3 = m2.with_word(ls, lv);
    assert(map_spec(m, va, pa, access, root).0 == m3);
    lemma_slots_distinct(m, root, root_index(va), mid, mid_index(va));
    lemma_slots_distinct(m, root, root_index(va), leaf, leaf_index(va));
    lemma_slots_distinct(m, mid, mid_index(va), leaf, leaf_index(va));
    assert(m2.word(rs) == m1.word(rs));
    assert(m3.word(rs) == m1.word(rs));
    assert(m3.word(ms) == m2.word(ms));
    assert(m3.word(ls) == lv);
    assert((((pa >> 2u64) | 1u64) | access) & 1u64 == 1u64 && (((pa >> 2u64) | 1u64) | access)
        & 14u64 != 0 && va & 0xfffu64 == 0 && access < 0x400) by (bit_vector)
        requires
            access != 0,
            access & !14u64 == 0,
            va % 4096 == 0,
    ;
    crate::sv39_mmu::mmu_abstractions::lemma_set_address_round_trip(pa);
    crate::sv39_mmu::mmu_abstractions::lemma_flags_keep_address(pa >> 2u64, 1);
    crate::sv39_mmu::mmu_abstractions::lemma_flags_keep_address((pa >> 2u64) | 1u64, access);
    assert((((pa >> 2u64) | 1u64) | access) & 0x3ffu64 == access | 1u64) by (bit_vector)
        requires
            pa % 4096 == 0,
            access < 0x400,
    ;
}

/// What freeing every page named by a valid entry of the leaf table at
/// `leaf`, from entry `k` on, does.
pub open spec fn unmap_leaves(m: HeapModel, leaf: u64, k: int) -> HeapModel
    decreases 512 - k,
{
    if k < 0 || k >= 512 {
        m
    } else {
        let e = m.word(slot(leaf, k as u64));
        let m1 = if pte_valid(e) {
            m.dealloc_spec((pte_address(e) as usize) as int).0
        } else {
            m
        };
        unmap_leaves(m1, leaf, k + 1)
    }
}

/// What freeing the leaf tables named by the mid table at `mid`, from entry
/// `j` on, and every page they name, does.
pub open spec fn unmap_mids(m: HeapModel, mid: u64, j: int) -> HeapModel
    decreases 512 - j,
{
    if j < 0 || j >= 512 {
        m
    } else {
        let e = m.word(slot(mid, j as u64));
        let m1 = if pte_valid(e) {
            let leaf = pte_address(e);
            let m_a = if m.is_page(leaf as int) {
                unmap_leaves(m, leaf, 0)
            } else {
                m
            };
            m_a.dealloc_spec((leaf as usize) as int).0
        } else {
            m
        };
        unmap_mids(m1, mid, j + 1)
    }
}

/// What freeing the mid tables named by the root table at `root`, from
/// entry `i` on, and everything below them, does.
pub open spec fn unmap_roots(m: HeapModel, root: u64, i: int) -> HeapModel
    decreases 512 - i,
{
    if i < 0 || i >= 512 {
        m
    } else {
        let e = m.word(slot(root, i as u64));
        let m1 = if pte_valid(e) {
            let mid = pte_address(e);
            let m_a = if m.is_page(mid as int) {
                unmap_mids(m, mid, 0)
            } else {
                m
            };
            m_a.dealloc_spec((mid as usize) as int).0
        } else {
            m
        };
        unmap_roots(m1, root, i + 1)
    }
}

/// What `unmap` does: free every mapped page, then every leaf and mid table,
/// then the root table. Tables that are not heap pages are not read.
pub open spec fn unmap_spec(m: HeapModel, root: u64) -> HeapModel {
    let m_a = if m.is_page(root as int) {
        unmap_roots(m, root, 0)
    } else {
        m
    };
    m_a.dealloc_spec((root as usize) as int).0
}

/// Frees every page that a valid entry of the leaf table at `leaf` names.
fn unmap_leaf_table(pm: &mut PageManager, leaf: u64)
    requires
        old(pm).wf(),
        old(pm)@.is_page(leaf as int),
    ensures
        final(pm).wf(),
        final(pm)@ == unmap_leaves(old(pm)@, leaf, 0),
        final(pm)@.alloc_start == old(pm)@.alloc_start,
        final(pm)@.num_pages == old(pm)@.num_pages,
{
    let mut leaf_index: u64 = 0;
    while leaf_index < 512
        invariant
            pm.wf(),
            pm@.alloc_start == old(pm)@.alloc_start,
            pm@.num_pages == old(pm)@.num_pages,
            pm@.is_page(leaf as int),
            leaf_index <= 512,
            unmap_leaves(pm@, leaf, leaf_index as int) == unmap_leaves(old(pm)@, leaf, 0),
        decreases 512 - leaf_index,
    {
        let leaf_table_entry = read_entry(pm, leaf, leaf_index);
        if leaf_table_entry.check_if_valid() == true {
            let _ = dealloc(pm, leaf_table_entry.get_address() as usize);
        }
        leaf_index = leaf_index + 1;
    }
}

/// Frees the leaf tables that valid entries of the mid table at `mid` name,
/// and every page those name.
fn unmap_mid_table(pm: &mut PageManager, mid: u64)
    requires
        old(pm).wf(),
        old(pm)@.is_page(mid as int),
    ensures
        final(pm).wf(),
        final(pm)@ == unmap_mids(old(pm)@, mid, 0),
        final(pm)@.alloc_start == old(pm)@.alloc_start,
        final(pm)@.num_pages == old(pm)@.num_pages,
{
    let mut mid_index: u64 = 0;
    while mid_index < 512
        invariant
            pm.wf(),
            pm@.alloc_start == old(pm)@.alloc_start,
            pm@.num_pages == old(pm)@.num_pages,
            pm@.is_page(mid as int),
            mid_index <= 512,
            unmap_mids(pm@, mid, mid_index as int) == unmap_mids(old(pm)@, mid, 0),
        decreases 512 - mid_index,
    {
        let mid_table_entry = read_entry(pm, mid, mid_index);
        if mid_table_entry.check_if_valid() == true {
            let leaf_table_address = mid_table_entry.get_address();
            if page_in_heap(pm, leaf_table_address) {
                unmap_leaf_table(pm, leaf_table_address);
            }
            let _ = dealloc(pm, leaf_table_address as usize);
        }
        mid_index = mid_index + 1;
    }
}

/// Frees every page that the tables rooted at `root_table_address` map,
/// then the leaf, mid and root tables themselves. Addresses that are not
/// the first page of an allocation are passed over.
pub fn unmap(pm: &mut PageManager, root_table_address: u64)
    requires
        old(pm).wf(),
    ensures
        final(pm).wf(),
        final(pm)@ == unmap_spec(old(pm)@, root_table_address),
{
    if page_in_heap(pm, root_table_address) {
        let mut root_index: u64 = 0;
        while root_index < 512
            invariant
                pm.wf(),
                pm@.alloc_start == old(pm)@.alloc_start,
                pm@.num_pages == old(pm)@.num_pages,
                pm@.is_page(root_table_address as int),
                old(pm)@.is_page(root_table_address as int),
                root_index <= 512,
                unmap_roots(pm@, root_table_address, root_index as int) == unmap_roots(
                    old(pm)@,
                    root_table_address,
                    0,
                ),
            decreases 512 - root_index,
        {
            let root_table_entry = read_entry(pm, root_table_address, root_index);
            if root_table_entry.check_if_valid() == true {
                let mid_table_address = root_table_entry.get_address();
                if page_in_heap(pm, mid_table_address) {
                    unmap_mid_table(pm, mid_table_address);
                }
                let _ = dealloc(pm, mid_table_address as usize);
            }
            root_index = root_index + 1;
        }
    }
    let _ = dealloc(pm, root_table_address as usize);
}

} // verus!

verus! {

/// The virtual page address with these root, mid and leaf indices.
pub open spec fn virt_of(ri: u64, mi: u64, li: u64) -> u64 {
    (ri << 30u64) | (mi << 21u64) | (li << 12u64)
}

/// The (virtual page, physical page) pairs of the valid entries of the leaf
/// table at `leaf`, from entry `k` on.
pub open spec fn leaf_mappings(m: HeapModel, leaf: u64, ri: u64, mi: u64, k: int) -> Seq<
    (u64, u64),
>
    decreases 512 - k,
{
    if k < 0 || k >= 512 {
        Seq::empty()
    } else {
        let e = m.word(slot(leaf, k as u64));
        let rest = leaf_mappings(m, leaf, ri, mi, k + 1);
        if pte_valid(e) {
            seq![(virt_of(ri, mi, k as u64), pte_address(e))] + rest
        } else {
            rest
        }
    }
}

/// The pairs reachable through the mid table at `mid`, from entry `j` on.
pub open spec fn mid_mappings(m: HeapModel, mid: u64, ri: u64, j: int) -> Seq<(u64, u64)>
    decreases 512 - j,
{
    if j < 0 || j >= 512 {
        Seq::empty()
    } else {
        let e = m.word(slot(mid, j as u64));
        let rest = mid_mappings(m, mid, ri, j + 1);
        if pte_valid(e) && m.is_page(pte_address(e) as int) {
            leaf_mappings(m, pte_address(e), ri, j as u64, 0) + rest
        } else {
            rest
        }
    }
}

/// The pairs reachable through the root table at `root`, from entry `i` on.
pub open spec fn root_mappings(m: HeapModel, root: u64, i: int) -> Seq<(u64, u64)>
    decreases 512 - i,
{
    if i < 0 || i >= 512 {
        Seq::empty()
    } else {
        let e = m.word(slot(root, i as u64));
        let rest = root_mappings(m, root, i + 1);
        if pte_valid(e) && m.is_page(pte_address(e) as int) {
            mid_mappings(m, pte_address(e), i as u64, 0) + rest
        } else {
            rest
        }
    }
}

/// The listed pair `(v, p)` is what the tables rooted at `root` say of the
/// virtual page `v`: `v` is a page below 2^39 whose walk ends in a valid
/// leaf entry that names `p`, so that `v` translates to `p` unless that
/// entry grants no access.
pub open spec fn listed_mapping_holds(m: HeapModel, root: u64, v: u64, p: u64) -> bool {
    &&& v < MAX_VIRTUAL_ADDRESS
    &&& v % 4096 == 0
    &&& pte_valid(leaf_entry(m, root, v))
    &&& pte_address(leaf_entry(m, root, v)) == p
    &&& !pte_branch(leaf_entry(m, root, v)) ==> translate_spec(m, root, v)
        == TranslateOutcome::Translated(p)
}

proof fn lemma_virt_of_indices(ri: u64, mi: u64, li: u64)
    requires
        ri < 512,
        mi < 512,
        li < 512,
    ensures
        root_index(virt_of(ri, mi, li)) == ri,
        mid_index(virt_of(ri, mi, li)) == mi,
        leaf_index(virt_of(ri, mi, li)) == li,
        page_offset(virt_of(ri, mi, li)) == 0,
        virt_of(ri, mi, li) < MAX_VIRTUAL_ADDRESS,
        virt_of(ri, mi, li) % 4096 == 0,
{
    assert(((((ri << 30u64) | (mi << 21u64) | (li << 12u64)) >> 30u64) & 0x1ffu64) == ri
        && ((((ri << 30u64) | (mi << 21u64) | (li << 12u64)) >> 21u64) & 0x1ffu64) == mi
        && ((((ri << 30u64) | (mi << 21u64) | (li << 12u64)) >> 12u64) & 0x1ffu64) == li
        && (((ri << 30u64) | (mi << 21u64) | (li << 12u64)) & 0xfffu64) == 0
        && ((ri << 30u64) | (mi << 21u64) | (li << 12u64)) < 0x80_0000_0000u64
        && ((ri << 30u64) | (mi << 21u64) | (li << 12u64)) % 4096 == 0) by (bit_vector)
        requires
            ri < 512,
            mi < 512,
            li < 512,
    ;
}

proof fn lemma_leaf_mappings_hold(m: HeapModel, root: u64, ri: u64, mi: u64, k: int)
    requires
        m.is_page(root as int),
        ri < 512,
        mi < 512,
        pte_valid(m.word(slot(root, ri))),
        m.is_page(pte_address(m.word(slot(root, ri))) as int),
        pte_valid(m.word(slot(pte_address(m.word(slot(root, ri))), mi))),
        m.is_page(pte_address(m.word(slot(pte_address(m.word(slot(root, ri))), mi))) as int),
    ensures
        ({
            let leaf = pte_address(m.word(slot(pte_address(m.word(slot(root, ri))), mi)));
            let s = leaf_mappings(m, leaf, ri, mi, k);
            forall|n: int| 0 <= n < s.len() ==> listed_mapping_holds(m, root, #[trigger] s[n].0, s[n].1)
        }),
    decreases 512 - k,
{
    let leaf = pte_address(m.word(slot(pte_address(m.word(slot(root, ri))), mi)));
    if 0 <= k < 512 {
        lemma_leaf_mappings_hold(m, root, ri, mi, k + 1);
        let e = m.word(slot(leaf, k as u64));
        let rest = leaf_mappings(m, leaf, ri, mi, k + 1);
        if pte_valid(e) {
            lemma_virt_of_indices(ri, mi, k as u64);
            let v = virt_of(ri, mi, k as u64);
            assert(leaf_entry(m, root, v) == e);
            let s = leaf_mappings(m, leaf, ri, mi, k);
            assert(s == seq![(v, pte_address(e))] + rest);
            assert forall|n: int| 0 <= n < s.len() implies listed_mapping_holds(
                m,
                root,
                #[trigger] s[n].0,
                s[n].1,
            ) by {
                if n > 0 {
                    assert(s[n] == rest[n - 1]);
                }
            }
        }
    }
}

proof fn lemma_mid_mappings_hold(m: HeapModel, root: u64, ri: u64, j: int)
    requires
        m.is_page(root as int),
        ri < 512,
        pte_valid(m.word(slot(root, ri))),
        m.is_page(pte_address(m.word(slot(root, ri))) as int),
    ensures
        ({
            let s = mid_mappings(m, pte_address(m.word(slot(root, ri))), ri, j);
            forall|n: int| 0 <= n < s.len() ==> listed_mapping_holds(m, root, #[trigger] s[n].0, s[n].1)
        }),
    decreases 512 - j,
{
    let mid = pte_address(m.word(slot(root, ri)));
    if 0 <= j < 512 {
        lemma_mid_mappings_hold(m, root, ri, j + 1);
        let e = m.word(slot(mid, j as u64));
        let rest = mid_mappings(m, mid, ri, j + 1);
        if pte_valid(e) && m.is_page(pte_address(e) as int) {
            lemma_leaf_mappings_hold(m, root, ri, j as u64, 0);
            let a = leaf_mappings(m, pte_address(e), ri, j as u64, 0);
            let s = mid_mappings(m, mid, ri, j);
            assert(s == a + rest);
            assert forall|n: int| 0 <= n < s.len() implies listed_mapping_holds(
                m,
                root,
                #[trigger] s[n].0,
                s[n].1,
            ) by {
                if n < a.len() {
                    assert(s[n] == a[n]);
                } else {
                    assert(s[n] == rest[n - a.len()]);
                }
            }
        }
    }
}

proof fn lemma_root_mappings_hold(m: HeapModel, root: u64, i: int)
    requires
        m.is_page(root as int),
    ensures
        ({
            let s = root_mappings(m, root, i);
            forall|n: int| 0 <= n < s.len() ==> listed_mapping_holds(m, root, #[trigger] s[n].0, s[n].1)
        }),
    decreases 512 - i,
{
    if 0 <= i < 512 {
        lemma_root_mappings_hold(m, root, i + 1);
        let e = m.word(slot(root, i as u64));
        let rest = root_mappings(m, root, i + 1);
        if pte_valid(e) && m.is_page(pte_address(e) as int) {
            lemma_mid_mappings_hold(m, root, i as u64, 0);
            let a = mid_mappings(m, pte_address(e), i as u64, 0);
            let s = root_mappings(m, root, i);
            assert(s == a + rest);
            assert forall|n: int| 0 <= n < s.len() implies listed_mapping_holds(
                m,
                root,
                #[trigger] s[n].0,
                s[n].1,
            ) by {
                if n < a.len() {
                    assert(s[n] == a[n]);
                } else {
                    assert(s[n] == rest[n - a.len()]);
                }
            }
        }
    }
}

proof fn lemma_contains_concat(a: Seq<(u64, u64)>, b: Seq<(u64, u64)>, x: (u64, u64))
    requires
        a.contains(x) || b.contains(x),
    ensures
        (a + b).contains(x),
{
    if a.contains(x) {
        let i = choose|i: int| 0 <= i < a.len() && a[i] == x;
        assert((a + b)[i] == x);
    } else {
        let i = choose|i: int| 0 <= i < b.len() && b[i] == x;
        assert((a + b)[a.len() + i] == x);
    }
}

proof fn lemma_leaf_mappings_complete(m: HeapModel, leaf: u64, ri: u64, mi: u64, k: int, li: u64)
    requires
        0 <= k <= li < 512,
        pte_valid(m.word(slot(leaf, li))),
    ensures
        leaf_mappings(m, leaf, ri, mi, k).contains(
            (virt_of(ri, mi, li), pte_address(m.word(slot(leaf, li)))),
        ),
    decreases 512 - k,
{
    let x = (virt_of(ri, mi, li), pte_address(m.word(slot(leaf, li))));
    if k == li {
        let s = leaf_mappings(m, leaf, ri, mi, k);
        assert(s[0] == x);
    } else {
        lemma_leaf_mappings_complete(m, leaf, ri, mi, k + 1, li);
        let e = m.word(slot(leaf, k as u64));
        let rest = leaf_mappings(m, leaf, ri, mi, k + 1);
        if pte_valid(e) {
            lemma_contains_concat(seq![(virt_of(ri, mi, k as u64), pte_address(e))], rest, x);
        }
    }
}

proof fn lemma_mid_mappings_complete(m: HeapModel, mid: u64, ri: u64, j: int, mi: u64, li: u64)
    requires
        0 <= j <= mi < 512,
        li < 512,
        pte_valid(m.word(slot(mid, mi))),
        m.is_page(pte_address(m.word(slot(mid, mi))) as int),
        pte_valid(m.word(slot(pte_address(m.word(slot(mid, mi))), li))),
    ensures
        mid_mappings(m, mid, ri, j).contains(
            (
                virt_of(ri, mi, li),
                pte_address(m.word(slot(pte_address(m.word(slot(mid, mi))), li))),
            ),
        ),
    decreases 512 - j,
{
    let leaf = pte_address(m.word(slot(mid, mi)));
    let x = (virt_of(ri, mi, li), pte_address(m.word(slot(leaf, li))));
    let rest = mid_mappings(m, mid, ri, j + 1);
    if j == mi {
        lemma_leaf_mappings_complete(m, leaf, ri, mi, 0, li);
        lemma_contains_concat(leaf_mappings(m, leaf, ri, mi, 0), rest, x);
    } else {
        lemma_mid_mappings_complete(m, mid, ri, j + 1, mi, li);
        let e = m.word(slot(mid, j as u64));
        if pte_valid(e) && m.is_page(pte_address(e) as int) {
            lemma_contains_concat(leaf_mappings(m, pte_address(e), ri, j as u64, 0), rest, x);
        }
    }
}

proof fn lemma_root_mappings_complete(m: HeapModel, root: u64, i: int, v: u64)
    requires
        0 <= i <= root_index(v),
        v < MAX_VIRTUAL_ADDRESS,
        v % 4096 == 0,
        pte_valid(m.word(slot(root, root_index(v)))),
        m.is_page(pte_address(m.word(slot(root, root_index(v)))) as int),
        pte_valid(m.word(slot(pte_address(m.word(slot(root, root_index(v)))), mid_index(v)))),
        m.is_page(
            pte_address(m.word(slot(pte_address(m.word(slot(root, root_index(v)))), mid_index(v))))
                as int,
        ),
        pte_valid(leaf_entry(m, root, v)),
    ensures
        root_mappings(m, root, i).contains((v, pte_address(leaf_entry(m, root, v)))),
    decreases 512 - i,
{
    lemma_index_bounds(v);
    let ri = root_index(v);
    let x = (v, pte_address(leaf_entry(m, root, v)));
    let rest = root_mappings(m, root, i + 1);
    if i == ri {
        assert(virt_of(ri, mid_index(v), leaf_index(v)) == v) by (bit_vector)
            requires
                ri == (v >> 30u64) & 0x1ffu64,
                v < 0x80_0000_0000u64,
                v % 4096 == 0,
        ;
        let mid = pte_address(m.word(slot(root, ri)));
        lemma_mid_mappings_complete(m, mid, ri, 0, mid_index(v), leaf_index(v));
        lemma_contains_concat(mid_mappings(m, mid, ri, 0), rest, x);
    } else {
        lemma_root_mappings_complete(m, root, i + 1, v);
        let e = m.word(slot(root, i as u64));
        if pte_valid(e) && m.is_page(pte_address(e) as int) {
            lemma_contains_concat(mid_mappings(m, pte_address(e), i as u64, 0), rest, x);
        }
    }
}

/// `show_mappings` leaves nothing out: every virtual page below 2^39 whose
/// walk from `root` passes through valid entries naming heap tables and
/// ends in a valid leaf entry is listed, with the page that entry names.
pub proof fn lemma_show_mappings_complete(m: HeapModel, root: u64, v: u64)
    requires
        m.is_page(root as int),
        v < MAX_VIRTUAL_ADDRESS,
        v % 4096 == 0,
        pte_valid(m.word(slot(root, root_index(v)))),
        m.is_page(pte_address(m.word(slot(root, root_index(v)))) as int),
        pte_valid(m.word(slot(pte_address(m.word(slot(root, root_index(v)))), mid_index(v)))),
        m.is_page(
            pte_address(m.word(slot(pte_address(m.word(slot(root, root_index(v)))), mid_index(v))))
                as int,
        ),
        pte_valid(leaf_entry(m, root, v)),
    ensures
        root_mappings(m, root, 0).contains((v, pte_address(leaf_entry(m, root, v)))),
{
    lemma_root_mappings_complete(m, root, 0, v);
}

/// Every pair `(v, p)` that `show_mappings` lists is a mapping of the
/// tables: `v` is a page below 2^39 whose root, mid and leaf indices lead
/// to a valid leaf entry naming `p`, and `v` translates to `p` whenever
/// that entry grants some access.
pub proof fn lemma_show_mappings_hold(m: HeapModel, root: u64)
    requires
        m.is_page(root as int),
    ensures
        forall|n: int|
            0 <= n < root_mappings(m, root, 0).len() ==> listed_mapping_holds(
                m,
                root,
                #[trigger] root_mappings(m, root, 0)[n].0,
                root_mappings(m, root, 0)[n].1,
            ),
{
    lemma_root_mappings_hold(m, root, 0);
}

fn push_leaf_mappings(
    pm: &PageManager,
    leaf: u64,
    root_index: u64,
    mid_index: u64,
    out: &mut Vec<(u64, u64)>,
)
    requires
        pm.wf(),
        pm@.is_page(leaf as int),
        root_index < 512,
        mid_index < 512,
    ensures
        final(out)@ == old(out)@ + leaf_mappings(pm@, leaf, root_index, mid_index, 0),
{
    let mut leaf_index: u64 = 0;
    while leaf_index < 512
        invariant
            pm.wf(),
            pm@.is_page(leaf as int),
            leaf_index <= 512,
            root_index < 512,
            mid_index < 512,
            out@ + leaf_mappings(pm@, leaf, root_index, mid_index, leaf_index as int) == old(out)@
                + leaf_mappings(pm@, leaf, root_index, mid_index, 0),
        decreases 512 - leaf_index,
    {
        let leaf_table_entry = read_entry(pm, leaf, leaf_index);
        let ghost before = out@;
        let ghost rest = leaf_mappings(pm@, leaf, root_index, mid_index, leaf_index + 1);
        if leaf_table_entry.check_if_valid() == true {
            let combined_virt_address = (root_index << 30) | (mid_index << 21) | (leaf_index << 12);
            let physical_address = leaf_table_entry.get_address();
            out.push((combined_virt_address, physical_address));
            assert(before + (seq![(combined_virt_address, physical_address)] + rest) =~= out@
                + rest);
        }
        leaf_index = leaf_index + 1;
    }
}

fn push_mid_mappings(pm: &PageManager, mid: u64, root_index: u64, out: &mut Vec<(u64, u64)>)
    requires
        pm.wf(),
        pm@.is_page(mid as int),
        root_index < 512,
    ensures
        final(out)@ == old(out)@ + mid_mappings(pm@, mid, root_index, 0),
{
    let mut mid_index: u64 = 0;
    while mid_index < 512
        invariant
            pm.wf(),
            pm@.is_page(mid as int),
            mid_index <= 512,
            root_index < 512,
            out@ + mid_mappings(pm@, mid, root_index, mid_index as int) == old(out)@
                + mid_mappings(pm@, mid, root_index, 0),
        decreases 512 - mid_index,
    {
        let mid_table_entry = read_entry(pm, mid, mid_index);
        let ghost before = out@;
        let ghost rest = mid_mappings(pm@, mid, root_index, mid_index + 1);
        if mid_table_entry.check_if_valid() == true {
            let leaf_table_address = mid_table_entry.get_address();
            if page_in_heap(pm, leaf_table_address) {
                push_leaf_mappings(pm, leaf_table_address, root_index, mid_index, out);
                assert(before + (leaf_mappings(pm@, leaf_table_address, root_index, mid_index, 0)
                    + rest) =~= out@ + rest);
            }
        }
        mid_index = mid_index + 1;
    }
}

/// Lists the (virtual page, physical page) pairs that the tables rooted at
/// `root_table_address` map, in the order of their indices.
pub fn show_mappings(pm: &PageManager, root_table_address: u64) -> (v: Vec<(u64, u64)>)
    requires
        pm.wf(),
    ensures
        v@ == if pm@.is_page(root_table_address as int) {
            root_mappings(pm@, root_table_address, 0)
        } else {
            Seq::empty()
        },
{
    let mut out: Vec<(u64, u64)> = Vec::new();
    if !page_in_heap(pm, root_table_address) {
        return out;
    }
    let mut root_index: u64 = 0;
    while root_index < 512
        invariant
            pm.wf(),
            pm@.is_page(root_table_address as int),
            root_index <= 512,
            out@ + root_mappings(pm@, root_table_address, root_index as int) == root_mappings(
                pm@,
                root_table_address,
                0,
            ),
        decreases 512 - root_index,
    {
        let root_table_entry = read_entry(pm, root_table_address, root_index);
        let ghost before = out@;
        let ghost rest = root_mappings(pm@, root_table_address, root_index + 1);
        if root_table_entry.check_if_valid() == true {
            let mid_table_address = root_table_entry.get_address();
            if page_in_heap(pm, mid_table_address) {
                push_mid_mappings(pm, mid_table_address, root_index, &mut out);
                assert(before + (mid_mappings(pm@, mid_table_address, root_index, 0) + rest)
                    =~= out@ + rest);
            }
        }
        root_index = root_index + 1;
    }
    assert(out@ + Seq::<(u64, u64)>::empty() =~= out@);
    out
}

} // verus!
