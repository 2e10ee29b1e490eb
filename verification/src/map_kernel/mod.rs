//! The identity map of the kernel: every page of the kernel's RAM sections
//! and of the device registers it uses is mapped to itself.

use vstd::prelude::*;
use vstd::arithmetic::power2::lemma2_to64;

use crate::page_manager::{
    aligned_up,
    align,
    allocations_done,
    HeapModel,
    PageManager,
};
use crate::sv39_mmu::{
    leaf_entry,
    leaf_index,
    map_spec,
    map_tables_available,
    mid_index,
    pte_valid,
    root_index,
    translate_spec,
    MapOutcome,
    TranslateOutcome,
    MAX_VIRTUAL_ADDRESS,
};
use crate::sv39_mmu::table_tree::{lemma_map_in_tree, table_tree};

verus! {

/// Read and execute access.
pub const READ_EXECUTE: u64 = 10;

/// Read and write access.
pub const READ_WRITE: u64 = 6;

/// Where the linker placed the kernel's sections.
#[derive(Debug, Clone, Copy)]
pub struct KernelSections {
    pub text_start: usize,
    pub text_end: usize,
    pub rodata_start: usize,
    pub rodata_end: usize,
    pub data_start: usize,
    pub data_end: usize,
    pub bss_start: usize,
    pub bss_end: usize,
    pub kernel_stack_start: usize,
    pub kernel_stack_end: usize,
    pub heap_start: usize,
    pub heap_end: usize,
}

/// One request of the identity map.
#[derive(Debug, Clone, Copy)]
pub enum MapStep {
    /// Map every page boundary from `start` to `end`, both included: the
    /// pages from `start`, rounded up to a page boundary, up to `end`.
    Pages { start: usize, end: usize, access: u64 },
    /// Map the one page at `address`.
    Page { address: u64, access: u64 },
}

/// Identity-mapping the page at `address`: refused without any change when
/// the allocation counter could overflow or when a translation table is
/// needed and no page is free; otherwise what `map` does, with success
/// when it maps the page.
pub open spec fn map_page_spec(m: HeapModel, address: u64, root: u64, access: u64) -> (
    HeapModel,
    bool,
) {
    if m.layout.num_of_allocations_done + 2 > usize::MAX {
        (m, false)
    } else {
        let (m1, o) = map_spec(m, address, address, access, root);
        if o == MapOutcome::OutOfPages {
            (m, false)
        } else {
            (m1, o == MapOutcome::Mapped)
        }
    }
}

/// Identity-mapping the pages from `page` up to `end`, `end` included, one
/// page at a time, stopping at the first that fails.
pub open spec fn map_range_spec(m: HeapModel, page: int, end: int, root: u64, access: u64) -> (
    HeapModel,
    bool,
)
    decreases end + 4096 - page,
{
    if page > end || page < 0 || page > u64::MAX {
        (m, true)
    } else {
        let (m1, ok) = map_page_spec(m, page as u64, root, access);
        if ok {
            map_range_spec(m1, page + 4096, end, root, access)
        } else {
            (m1, false)
        }
    }
}

/// One step of the identity map. A range whose start cannot be rounded up,
/// or whose end cannot be stepped past, within a register fails without any
/// change.
pub open spec fn step_spec(m: HeapModel, step: MapStep, root: u64) -> (HeapModel, bool) {
    match step {
        MapStep::Pages { start, end, access } => if start + 4095 > usize::MAX || end + 4096
            > usize::MAX {
            (m, false)
        } else {
            map_range_spec(m, aligned_up(start as nat, 12) as int, end as int, root, access)
        },
        MapStep::Page { address, access } => map_page_spec(m, address, root, access),
    }
}

/// The steps from `i` on, stopping at the first that fails.
pub open spec fn steps_spec(m: HeapModel, steps: Seq<MapStep>, root: u64, i: int) -> (
    HeapModel,
    bool,
)
    decreases steps.len() - i,
{
    if i < 0 || i >= steps.len() {
        (m, true)
    } else {
        let (m1, ok) = step_spec(m, steps[i], root);
        if ok {
            steps_spec(m1, steps, root, i + 1)
        } else {
            (m1, false)
        }
    }
}

/// The RAM sections in the order they are mapped: text and read-only data
/// readable and executable; data, bss, the kernel stack and the heap
/// readable and writable.
pub open spec fn ram_steps(s: KernelSections) -> Seq<MapStep> {
    seq![
        MapStep::Pages { start: s.text_start, end: s.text_end, access: READ_EXECUTE },
        MapStep::Pages { start: s.rodata_start, end: s.rodata_end, access: READ_EXECUTE },
        MapStep::Pages { start: s.data_start, end: s.data_end, access: READ_WRITE },
        MapStep::Pages { start: s.bss_start, end: s.bss_end, access: READ_WRITE },
        MapStep::Pages { start: s.kernel_stack_start, end: s.kernel_stack_end, access: READ_WRITE },
        MapStep::Pages { start: s.heap_start, end: s.heap_end, access: READ_WRITE },
    ]
}

/// The device registers in the order they are mapped, all readable and
/// writable: the UART, the interrupt controller's priority and pending
/// words, its hart context, and the timer's pages.
pub open spec fn mmio_steps() -> Seq<MapStep> {
    seq![
        MapStep::Page { address: 0x1000_0000, access: READ_WRITE },
        MapStep::Pages { start: 0x0c00_0000, end: 0x0c00_2000, access: READ_WRITE },
        MapStep::Pages { start: 0x0c20_0000, end: 0x0c20_8000, access: READ_WRITE },
        MapStep::Page { address: 0x0200_0000, access: READ_WRITE },
        MapStep::Page { address: 0x0200_c000, access: READ_WRITE },
        MapStep::Page { address: 0x0200_b000, access: READ_WRITE },
    ]
}

/// The whole identity map of the kernel: the RAM sections, then, if they
/// all succeeded, the device registers.
pub open spec fn kernel_map_spec(m: HeapModel, root: u64, s: KernelSections) -> (HeapModel, bool) {
    let (m1, ok) = steps_spec(m, ram_steps(s), root, 0);
    if ok {
        steps_spec(m1, mmio_steps(), root, 0)
    } else {
        (m1, false)
    }
}

fn identity_map_page(pm: &mut PageManager, address: u64, root: u64, access: u64) -> (ok: bool)
    requires
        old(pm).wf(),
    ensures
        final(pm).wf(),
        (final(pm)@, ok) == map_page_spec(old(pm)@, address, root, access),
{
    if allocations_done(pm) > usize::MAX - 2 {
        return false;
    }
    if !map_tables_available(pm, address, address, access, root) {
        return false;
    }
    let r = crate::sv39_mmu::map(pm, address, address, access, root);
    r.is_ok()
}

/// Identity-maps, with `access_map`, every page boundary from
/// `start_address` to `end_address`, both included. Gives `false` at the
/// first page that cannot be mapped.
fn identity_map_many_pages(
    pm: &mut PageManager,
    start_address: usize,
    end_address: usize,
    root_table_address: u64,
    access_map: u64,
) -> (ok: bool)
    requires
        old(pm).wf(),
    ensures
        final(pm).wf(),
        (final(pm)@, ok) == step_spec(
            old(pm)@,
            MapStep::Pages { start: start_address, end: end_address, access: access_map },
            root_table_address,
        ),
{
    if start_address > usize::MAX - 4095 || end_address > usize::MAX - 4096 {
        return false;
    }
    proof {
        lemma2_to64();
    }
    let aligned_start_address = align(start_address, 12);
    let ghost m0 = pm@;
    let ghost target = map_range_spec(
        m0,
        aligned_start_address as int,
        end_address as int,
        root_table_address,
        access_map,
    );
    assert(aligned_start_address % 4096 == 0) by {
        if start_address % 4096 != 0 {
            assert(aligned_start_address == (start_address / 4096 + 1) * 4096);
        }
    }
    let mut page_address = aligned_start_address as u64;
    while page_address <= end_address as u64
        invariant
            pm.wf(),
            page_address % 4096 == 0,
            end_address + 4096 <= usize::MAX,
            page_address <= end_address + 4096 || page_address == aligned_start_address,
            target == step_spec(
                old(pm)@,
                MapStep::Pages { start: start_address, end: end_address, access: access_map },
                root_table_address,
            ),
            target == map_range_spec(
                pm@,
                page_address as int,
                end_address as int,
                root_table_address,
                access_map,
            ),
        decreases end_address + 4096 - page_address,
    {
        let ok = identity_map_page(pm, page_address, root_table_address, access_map);
        if !ok {
            return false;
        }
        page_address = page_address + 4096;
    }
    true
}

fn apply_map_steps(pm: &mut PageManager, root_table_address: u64, steps: &Vec<MapStep>) -> (ok: bool)
    requires
        old(pm).wf(),
    ensures
        final(pm).wf(),
        (final(pm)@, ok) == steps_spec(old(pm)@, steps@, root_table_address, 0),
{
    let ghost target = steps_spec(pm@, steps@, root_table_address, 0);
    let mut i: usize = 0;
    while i < steps.len()
        invariant
            pm.wf(),
            0 <= i <= steps@.len(),
            target == steps_spec(pm@, steps@, root_table_address, i as int),
            target == steps_spec(old(pm)@, steps@, root_table_address, 0),
        decreases steps@.len() - i,
    {
        let ok = match steps[i] {
            MapStep::Pages { start, end, access } => identity_map_many_pages(
                pm,
                start,
                end,
                root_table_address,
                access,
            ),
            MapStep::Page { address, access } => identity_map_page(
                pm,
                address,
                root_table_address,
                access,
            ),
        };
        if !ok {
            return false;
        }
        i = i + 1;
    }
    true
}

fn map_the_ram_sections(pm: &mut PageManager, root_table_address: u64, s: &KernelSections) -> (ok: bool)
    requires
        old(pm).wf(),
    ensures
        final(pm).wf(),
        (final(pm)@, ok) == steps_spec(old(pm)@, ram_steps(*s), root_table_address, 0),
{
    let steps = vec![
        MapStep::Pages { start: s.text_start, end: s.text_end, access: READ_EXECUTE },
        MapStep::Pages { start: s.rodata_start, end: s.rodata_end, access: READ_EXECUTE },
        MapStep::Pages { start: s.data_start, end: s.data_end, access: READ_WRITE },
        MapStep::Pages { start: s.bss_start, end: s.bss_end, access: READ_WRITE },
        MapStep::Pages { start: s.kernel_stack_start, end: s.kernel_stack_end, access: READ_WRITE },
        MapStep::Pages { start: s.heap_start, end: s.heap_end, access: READ_WRITE },
    ];
    assert(steps@ =~= ram_steps(*s));
    apply_map_steps(pm, root_table_address, &steps)
}

fn map_the_mmio_sections(pm: &mut PageManager, root_table_address: u64) -> (ok: bool)
    requires
        old(pm).wf(),
    ensures
        final(pm).wf(),
        (final(pm)@, ok) == steps_spec(old(pm)@, mmio_steps(), root_table_address, 0),
{
    let steps = vec![
        MapStep::Page { address: 0x1000_0000, access: READ_WRITE },
        MapStep::Pages { start: 0x0c00_0000, end: 0x0c00_2000, access: READ_WRITE },
        MapStep::Pages { start: 0x0c20_0000, end: 0x0c20_8000, access: READ_WRITE },
        MapStep::Page { address: 0x0200_0000, access: READ_WRITE },
        MapStep::Page { address: 0x0200_c000, access: READ_WRITE },
        MapStep::Page { address: 0x0200_b000, access: READ_WRITE },
    ];
    assert(steps@ =~= mmio_steps());
    apply_map_steps(pm, root_table_address, &steps)
}

/// Identity-maps the kernel into the translation tables rooted at
/// `root_table_address`: its RAM sections, then the device registers it
/// uses. Gives `false` at the first page that cannot be mapped.
pub fn identity_map_kernel(
    pm: &mut PageManager,
    root_table_address: usize,
    sections: &KernelSections,
) -> (ok: bool)
    requires
        old(pm).wf(),
    ensures
        final(pm).wf(),
        (final(pm)@, ok) == kernel_map_spec(old(pm)@, root_table_address as u64, *sections),
{
    let root = root_table_address as u64;
    if !map_the_ram_sections(pm, root, sections) {
        return false;
    }
    map_the_mmio_sections(pm, root)
}

/// Page `p` is one of the pages that `step` maps.
pub open spec fn step_covers(step: MapStep, p: u64) -> bool {
    match step {
        MapStep::Pages { start, end, .. } => start <= p <= end && p % 4096 == 0,
        MapStep::Page { address, .. } => p == address,
    }
}

/// Page `p` is one of the pages that the steps from `i` on map.
pub open spec fn steps_cover(steps: Seq<MapStep>, i: int, p: u64) -> bool {
    exists|j: int| i <= j < steps.len() && #[trigger] step_covers(steps[j], p)
}

/// Page `p` is one of the pages that the identity map of the kernel maps.
pub open spec fn kernel_page(s: KernelSections, p: u64) -> bool {
    steps_cover(ram_steps(s), 0, p) || steps_cover(mmio_steps(), 0, p)
}

/// Every page a step can map lies below the highest virtual address.
pub open spec fn step_in_range(step: MapStep) -> bool {
    match step {
        MapStep::Pages { end, .. } => end < MAX_VIRTUAL_ADDRESS,
        MapStep::Page { address, .. } => address < MAX_VIRTUAL_ADDRESS,
    }
}

/// The access bits that `step` maps its pages with.
pub open spec fn step_access(step: MapStep) -> u64 {
    match step {
        MapStep::Pages { access, .. } => access,
        MapStep::Page { access, .. } => access,
    }
}

/// The access bits that page `p` ends up with after the steps from `i` on,
/// when it had `before`: those of the last step that covers it.
pub open spec fn covering_access(steps: Seq<MapStep>, i: int, p: u64, before: u64) -> u64
    decreases steps.len() - i,
{
    if i < 0 || i >= steps.len() {
        before
    } else {
        covering_access(
            steps,
            i + 1,
            p,
            if step_covers(steps[i], p) {
                step_access(steps[i])
            } else {
                before
            },
        )
    }
}

/// The access bits of page `p` after the identity map of the kernel.
pub open spec fn kernel_access(s: KernelSections, p: u64) -> u64 {
    covering_access(mmio_steps(), 0, p, covering_access(ram_steps(s), 0, p, 0))
}

/// The heap is consistent, the tables rooted at `root` form a tree, and
/// each page in `mapped` translates to itself through a leaf entry whose
/// flag bits are the valid bit and the access bits `acc` gives it.
#[verifier::opaque]
pub open spec fn identity_mapped(
    m: HeapModel,
    root: u64,
    mapped: spec_fn(u64) -> bool,
    acc: spec_fn(u64) -> u64,
) -> bool {
    &&& m.wf()
    &&& table_tree(m, root)
    &&& forall|p: u64|
        #[trigger] mapped(p) ==> {
            &&& p < MAX_VIRTUAL_ADDRESS
            &&& p % 4096 == 0
            &&& translate_spec(m, root, p) == TranslateOutcome::Translated(p)
            &&& leaf_entry(m, root, p) & 0x3ff == acc(p) | 1
        }
}

proof fn lemma_identity_mapped_fewer(
    m: HeapModel,
    root: u64,
    more: spec_fn(u64) -> bool,
    more_acc: spec_fn(u64) -> u64,
    fewer: spec_fn(u64) -> bool,
    fewer_acc: spec_fn(u64) -> u64,
)
    requires
        identity_mapped(m, root, more, more_acc),
        forall|q: u64| #[trigger] fewer(q) ==> more(q) && fewer_acc(q) == more_acc(q),
    ensures
        identity_mapped(m, root, fewer, fewer_acc),
{
    reveal(identity_mapped);
    assert forall|q: u64| #[trigger] fewer(q) implies {
        &&& q < MAX_VIRTUAL_ADDRESS
        &&& q % 4096 == 0
        &&& translate_spec(m, root, q) == TranslateOutcome::Translated(q)
        &&& leaf_entry(m, root, q) & 0x3ff == fewer_acc(q) | 1
    } by {
        assert(more(q));
    }
}

proof fn lemma_pages_apart(p: u64, q: u64)
    requires
        p < MAX_VIRTUAL_ADDRESS,
        q < MAX_VIRTUAL_ADDRESS,
        p % 4096 == 0,
        q % 4096 == 0,
        p != q,
    ensures
        (root_index(p), mid_index(p), leaf_index(p)) != (root_index(q), mid_index(q), leaf_index(q)),
{
    assert(p & 0xfffu64 == 0 && q & 0xfffu64 == 0) by (bit_vector)
        requires
            p % 4096 == 0,
            q % 4096 == 0,
    ;
    assert(((p >> 30u64) & 0x1ffu64) == ((q >> 30u64) & 0x1ffu64) && ((p >> 21u64) & 0x1ffu64) == ((q
        >> 21u64) & 0x1ffu64) && ((p >> 12u64) & 0x1ffu64) == ((q >> 12u64) & 0x1ffu64) ==> p == q)
        by (bit_vector)
        requires
            p < 0x80_0000_0000u64,
            q < 0x80_0000_0000u64,
            p & 0xfffu64 == 0,
            q & 0xfffu64 == 0,
    ;
}


proof fn lemma_map_page_keeps(
    m: HeapModel,
    p: u64,
    root: u64,
    access: u64,
    mapped: spec_fn(u64) -> bool,
    acc: spec_fn(u64) -> u64,
)
    requires
        identity_mapped(m, root, mapped, acc),
        p < MAX_VIRTUAL_ADDRESS,
        map_page_spec(m, p, root, access).1,
    ensures
        identity_mapped(
            map_page_spec(m, p, root, access).0,
            root,
            |q: u64| mapped(q) || q == p,
            |q: u64|
                if q == p {
                    access
                } else {
                    acc(q)
                },
        ),
{
    reveal(identity_mapped);
    let m1 = map_page_spec(m, p, root, access).0;
    let acc1 = |q: u64|
        if q == p {
            access
        } else {
            acc(q)
        };
    lemma_map_in_tree(m, p, p, access, root);
    assert forall|q: u64| #[trigger] mapped(q) || q == p implies {
        &&& q < MAX_VIRTUAL_ADDRESS
        &&& q % 4096 == 0
        &&& translate_spec(m1, root, q) == TranslateOutcome::Translated(q)
        &&& leaf_entry(m1, root, q) & 0x3ff == acc1(q) | 1
    } by {
        if q != p {
            assert(mapped(q));
            lemma_pages_apart(q, p);
        }
    }
}

#[verifier::spinoff_prover]
proof fn lemma_map_range_keeps(
    m: HeapModel,
    page: int,
    end: int,
    root: u64,
    access: u64,
    mapped: spec_fn(u64) -> bool,
    acc: spec_fn(u64) -> u64,
)
    requires
        identity_mapped(m, root, mapped, acc),
        end < MAX_VIRTUAL_ADDRESS,
        page >= 0,
        page % 4096 == 0,
        map_range_spec(m, page, end, root, access).1,
    ensures
        identity_mapped(
            map_range_spec(m, page, end, root, access).0,
            root,
            |q: u64| mapped(q) || (page <= q <= end && q % 4096 == 0),
            |q: u64|
                if page <= q <= end && q % 4096 == 0 {
                    access
                } else {
                    acc(q)
                },
        ),
    decreases end + 4096 - page,
{
    let target = |q: u64| mapped(q) || (page <= q <= end && q % 4096 == 0);
    let target_acc = |q: u64|
        if page <= q <= end && q % 4096 == 0 {
            access
        } else {
            acc(q)
        };
    if page > end {
        lemma_identity_mapped_fewer(m, root, mapped, acc, target, target_acc);
    } else {
        let m1 = map_page_spec(m, page as u64, root, access).0;
        assert(map_page_spec(m, page as u64, root, access).1);
        assert(map_range_spec(m, page, end, root, access) == map_range_spec(
            m1,
            page + 4096,
            end,
            root,
            access,
        ));
        lemma_map_page_keeps(m, page as u64, root, access, mapped, acc);
        let mapped1 = |q: u64| mapped(q) || q == page as u64;
        let acc1 = |q: u64|
            if q == page as u64 {
                access
            } else {
                acc(q)
            };
        lemma_map_range_keeps(m1, page + 4096, end, root, access, mapped1, acc1);
        let m2 = map_range_spec(m1, page + 4096, end, root, access).0;
        let after = |q: u64| mapped1(q) || (page + 4096 <= q <= end && q % 4096 == 0);
        let after_acc = |q: u64|
            if page + 4096 <= q <= end && q % 4096 == 0 {
                access
            } else {
                acc1(q)
            };
        assert forall|q: u64| #[trigger] target(q) implies after(q) && target_acc(q) == after_acc(
            q,
        ) by {}
        lemma_identity_mapped_fewer(m2, root, after, after_acc, target, target_acc);
    }
}

proof fn lemma_step_keeps(
    m: HeapModel,
    step: MapStep,
    root: u64,
    mapped: spec_fn(u64) -> bool,
    acc: spec_fn(u64) -> u64,
)
    requires
        identity_mapped(m, root, mapped, acc),
        step_in_range(step),
        step_spec(m, step, root).1,
    ensures
        identity_mapped(
            step_spec(m, step, root).0,
            root,
            |q: u64| mapped(q) || step_covers(step, q),
            |q: u64|
                if step_covers(step, q) {
                    step_access(step)
                } else {
                    acc(q)
                },
        ),
{
    let m1 = step_spec(m, step, root).0;
    let target = |q: u64| mapped(q) || step_covers(step, q);
    let target_acc = |q: u64|
        if step_covers(step, q) {
            step_access(step)
        } else {
            acc(q)
        };
    match step {
        MapStep::Pages { start, end, access } => {
            lemma2_to64();
            let lo = aligned_up(start as nat, 12);
            assert(lo % 4096 == 0 && start <= lo) by {
                if start % 4096 != 0 {
                    assert(lo == (start / 4096 + 1) * 4096);
                }
            }
            assert(m1 == map_range_spec(m, lo as int, end as int, root, access).0);
            lemma_map_range_keeps(m, lo as int, end as int, root, access, mapped, acc);
            let after = |q: u64| mapped(q) || (lo <= q <= end && q % 4096 == 0);
            let after_acc = |q: u64|
                if lo <= q <= end && q % 4096 == 0 {
                    access
                } else {
                    acc(q)
                };
            assert forall|q: u64| #[trigger] target(q) implies after(q) && target_acc(q)
                == after_acc(q) by {
                if start <= q && q % 4096 == 0 && q < lo {
                    vstd::arithmetic::div_mod::lemma_fundamental_div_mod(start as int, 4096);
                    vstd::arithmetic::div_mod::lemma_fundamental_div_mod(q as int, 4096);
                }
            }
            lemma_identity_mapped_fewer(m1, root, after, after_acc, target, target_acc);
        },
        MapStep::Page { address, access } => {
            lemma_map_page_keeps(m, address, root, access, mapped, acc);
            let after = |q: u64| mapped(q) || q == address;
            let after_acc = |q: u64|
                if q == address {
                    access
                } else {
                    acc(q)
                };
            assert forall|q: u64| #[trigger] target(q) implies after(q) && target_acc(q)
                == after_acc(q) by {}
            lemma_identity_mapped_fewer(m1, root, after, after_acc, target, target_acc);
        },
    }
}

proof fn lemma_steps_keep(
    m: HeapModel,
    steps: Seq<MapStep>,
    root: u64,
    i: int,
    mapped: spec_fn(u64) -> bool,
    acc: spec_fn(u64) -> u64,
)
    requires
        identity_mapped(m, root, mapped, acc),
        0 <= i,
        forall|j: int| 0 <= j < steps.len() ==> #[trigger] step_in_range(steps[j]),
        steps_spec(m, steps, root, i).1,
    ensures
        identity_mapped(
            steps_spec(m, steps, root, i).0,
            root,
            |q: u64| mapped(q) || steps_cover(steps, i, q),
            |q: u64| covering_access(steps, i, q, acc(q)),
        ),
    decreases steps.len() - i,
{
    let target = |q: u64| mapped(q) || steps_cover(steps, i, q);
    let target_acc = |q: u64| covering_access(steps, i, q, acc(q));
    if i >= steps.len() {
        lemma_identity_mapped_fewer(m, root, mapped, acc, target, target_acc);
    } else {
        let m1 = step_spec(m, steps[i], root).0;
        lemma_step_keeps(m, steps[i], root, mapped, acc);
        let mapped1 = |q: u64| mapped(q) || step_covers(steps[i], q);
        let acc1 = |q: u64|
            if step_covers(steps[i], q) {
                step_access(steps[i])
            } else {
                acc(q)
            };
        lemma_steps_keep(m1, steps, root, i + 1, mapped1, acc1);
        let m2 = steps_spec(m1, steps, root, i + 1).0;
        let after = |q: u64| mapped1(q) || steps_cover(steps, i + 1, q);
        let after_acc = |q: u64| covering_access(steps, i + 1, q, acc1(q));
        assert forall|q: u64| #[trigger] target(q) implies after(q) && target_acc(q) == after_acc(
            q,
        ) by {
            if steps_cover(steps, i, q) && !mapped(q) {
                let j = choose|j: int| i <= j < steps.len() && #[trigger] step_covers(steps[j], q);
                if j > i {
                    assert(steps_cover(steps, i + 1, q));
                }
            }
        }
        lemma_identity_mapped_fewer(m2, root, after, after_acc, target, target_acc);
    }
}

/// Identity-mapping one range within a tree of tables: when every page of
/// the range is mapped, each page boundary from `start` to `end` translates
/// to itself through a leaf entry whose flag bits are the valid bit and
/// `access`; every page that translated to itself before still does, with
/// the same flag bits unless the range covers it; and the tables still
/// form a tree.
pub proof fn lemma_range_identity_map(
    m: HeapModel,
    root: u64,
    start: usize,
    end: usize,
    access: u64,
)
    requires
        m.wf(),
        table_tree(m, root),
        end < MAX_VIRTUAL_ADDRESS,
        step_spec(m, MapStep::Pages { start, end, access }, root).1,
    ensures
        ({
            let m1 = step_spec(m, MapStep::Pages { start, end, access }, root).0;
            &&& m1.wf()
            &&& table_tree(m1, root)
            &&& forall|p: u64|
                start <= p <= end && p % 4096 == 0 ==> {
                    &&& #[trigger] translate_spec(m1, root, p) == TranslateOutcome::Translated(p)
                    &&& leaf_entry(m1, root, p) & 0x3ff == access | 1
                }
            &&& forall|p: u64|
                p < MAX_VIRTUAL_ADDRESS && p % 4096 == 0 && translate_spec(m, root, p)
                    == TranslateOutcome::Translated(p) ==> {
                    &&& #[trigger] translate_spec(m1, root, p) == TranslateOutcome::Translated(p)
                    &&& !(start <= p <= end) ==> leaf_entry(m1, root, p) & 0x3ff == leaf_entry(m, root, p)
                        & 0x3ff
                }
        }),
{
    let step = MapStep::Pages { start, end, access };
    let before = |q: u64|
        q < MAX_VIRTUAL_ADDRESS && q % 4096 == 0 && translate_spec(m, root, q)
            == TranslateOutcome::Translated(q);
    let before_acc = |q: u64| (leaf_entry(m, root, q) & 0x3ff) & !1u64;
    assert(identity_mapped(m, root, before, before_acc)) by {
        reveal(identity_mapped);
        assert forall|q: u64| #[trigger] before(q) implies leaf_entry(m, root, q) & 0x3ff
            == before_acc(q) | 1 by {
            let e = leaf_entry(m, root, q);
            assert(pte_valid(e));
            assert(e & 0x3ffu64 == ((e & 0x3ffu64) & !1u64) | 1u64) by (bit_vector)
                requires
                    e & 1u64 == 1u64,
            ;
        }
    }
    lemma_step_keeps(m, step, root, before, before_acc);
    let m1 = step_spec(m, step, root).0;
    let after = |q: u64| before(q) || step_covers(step, q);
    let after_acc = |q: u64|
        if step_covers(step, q) {
            access
        } else {
            before_acc(q)
        };
    assert(identity_mapped(m1, root, after, after_acc));
    assert(m1.wf() && table_tree(m1, root)) by {
        reveal(identity_mapped);
    }
    assert forall|p: u64| start <= p <= end && p % 4096 == 0 implies {
        &&& #[trigger] translate_spec(m1, root, p) == TranslateOutcome::Translated(p)
        &&& leaf_entry(m1, root, p) & 0x3ff == access | 1
    } by {
        reveal(identity_mapped);
        assert(after(p));
    }
    assert forall|p: u64|
        p < MAX_VIRTUAL_ADDRESS && p % 4096 == 0 && translate_spec(m, root, p)
            == TranslateOutcome::Translated(p) implies {
        &&& #[trigger] translate_spec(m1, root, p) == TranslateOutcome::Translated(p)
        &&& !(start <= p <= end) ==> leaf_entry(m1, root, p) & 0x3ff == leaf_entry(m, root, p)
                        & 0x3ff
    } by {
        reveal(identity_mapped);
        assert(before(p));
        assert(after(p));
    }
}

/// The identity map of the kernel maps every page of its sections and
/// devices to itself: when it succeeds within a tree of tables (a newly
/// allocated root table is one, see `lemma_fresh_root_is_tree`), with
/// sections that end below the highest virtual address, each of those
/// pages translates to itself through a leaf entry whose flag bits are the
/// valid bit and the access bits of the last request that covers the page,
/// and the tables still form a tree of distinct held pages.
pub proof fn lemma_kernel_identity_map(m: HeapModel, root: u64, s: KernelSections)
    requires
        m.wf(),
        table_tree(m, root),
        s.text_end < MAX_VIRTUAL_ADDRESS,
        s.rodata_end < MAX_VIRTUAL_ADDRESS,
        s.data_end < MAX_VIRTUAL_ADDRESS,
        s.bss_end < MAX_VIRTUAL_ADDRESS,
        s.kernel_stack_end < MAX_VIRTUAL_ADDRESS,
        s.heap_end < MAX_VIRTUAL_ADDRESS,
        kernel_map_spec(m, root, s).1,
    ensures
        table_tree(kernel_map_spec(m, root, s).0, root),
        forall|p: u64|
            kernel_page(s, p) ==> {
                &&& #[trigger] translate_spec(kernel_map_spec(m, root, s).0, root, p)
                    == TranslateOutcome::Translated(p)
                &&& leaf_entry(kernel_map_spec(m, root, s).0, root, p) & 0x3ff == kernel_access(s, p)
                    | 1
            },
{
    let none = |q: u64| false;
    let zero = |q: u64| 0u64;
    assert(identity_mapped(m, root, none, zero)) by {
        reveal(identity_mapped);
    }
    let ram = ram_steps(s);
    let mmio = mmio_steps();
    assert forall|j: int| 0 <= j < ram.len() implies #[trigger] step_in_range(ram[j]) by {}
    assert forall|j: int| 0 <= j < mmio.len() implies #[trigger] step_in_range(mmio[j]) by {}
    lemma_steps_keep(m, ram, root, 0, none, zero);
    let m1 = steps_spec(m, ram, root, 0).0;
    let mapped1 = |q: u64| none(q) || steps_cover(ram, 0, q);
    let acc1 = |q: u64| covering_access(ram, 0, q, zero(q));
    lemma_steps_keep(m1, mmio, root, 0, mapped1, acc1);
    let m2 = steps_spec(m1, mmio, root, 0).0;
    reveal(identity_mapped);
    assert forall|p: u64| kernel_page(s, p) implies {
        &&& #[trigger] translate_spec(m2, root, p) == TranslateOutcome::Translated(p)
        &&& leaf_entry(m2, root, p) & 0x3ff == kernel_access(s, p) | 1
    } by {
        let after = |q: u64| mapped1(q) || steps_cover(mmio, 0, q);
        assert(after(p));
    }
}

/// Page `p` is a page boundary from `start` to `end`, both included.
pub open spec fn page_of_section(start: usize, end: usize, p: u64) -> bool {
    start <= p <= end && p % 4096 == 0
}

/// Page `p` is one of the device-register pages: the UART, the interrupt
/// controller's priority and pending pages and its hart context pages, and
/// the timer's pages.
pub open spec fn device_page(p: u64) -> bool {
    ||| p == 0x1000_0000
    ||| 0x0c00_0000 <= p <= 0x0c00_2000 && p % 4096 == 0
    ||| 0x0c20_0000 <= p <= 0x0c20_8000 && p % 4096 == 0
    ||| p == 0x0200_0000
    ||| p == 0x0200_c000
    ||| p == 0x0200_b000
}

/// Page `p` lies in one of the writable RAM sections: data, bss, the
/// kernel stack or the heap.
pub open spec fn writable_section_page(s: KernelSections, p: u64) -> bool {
    ||| page_of_section(s.data_start, s.data_end, p)
    ||| page_of_section(s.bss_start, s.bss_end, p)
    ||| page_of_section(s.kernel_stack_start, s.kernel_stack_end, p)
    ||| page_of_section(s.heap_start, s.heap_end, p)
}

/// The access bits each page of the kernel ends up with: read and write
/// (6) for the data, bss, stack and heap sections and for the device
/// registers, which are mapped after the code; read and execute (10) for
/// the text and read-only data pages that nothing later covers.
proof fn lemma_kernel_access_by_section(s: KernelSections, p: u64)
    ensures
        writable_section_page(s, p) || device_page(p) ==> kernel_access(s, p) == 6,
        !writable_section_page(s, p) && !device_page(p) && (page_of_section(
            s.text_start,
            s.text_end,
            p,
        ) || page_of_section(s.rodata_start, s.rodata_end, p)) ==> kernel_access(s, p) == 10,
{
    reveal_with_fuel(covering_access, 7);
    let ram = ram_steps(s);
    let mmio = mmio_steps();
    assert(ram.len() == 6);
    assert(mmio.len() == 6);
}

proof fn lemma_section_page_is_kernel_page(s: KernelSections, p: u64)
    requires
        writable_section_page(s, p) || device_page(p) || page_of_section(
            s.text_start,
            s.text_end,
            p,
        ) || page_of_section(s.rodata_start, s.rodata_end, p),
    ensures
        kernel_page(s, p),
{
    let ram = ram_steps(s);
    let mmio = mmio_steps();
    if page_of_section(s.text_start, s.text_end, p) {
        assert(step_covers(ram[0], p));
    } else if page_of_section(s.rodata_start, s.rodata_end, p) {
        assert(step_covers(ram[1], p));
    } else if page_of_section(s.data_start, s.data_end, p) {
        assert(step_covers(ram[2], p));
    } else if page_of_section(s.bss_start, s.bss_end, p) {
        assert(step_covers(ram[3], p));
    } else if page_of_section(s.kernel_stack_start, s.kernel_stack_end, p) {
        assert(step_covers(ram[4], p));
    } else if page_of_section(s.heap_start, s.heap_end, p) {
        assert(step_covers(ram[5], p));
    } else if p == 0x1000_0000 {
        assert(step_covers(mmio[0], p));
    } else if 0x0c00_0000 <= p <= 0x0c00_2000 && p % 4096 == 0 {
        assert(step_covers(mmio[1], p));
    } else if 0x0c20_0000 <= p <= 0x0c20_8000 && p % 4096 == 0 {
        assert(step_covers(mmio[2], p));
    } else if p == 0x0200_0000 {
        assert(step_covers(mmio[3], p));
    } else if p == 0x0200_c000 {
        assert(step_covers(mmio[4], p));
    } else {
        assert(step_covers(mmio[5], p));
    }
}

/// The identity map of the kernel gives each page the access its section
/// calls for: after it succeeds, the leaf entry of every page of the data,
/// bss, stack and heap sections and of every device page carries read and
/// write (6) with the valid bit, and that of every text and read-only data
/// page that no later section or device covers carries read and execute
/// (10) with the valid bit; each of those pages translates to itself.
pub proof fn lemma_kernel_section_access(m: HeapModel, root: u64, s: KernelSections)
    requires
        m.wf(),
        table_tree(m, root),
        s.text_end < MAX_VIRTUAL_ADDRESS,
        s.rodata_end < MAX_VIRTUAL_ADDRESS,
        s.data_end < MAX_VIRTUAL_ADDRESS,
        s.bss_end < MAX_VIRTUAL_ADDRESS,
        s.kernel_stack_end < MAX_VIRTUAL_ADDRESS,
        s.heap_end < MAX_VIRTUAL_ADDRESS,
        kernel_map_spec(m, root, s).1,
    ensures
        forall|p: u64|
            writable_section_page(s, p) || device_page(p) ==> {
                &&& #[trigger] translate_spec(kernel_map_spec(m, root, s).0, root, p)
                    == TranslateOutcome::Translated(p)
                &&& leaf_entry(kernel_map_spec(m, root, s).0, root, p) & 0x3ff == 6 | 1
            },
        forall|p: u64|
            !writable_section_page(s, p) && !device_page(p) && (page_of_section(
                s.text_start,
                s.text_end,
                p,
            ) || page_of_section(s.rodata_start, s.rodata_end, p)) ==> {
                &&& #[trigger] translate_spec(kernel_map_spec(m, root, s).0, root, p)
                    == TranslateOutcome::Translated(p)
                &&& leaf_entry(kernel_map_spec(m, root, s).0, root, p) & 0x3ff == 10 | 1
            },
{
    lemma_kernel_identity_map(m, root, s);
    assert forall|p: u64| writable_section_page(s, p) || device_page(p) implies {
        &&& #[trigger] translate_spec(kernel_map_spec(m, root, s).0, root, p)
            == TranslateOutcome::Translated(p)
        &&& leaf_entry(kernel_map_spec(m, root, s).0, root, p) & 0x3ff == 6 | 1
    } by {
        lemma_section_page_is_kernel_page(s, p);
        lemma_kernel_access_by_section(s, p);
    }
    assert forall|p: u64|
        !writable_section_page(s, p) && !device_page(p) && (page_of_section(
            s.text_start,
            s.text_end,
            p,
        ) || page_of_section(s.rodata_start, s.rodata_end, p)) implies {
        &&& #[trigger] translate_spec(kernel_map_spec(m, root, s).0, root, p)
            == TranslateOutcome::Translated(p)
        &&& leaf_entry(kernel_map_spec(m, root, s).0, root, p) & 0x3ff == 10 | 1
    } by {
        lemma_section_page_is_kernel_page(s, p);
        lemma_kernel_access_by_section(s, p);
    }
}

} // verus!
