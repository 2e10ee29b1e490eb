//! The page allocator. The heap begins with one descriptor byte per page,
//! then, from the first page boundary at or after their end, the pages
//! themselves.

pub mod descriptor_rules;
pub mod memory_abstractions;
pub mod memory_errors;

use vstd::prelude::*;
use vstd::arithmetic::div_mod::lemma_fundamental_div_mod;
use vstd::arithmetic::power2::{lemma2_to64, pow2};
use vstd::bits::{
    lemma_usize_low_bits_mask_is_mod,
    lemma_usize_pow2_no_overflow,
    lemma_usize_shl_is_mul,
    low_bits_mask,
};

use descriptor_rules::{
    count_taken,
    emptied,
    filled,
    group_end,
    has_fit,
    is_first_fit,
    lemma_count_range_change,
    lemma_count_taken_all_empty,
    lemma_count_taken_bound,
    lemma_emptied_well_ordered,
    lemma_filled_well_ordered,
    lemma_first_fit_unique,
    lemma_group_end_found,
    lemma_group_end_shape,
    lemma_scan_last_shape,
    next_desc,
    ordered_at,
    run_free,
    scan_last,
    valid_next,
    well_ordered,
};
pub use memory_abstractions::{DescriptorValue, FullHeapLayout, PageDescriptor};
pub use memory_errors::{MemoryAllocatioErrors, MemoryDeallocatioError};

verus! {

pub const PAGE_SIZE: usize = 4096;

/// The number of 64-bit words in one page.
pub const WORDS_PER_PAGE: usize = 512;

/// `val` rounded up to a multiple of `2^order`: a value that already is
/// such a multiple stays as it is.
pub open spec fn aligned_up(val: nat, order: nat) -> nat {
    if val % pow2(order) == 0 {
        val
    } else {
        (val / pow2(order) + 1) * pow2(order)
    }
}

/// Rounds `val` up to a multiple of `2^order`; a value that already is such
/// a multiple is left as it is.
pub fn align(val: usize, order: usize) -> (result: usize)
    requires
        order < usize::BITS,
        val + pow2(order as nat) - 1 <= usize::MAX,
    ensures
        result == aligned_up(val as nat, order as nat),
{
    proof {
        lemma_usize_pow2_no_overflow(order as nat);
        lemma_usize_shl_is_mul(1, order);
    }
    let addition_mask: usize = (1usize << order) - 1;
    let over_board: usize = val + addition_mask;
    let cut_mask: usize = !addition_mask;
    let result: usize = over_board & cut_mask;
    proof {
        let m = pow2(order as nat);
        assert(addition_mask + 1 == m);
        assert(over_board & cut_mask == over_board - (over_board & addition_mask)) by (bit_vector)
            requires
                cut_mask == !addition_mask,
        ;
        lemma_usize_low_bits_mask_is_mod(over_board, order as nat);
        assert(low_bits_mask(order as nat) == m - 1);
        assert(over_board & addition_mask == over_board % (m as usize));
        lemma_fundamental_div_mod(over_board as int, m as int);
        lemma_fundamental_div_mod(val as int, m as int);
        let q = val as int / m as int;
        let r = val as int % m as int;
        if r == 0 {
            assert(over_board == m * q + (m - 1)) by (nonlinear_arith)
                requires
                    val == m * q + r,
                    r == 0,
                    over_board == val + (m - 1),
            ;
            vstd::arithmetic::div_mod::lemma_fundamental_div_mod_converse(
                over_board as int,
                m as int,
                q,
                m - 1,
            );
        } else {
            assert(over_board == m * (q + 1) + (r - 1)) by (nonlinear_arith)
                requires
                    val == m * q + r,
                    over_board == val + (m - 1),
            ;
            vstd::arithmetic::div_mod::lemma_fundamental_div_mod_converse(
                over_board as int,
                m as int,
                q + 1,
                r - 1,
            );
            assert(m * (q + 1) == (q + 1) * m) by (nonlinear_arith);
        }
    }
    result
}

/// The most descriptor-and-page pairs the heap `start ..= end` can hold.
pub open spec fn max_descriptors(start: nat, end: nat) -> nat {
    ((end + 1 - start) as nat) / 4097
}

/// Where the pages begin: the first page boundary at or after the end of the
/// descriptors.
pub open spec fn layout_alloc_start(start: nat, end: nat) -> nat {
    aligned_up(start + max_descriptors(start, end), 12)
}

/// The number of whole pages between the first page boundary and the end of
/// the heap; each page has one descriptor.
pub open spec fn layout_num_pages(start: nat, end: nat) -> nat {
    ((end + 1 - layout_alloc_start(start, end)) as nat) / 4096
}

/// The heap `start ..= end` can be laid out: it lies within the address
/// space, its descriptors do not end at address zero, and it leaves at
/// least one byte after the descriptors' page boundary.
pub open spec fn layout_fits(start: nat, end: nat) -> bool {
    &&& start <= end
    &&& start + max_descriptors(start, end) > 0
    &&& end < usize::MAX
    &&& start + max_descriptors(start, end) + 4096 <= usize::MAX
    &&& layout_alloc_start(start, end) <= end
}

/// The layout record that start-up produces for the heap `start ..= end`.
pub open spec fn initial_layout(start: nat, end: nat) -> FullHeapLayout {
    let max = max_descriptors(start, end);
    let alloc_start = layout_alloc_start(start, end);
    let pages = layout_num_pages(start, end);
    FullHeapLayout {
        heap_start: Some(start as usize),
        heap_end: Some(end as usize),
        heap_size: Some((end + 1 - start) as usize),
        num_of_descriptors: Some(pages as usize),
        first_descriptor_address: Some(start as usize),
        last_descriptor_address: Some((start + max - 1) as usize),
        first_padding_address: Some((start + max) as usize),
        last_padding_address: Some((alloc_start - 1) as usize),
        num_of_pages: Some(pages as usize),
        alloc_start_address: Some(alloc_start as usize),
        last_page_address: if pages > 0 {
            Some((alloc_start + (pages - 1) * 4096) as usize)
        } else {
            None
        },
        unused_bytes: Some((end + 1 - (alloc_start + pages * 4096)) as usize),
        num_of_allocated_pages: 0,
        num_of_unallocated_pages: 0,
        num_of_allocations_done: 0,
        num_of_deallocations_done: 0,
    }
}

/// The abstract state of the heap: where it lies, each page's descriptor,
/// the contents of the pages as 64-bit words, and the layout record.
pub ghost struct HeapModel {
    pub heap_start: nat,
    pub heap_end: nat,
    pub alloc_start: nat,
    pub num_pages: nat,
    pub descs: Seq<DescriptorValue>,
    pub mem: Seq<u64>,
    pub layout: FullHeapLayout,
}

/// How a page-allocation request ends.
pub ghost enum AllocOutcome {
    /// The pages starting at this page index were handed out.
    Allocated(int),
    ZeroPagesRequested,
    NoFreeContiguousSpace,
}

/// How a page-deallocation request ends.
pub ghost enum DeallocOutcome {
    /// This many pages were freed.
    Freed(nat),
    NonHeapAddress,
    NotPageStart,
    PageNotLeading,
    DescriptorsOutOfOrder,
}

impl HeapModel {
    /// The heap is consistent: the pages lie inside it from a page
    /// boundary on, there is one descriptor and one page of words per page,
    /// the descriptors are in order, the counters agree with the pages
    /// allocated, and every free page holds zeros.
    pub open spec fn wf(self) -> bool {
        &&& self.alloc_start % 4096 == 0
        &&& self.heap_start <= self.alloc_start
        &&& self.alloc_start + self.num_pages * 4096 <= self.heap_end + 1
        &&& self.heap_end < usize::MAX
        &&& self.descs.len() == self.num_pages
        &&& self.mem.len() == self.num_pages * 512
        &&& well_ordered(self.descs)
        &&& self.layout.num_of_allocations_done == self.layout.num_of_deallocations_done
            + count_taken(self.descs)
        &&& free_pages_zero(self)
    }

    /// The address of page `i`.
    pub open spec fn page_addr(self, i: int) -> int {
        self.alloc_start + 4096 * i
    }

    /// The index of the page that holds address `a`.
    pub open spec fn page_index(self, a: int) -> int {
        (a - self.alloc_start) / 4096
    }

    /// Address `a` lies in one of the pages.
    pub open spec fn in_pages(self, a: int) -> bool {
        self.alloc_start <= a < self.alloc_start + self.num_pages * 4096
    }

    /// Address `a` is the first byte of one of the pages.
    pub open spec fn is_page(self, a: int) -> bool {
        a % 4096 == 0 && self.in_pages(a)
    }

    /// Address `a` is the first byte of a page that an allocation holds.
    pub open spec fn held_page(self, a: int) -> bool {
        self.is_page(a) && self.descs[self.page_index(a)] != DescriptorValue::Empty
    }

    /// The 64-bit word stored at address `a`.
    pub open spec fn word(self, a: int) -> u64 {
        self.mem[(a - self.alloc_start) / 8]
    }

    pub open spec fn with_word(self, a: int, v: u64) -> HeapModel {
        HeapModel { mem: self.mem.update((a - self.alloc_start) / 8, v), ..self }
    }

    /// The state after marking the `n` pages from index `i` as one allocation.
    pub open spec fn after_alloc(self, i: int, n: int) -> HeapModel {
        HeapModel {
            descs: filled(self.descs, i, n),
            layout: FullHeapLayout {
                num_of_allocations_done: (self.layout.num_of_allocations_done + n) as usize,
                ..self.layout
            },
            ..self
        }
    }

    /// The state after freeing pages `i ..= e`: their descriptors become
    /// `Empty` and their contents zero.
    pub open spec fn after_dealloc(self, i: int, e: int) -> HeapModel {
        HeapModel {
            descs: emptied(self.descs, i, e),
            mem: zeroed_pages(self.mem, i, e - i + 1),
            layout: FullHeapLayout {
                num_of_deallocations_done: (self.layout.num_of_deallocations_done + (e - i
                    + 1)) as usize,
                ..self.layout
            },
            ..self
        }
    }

    /// What a request for `n` pages does to this heap.
    pub open spec fn alloc_spec(self, n: int) -> (HeapModel, AllocOutcome) {
        if n == 0 {
            (self, AllocOutcome::ZeroPagesRequested)
        } else if !has_fit(self.descs, n) {
            (self, AllocOutcome::NoFreeContiguousSpace)
        } else {
            let i = descriptor_rules::first_fit(self.descs, n);
            (self.after_alloc(i, n), AllocOutcome::Allocated(i))
        }
    }

    /// What freeing address `a` does to this heap.
    pub open spec fn dealloc_spec(self, a: int) -> (HeapModel, DeallocOutcome) {
        if !(self.alloc_start <= a <= self.heap_end) {
            (self, DeallocOutcome::NonHeapAddress)
        } else if a % 4096 != 0 {
            (self, DeallocOutcome::NotPageStart)
        } else if !(self.page_index(a) < self.num_pages && (self.descs[self.page_index(a)]
            == DescriptorValue::FirstAndTaken || self.descs[self.page_index(a)]
            == DescriptorValue::FirstAndLast)) {
            (self, DeallocOutcome::PageNotLeading)
        } else {
            match group_end(self.descs, self.page_index(a)) {
                Some(e) => (
                    self.after_dealloc(self.page_index(a), e),
                    DeallocOutcome::Freed((e - self.page_index(a) + 1) as nat),
                ),
                None => (self, DeallocOutcome::DescriptorsOutOfOrder),
            }
        }
    }
}

/// The page contents with pages `i .. i + n` set to zero.
pub open spec fn zeroed_pages(mem: Seq<u64>, i: int, n: int) -> Seq<u64> {
    Seq::new(mem.len(), |w: int| if i * 512 <= w < (i + n) * 512 { 0u64 } else { mem[w] })
}

pub open spec fn alloc_result_matches(
    r: Result<usize, MemoryAllocatioErrors>,
    m: HeapModel,
    o: AllocOutcome,
) -> bool {
    match o {
        AllocOutcome::Allocated(i) => r == Ok::<usize, MemoryAllocatioErrors>(
            m.page_addr(i) as usize,
        ),
        AllocOutcome::ZeroPagesRequested => r == Err::<usize, MemoryAllocatioErrors>(
            MemoryAllocatioErrors::ZeroPagesRequested("Zero pages were requested from the allocator"),
        ),
        AllocOutcome::NoFreeContiguousSpace => r == Err::<usize, MemoryAllocatioErrors>(
            MemoryAllocatioErrors::NoFreeContiguousSpace("No Free contiguous pages were found"),
        ),
    }
}

pub open spec fn dealloc_result_matches(
    r: Result<(), MemoryDeallocatioError>,
    o: DeallocOutcome,
) -> bool {
    match o {
        DeallocOutcome::Freed(_) => r is Ok,
        DeallocOutcome::NonHeapAddress => r == Err::<(), MemoryDeallocatioError>(
            MemoryDeallocatioError::NonHeapAddressFound("Page address is not within the Heap"),
        ),
        DeallocOutcome::NotPageStart => r == Err::<(), MemoryDeallocatioError>(
            MemoryDeallocatioError::PageAddressIsMiddlePage("The address is not divisible by 4096"),
        ),
        DeallocOutcome::PageNotLeading => r == Err::<(), MemoryDeallocatioError>(
            MemoryDeallocatioError::PageNotLeading(
                "The Page address references to a Page that is not the leading page in the contiguous group of pages",
            ),
        ),
        DeallocOutcome::DescriptorsOutOfOrder => r matches Err(MemoryDeallocatioError::Other(_)),
    }
}

/// The heap: its layout, one descriptor per page, and the pages' contents.
pub struct PageManager {
    layout: FullHeapLayout,
    heap_start: usize,
    heap_end: usize,
    alloc_start: usize,
    num_dp: usize,
    descriptors: Vec<PageDescriptor>,
    memory: Vec<u64>,
}

impl View for PageManager {
    type V = HeapModel;

    closed spec fn view(&self) -> HeapModel {
        HeapModel {
            heap_start: self.heap_start as nat,
            heap_end: self.heap_end as nat,
            alloc_start: self.alloc_start as nat,
            num_pages: self.num_dp as nat,
            descs: self.descriptors@.map_values(|d: PageDescriptor| d@),
            mem: self.memory@,
            layout: self.layout,
        }
    }
}

impl PageManager {
    /// The heap is consistent: see `HeapModel::wf`.
    pub open spec fn wf(&self) -> bool {
        self@.wf()
    }
}

} // verus!

verus! {

impl PageManager {
    /// The vectors have the lengths that the page count calls for.
    closed spec fn lens_ok(&self) -> bool {
        &&& self.descriptors@.len() == self.num_dp
        &&& self.memory@.len() == self.num_dp * 512
    }
}

/// Whether the heap `heap_start ..= heap_end` can be laid out.
pub fn heap_layout_fits(heap_start: usize, heap_end: usize) -> (b: bool)
    ensures
        b == layout_fits(heap_start as nat, heap_end as nat),
{
    proof {
        lemma2_to64();
    }
    if heap_start > heap_end || heap_end == usize::MAX {
        return false;
    }
    let max = (heap_end + 1 - heap_start) / 4097;
    if heap_start + max == 0 {
        return false;
    }
    if heap_start > usize::MAX - 4096 - max {
        return false;
    }
    let alloc_start = align(heap_start + max, 12);
    alloc_start <= heap_end
}

/// The size of the heap `heap_start ..= heap_end` in bytes.
pub fn get_heap_size(heap_start: usize, heap_end: usize) -> (size: usize)
    requires
        heap_start <= heap_end < usize::MAX,
    ensures
        size == heap_end + 1 - heap_start,
{
    let heap_memory_size = (heap_end + 1) - heap_start;
    heap_memory_size
}

/// Works out where the descriptors, the padding and the pages of the heap
/// `heap_start ..= heap_end` lie.
fn determine_heap_layout(heap_start: usize, heap_end: usize) -> (l: FullHeapLayout)
    requires
        layout_fits(heap_start as nat, heap_end as nat),
    ensures
        l == initial_layout(heap_start as nat, heap_end as nat),
{
    let heap_memory_size = get_heap_size(heap_start, heap_end);
    let size_of_page_and_descriptor: usize = 4096 + 1;
    let max_num_dp = heap_memory_size / size_of_page_and_descriptor;
    let address_after_last_descriptor: usize = heap_start + max_num_dp;
    proof {
        lemma2_to64();
    }
    let alloc_start: usize = align(address_after_last_descriptor, 12);
    let actual_num_pages: usize = (heap_end + 1 - alloc_start) / 4096;
    assert(actual_num_pages * 4096 <= heap_end + 1 - alloc_start);
    assert(alloc_start >= heap_start + max_num_dp) by {
        assert(aligned_up((heap_start + max_num_dp) as nat, 12) >= heap_start + max_num_dp)
            by (nonlinear_arith)
            requires
                pow2(12) == 4096,
        ;
    }
    let last_page_address = if actual_num_pages > 0 {
        Some(alloc_start + (actual_num_pages - 1) * 4096)
    } else {
        None
    };
    FullHeapLayout {
        heap_start: Some(heap_start),
        heap_end: Some(heap_end),
        heap_size: Some(heap_memory_size),
        num_of_descriptors: Some(actual_num_pages),
        first_descriptor_address: Some(heap_start),
        last_descriptor_address: Some(address_after_last_descriptor - 1),
        first_padding_address: Some(address_after_last_descriptor),
        last_padding_address: Some(alloc_start - 1),
        num_of_pages: Some(actual_num_pages),
        alloc_start_address: Some(alloc_start),
        last_page_address: last_page_address,
        unused_bytes: Some(heap_end + 1 - (alloc_start + actual_num_pages * 4096)),
        num_of_allocated_pages: 0,
        num_of_unallocated_pages: 0,
        num_of_allocations_done: 0,
        num_of_deallocations_done: 0,
    }
}

/// Zeroes the whole heap: every descriptor reads `Empty` and every page
/// holds zeros.
fn clear_entire_heap(num_pages: usize) -> (res: (Vec<PageDescriptor>, Vec<u64>))
    requires
        num_pages * 512 <= usize::MAX,
    ensures
        res.0@.len() == num_pages,
        res.1@.len() == num_pages * 512,
        forall|j: int| 0 <= j < num_pages ==> #[trigger] res.0@[j]@ == DescriptorValue::Empty,
        forall|w: int| 0 <= w < num_pages * 512 ==> #[trigger] res.1@[w] == 0,
{
    let mut descriptors: Vec<PageDescriptor> = Vec::new();
    let mut i: usize = 0;
    while i < num_pages
        invariant
            i <= num_pages,
            descriptors@.len() == i,
            forall|j: int| 0 <= j < i ==> #[trigger] descriptors@[j]@ == DescriptorValue::Empty,
        decreases num_pages - i,
    {
        descriptors.push(PageDescriptor::new_empty());
        i = i + 1;
    }
    let num_words = num_pages * 512;
    let mut memory: Vec<u64> = Vec::new();
    let mut w: usize = 0;
    while w < num_words
        invariant
            w <= num_words,
            memory@.len() == w,
            forall|k: int| 0 <= k < w ==> #[trigger] memory@[k] == 0,
        decreases num_words - w,
    {
        memory.push(0u64);
        w = w + 1;
    }
    (descriptors, memory)
}

/// Sets up the heap `heap_start ..= heap_end`: every byte zero, the
/// descriptors at the start, the pages from the first page boundary at or
/// after their end, and every page free.
pub fn init_memory(heap_start: usize, heap_end: usize) -> (pm: PageManager)
    requires
        layout_fits(heap_start as nat, heap_end as nat),
    ensures
        pm.wf(),
        pm@.heap_start == heap_start,
        pm@.heap_end == heap_end,
        pm@.alloc_start == layout_alloc_start(heap_start as nat, heap_end as nat),
        pm@.num_pages == layout_num_pages(heap_start as nat, heap_end as nat),
        forall|j: int| 0 <= j < pm@.num_pages ==> #[trigger] pm@.descs[j] == DescriptorValue::Empty,
        forall|w: int| 0 <= w < pm@.mem.len() ==> #[trigger] pm@.mem[w] == 0,
        pm@.layout == initial_layout(heap_start as nat, heap_end as nat),
{
    let layout = determine_heap_layout(heap_start, heap_end);
    let alloc_start = match layout.alloc_start_address {
        Some(a) => a,
        None => 0,
    };
    let num_dp = match layout.num_of_pages {
        Some(n) => n,
        None => 0,
    };
    proof {
        lemma2_to64();
        assert(num_dp * 4096 <= heap_end + 1 - alloc_start);
    }
    let (descriptors, memory) = clear_entire_heap(num_dp);
    let pm = PageManager {
        layout,
        heap_start,
        heap_end,
        alloc_start,
        num_dp,
        descriptors,
        memory,
    };
    proof {
        let d = pm@.descs;
        assert forall|j: int| 0 <= j < d.len() implies d[j] == DescriptorValue::Empty by {
            assert(descriptors@[j]@ == DescriptorValue::Empty);
        }
        assert forall|j: int| 0 <= j < d.len() implies #[trigger] ordered_at(d, j) by {
            if j + 1 < d.len() {
                assert(d[j + 1] == DescriptorValue::Empty);
            }
        }
        lemma_count_taken_all_empty(d);
    }
    pm
}

} // verus!

verus! {

/// Looks for the first run of `req_pages` free descriptors; returns the
/// index of its first descriptor.
pub fn find_first_contiguous(pm: &PageManager, req_pages: usize) -> (r: Option<usize>)
    requires
        pm.wf(),
        req_pages > 0,
    ensures
        match r {
            Some(i) => is_first_fit(pm@.descs, req_pages as int, i as int),
            None => !has_fit(pm@.descs, req_pages as int),
        },
{
    let mut count: usize = 0;
    let num_of_descriptors = pm.num_dp;
    let mut index: usize = 0;
    let ghost d = pm@.descs;
    while index < num_of_descriptors
        invariant
            pm.wf(),
            d == pm@.descs,
            num_of_descriptors == d.len(),
            req_pages > 0,
            index <= num_of_descriptors,
            count <= index,
            count < req_pages,
            forall|j: int| index - count <= j < index ==> d[j] == DescriptorValue::Empty,
            index - count == 0 || d[index - count - 1] != DescriptorValue::Empty,
            forall|k: int| 0 <= k && k + req_pages <= index ==> !run_free(d, k, req_pages as int),
        decreases num_of_descriptors - index,
    {
        let descriptor_val = pm.descriptors[index].get_val();
        assert(descriptor_val == d[index as int]);
        if descriptor_val == DescriptorValue::Empty {
            count = count + 1;
            if count == req_pages {
                let first = index - (req_pages - 1);
                assert(run_free(d, first as int, req_pages as int));
                return Some(first);
            }
            assert forall|k: int| 0 <= k && k + req_pages <= index + 1 implies !run_free(
                d,
                k,
                req_pages as int,
            ) by {
                if k + req_pages == index + 1 {
                    assert(k <= index - count);
                    if index + 1 - count >= 1 {
                        assert(d[index + 1 - count - 1] != DescriptorValue::Empty);
                        assert(k <= index + 1 - count - 1);
                    }
                }
            }
        } else {
            count = 0;
            assert forall|k: int| 0 <= k && k + req_pages <= index + 1 implies !run_free(
                d,
                k,
                req_pages as int,
            ) by {
                if k + req_pages == index + 1 {
                    assert(d[index as int] != DescriptorValue::Empty);
                }
            }
        }
        index = index + 1;
    }
    None
}

/// Marks the `req_pages` free descriptors starting at `first_descriptor_index`
/// as one allocation: first, middles, last, or a single first-and-last.
fn fill_descriptors(pm: &mut PageManager, first_descriptor_index: usize, req_pages: usize)
    requires
        old(pm).wf(),
        req_pages >= 1,
        run_free(old(pm)@.descs, first_descriptor_index as int, req_pages as int),
    ensures
        final(pm).lens_ok(),
        final(pm)@ == (HeapModel {
            descs: filled(old(pm)@.descs, first_descriptor_index as int, req_pages as int),
            ..old(pm)@
        }),
{
    let ghost d0 = old(pm)@.descs;
    let ghost f = filled(d0, first_descriptor_index as int, req_pages as int);
    if req_pages == 1 {
        let mut desc = pm.descriptors[first_descriptor_index];
        desc.set_flast();
        pm.descriptors.set(first_descriptor_index, desc);
        assert(pm@.descs =~= f);
    } else {
        let last_index = req_pages - 1;
        let mut index: usize = 0;
        while index < req_pages
            invariant
                req_pages > 1,
                last_index == req_pages - 1,
                index <= req_pages,
                first_descriptor_index + req_pages <= pm.num_dp,
                pm.descriptors@.len() == pm.num_dp,
                pm.num_dp == old(pm).num_dp,
                pm.memory == old(pm).memory,
                pm.layout == old(pm).layout,
                pm.heap_start == old(pm).heap_start,
                pm.heap_end == old(pm).heap_end,
                pm.alloc_start == old(pm).alloc_start,
                d0 == old(pm)@.descs,
                d0.len() == pm.num_dp,
                f == filled(d0, first_descriptor_index as int, req_pages as int),
                forall|j: int|
                    0 <= j < pm.num_dp ==> #[trigger] pm.descriptors@[j]@ == if first_descriptor_index
                        <= j < first_descriptor_index + index {
                        f[j]
                    } else {
                        d0[j]
                    },
            decreases req_pages - index,
        {
            let mut desc = pm.descriptors[first_descriptor_index + index];
            if index == 0 {
                desc.set_first();
            } else if index < last_index {
                desc.set_middle();
            } else {
                desc.set_last();
            }
            assert(desc@ == f[first_descriptor_index + index]);
            pm.descriptors.set(first_descriptor_index + index, desc);
            index = index + 1;
        }
        assert(pm@.descs =~= f);
    }
}

/// The address of the page that descriptor `index` describes.
pub fn get_page_addr_from_page_index(pm: &PageManager, index: usize) -> (a: usize)
    requires
        pm.wf(),
        index <= pm@.num_pages,
    ensures
        a == pm@.page_addr(index as int),
{
    pm.alloc_start + 4096 * index
}

/// Hands out `req_pages` contiguous pages: the first run of free pages that
/// is long enough. Returns the address of its first page.
pub fn zalloc(pm: &mut PageManager, req_pages: usize) -> (r: Result<usize, MemoryAllocatioErrors>)
    requires
        old(pm).wf(),
        has_fit(old(pm)@.descs, req_pages as int) ==> old(pm)@.layout.num_of_allocations_done
            + req_pages <= usize::MAX,
    ensures
        final(pm).wf(),
        final(pm)@ == old(pm)@.alloc_spec(req_pages as int).0,
        alloc_result_matches(r, old(pm)@, old(pm)@.alloc_spec(req_pages as int).1),
{
    if req_pages == 0 {
        return Err(MemoryAllocatioErrors::ZeroPagesRequested("Zero pages were requested from the allocator"));
    }
    let search_result = find_first_contiguous(pm, req_pages);
    let first_descriptor_index = match search_result {
        Some(descriptor_index) => descriptor_index,
        None => {
            return Err(
                MemoryAllocatioErrors::NoFreeContiguousSpace("No Free contiguous pages were found"),
            );
        },
    };
    proof {
        let d0 = pm@.descs;
        lemma_alloc_gives_zero_pages(pm@, req_pages as int);
        lemma_first_fit_unique(d0, req_pages as int, first_descriptor_index as int);
        lemma_filled_well_ordered(d0, first_descriptor_index as int, req_pages as int);
        lemma_count_range_change(
            d0,
            filled(d0, first_descriptor_index as int, req_pages as int),
            first_descriptor_index as int,
            first_descriptor_index + req_pages,
        );
    }
    fill_descriptors(pm, first_descriptor_index, req_pages);
    pm.layout.num_of_allocations_done = pm.layout.num_of_allocations_done + req_pages;
    let page_address = get_page_addr_from_page_index(pm, first_descriptor_index);
    Ok(page_address)
}

} // verus!

verus! {

/// Whether `address` is the first byte of one of the heap's pages.
pub fn page_in_heap(pm: &PageManager, address: u64) -> (b: bool)
    requires
        pm.wf(),
    ensures
        b == pm@.is_page(address as int),
{
    let start = pm.alloc_start as u64;
    let span = (pm.num_dp as u64) * 4096;
    address % 4096 == 0 && start <= address && (address - start) < span
}

/// Whether `address` is the first byte of a page that an allocation holds.
pub fn page_is_held(pm: &PageManager, address: u64) -> (b: bool)
    requires
        pm.wf(),
    ensures
        b == pm@.held_page(address as int),
{
    if !page_in_heap(pm, address) {
        return false;
    }
    let index = ((address - pm.alloc_start as u64) / 4096) as usize;
    match pm.descriptors[index].get_val() {
        DescriptorValue::Empty => false,
        _ => true,
    }
}

/// The 64-bit word stored at `address`, which must lie in one of the pages
/// and be a multiple of eight.
pub fn read_word(pm: &PageManager, address: u64) -> (w: u64)
    requires
        pm.wf(),
        pm@.in_pages(address as int),
        address % 8 == 0,
    ensures
        w == pm@.word(address as int),
{
    let index = ((address - pm.alloc_start as u64) / 8) as usize;
    pm.memory[index]
}

/// Stores `value` as the 64-bit word at `address`, which must lie in a page
/// that an allocation holds: free pages are never written, so they stay
/// zero.
pub fn write_word(pm: &mut PageManager, address: u64, value: u64)
    requires
        old(pm).wf(),
        old(pm)@.in_pages(address as int),
        old(pm)@.descs[old(pm)@.page_index(address as int)] != DescriptorValue::Empty,
        address % 8 == 0,
    ensures
        final(pm).wf(),
        final(pm)@ == old(pm)@.with_word(address as int, value),
{
    let index = ((address - pm.alloc_start as u64) / 8) as usize;
    proof {
        let m = pm@;
        let x = address - m.alloc_start;
        vstd::arithmetic::div_mod::lemma_div_denominator(x as int, 8, 512);
        assert(index as int / 512 == m.page_index(address as int));
    }
    pm.memory.set(index, value);
}

/// The index of the page that `page_addr` lies in, counting from the first
/// page.
fn get_page_index_from_addr(pm: &PageManager, page_addr: usize) -> (i: usize)
    requires
        pm.wf(),
        page_addr >= pm@.alloc_start,
    ensures
        i == pm@.page_index(page_addr as int),
{
    let page_index = (page_addr - pm.alloc_start) / 4096;
    page_index
}

/// Whether `page_addr` lies between the first page and the end of the heap.
fn check_if_page_within_heap(pm: &PageManager, page_addr: usize) -> (b: bool)
    requires
        pm.wf(),
    ensures
        b == (pm@.alloc_start <= page_addr <= pm@.heap_end),
{
    if page_addr <= pm.heap_end && page_addr >= pm.alloc_start {
        return true;
    } else {
        return false;
    }
}

/// Whether `page_addr` is a multiple of the page size.
pub fn check_if_page_addr(page_addr: usize) -> (b: bool)
    ensures
        b == (page_addr % 4096 == 0),
{
    let remainder = page_addr % 4096;
    if remainder > 0 {
        return false;
    } else {
        return true;
    }
}

/// Whether the page at `page_addr` is the first page of an allocation. A
/// page past the last descriptor reads as free.
fn check_if_page_is_first(pm: &PageManager, page_addr: usize) -> (b: bool)
    requires
        pm.wf(),
        page_addr >= pm@.alloc_start,
    ensures
        b == (pm@.page_index(page_addr as int) < pm@.num_pages && (pm@.descs[pm@.page_index(
            page_addr as int,
        )] == DescriptorValue::FirstAndTaken || pm@.descs[pm@.page_index(page_addr as int)]
            == DescriptorValue::FirstAndLast)),
{
    let page_index = get_page_index_from_addr(pm, page_addr);
    let desc_index = page_index;
    if desc_index >= pm.num_dp {
        return false;
    }
    let value = pm.descriptors[desc_index].get_val();
    if (value == DescriptorValue::FirstAndTaken) || (value == DescriptorValue::FirstAndLast) {
        return true;
    } else {
        return false;
    }
}

/// Empties the descriptors of the allocation that starts at descriptor
/// `index`, after checking that they are in order; returns how many were
/// emptied. A descriptor past the last one reads as `Empty`.
fn empty_group_of_descriptors(pm: &mut PageManager, index: usize) -> (r: Result<
    usize,
    MemoryDeallocatioError,
>)
    requires
        old(pm).wf(),
        index < old(pm)@.num_pages,
    ensures
        final(pm).lens_ok(),
        match group_end(old(pm)@.descs, index as int) {
            Some(e) => {
                &&& r == Ok::<usize, MemoryDeallocatioError>((e - index + 1) as usize)
                &&& final(pm)@ == (HeapModel {
                    descs: emptied(old(pm)@.descs, index as int, e),
                    ..old(pm)@
                })
            },
            None => {
                &&& r matches Err(MemoryDeallocatioError::Other(_))
                &&& final(pm)@ == old(pm)@
            },
        },
{
    let ghost d0 = old(pm)@.descs;
    let num = pm.num_dp;
    let subject_val = pm.descriptors[index].get_val();
    match subject_val {
        DescriptorValue::Empty => {
            return Err(MemoryDeallocatioError::Other("Tried to free an empty Descriptor"));
        },
        DescriptorValue::LastAndTaken => {
            return Err(MemoryDeallocatioError::Other("The Passed index was not a leading descriptor"));
        },
        DescriptorValue::MiddleAndTaken => {
            return Err(MemoryDeallocatioError::Other("The Passed index was not a leading descriptor"));
        },
        DescriptorValue::FirstAndLast => {
            let mut desc = pm.descriptors[index];
            desc.set_empty();
            pm.descriptors.set(index, desc);
            assert(pm@.descs =~= emptied(d0, index as int, index as int));
            return Ok(1);
        },
        DescriptorValue::FirstAndTaken => {
            let mut count: usize = 1;
            loop
                invariant
                    pm@ == old(pm)@,
                    pm.wf(),
                    d0 == pm@.descs,
                    num == d0.len(),
                    d0[index as int] == DescriptorValue::FirstAndTaken,
                    1 <= count,
                    index + count <= num,
                    forall|k: int| index < k < index + count ==> d0[k] == DescriptorValue::MiddleAndTaken,
                    scan_last(d0, index + 1) == scan_last(d0, index + count),
                ensures
                    pm@ == old(pm)@,
                    pm.wf(),
                    index + count < num,
                    d0[index + count] == DescriptorValue::LastAndTaken,
                    forall|k: int| index < k < index + count ==> d0[k] == DescriptorValue::MiddleAndTaken,
                    scan_last(d0, index + 1) == scan_last(d0, index + count),
                decreases num - index - count,
            {
                if index + count >= num {
                    return Err(MemoryDeallocatioError::Other("Misplaced Empty Descriptor"));
                }
                let next_desc_val = pm.descriptors[index + count].get_val();
                assert(next_desc_val == d0[index + count]);
                match next_desc_val {
                    DescriptorValue::Empty => {
                        return Err(MemoryDeallocatioError::Other("Misplaced Empty Descriptor"));
                    },
                    DescriptorValue::LastAndTaken => {
                        break ;
                    },
                    DescriptorValue::FirstAndLast => {
                        return Err(
                            MemoryDeallocatioError::Other("Misplaced FirstAndLast Descriptor"),
                        );
                    },
                    DescriptorValue::FirstAndTaken => {
                        return Err(
                            MemoryDeallocatioError::Other("Misplaced FirstAndTaken Descriptor"),
                        );
                    },
                    DescriptorValue::MiddleAndTaken => {
                        count = count + 1;
                    },
                }
            }
            let ghost e = index + count;
            assert(group_end(d0, index as int) == Some(e));
            count = 0;
            assert(emptied(d0, index as int, index - 1) =~= d0);
            loop
                invariant
                    pm.lens_ok(),
                    pm.num_dp == num,
                    num == d0.len(),
                    d0 == old(pm)@.descs,
                    e < num,
                    index + count <= e,
                    d0[e] == DescriptorValue::LastAndTaken,
                    forall|k: int| index < k < e ==> d0[k] == DescriptorValue::MiddleAndTaken,
                    d0[index as int] == DescriptorValue::FirstAndTaken,
                    group_end(d0, index as int) == Some(e),
                    pm@ == (HeapModel {
                        descs: emptied(d0, index as int, index + count - 1),
                        ..old(pm)@
                    }),
                decreases e - index - count,
            {
                let current = index + count;
                let mut desc = pm.descriptors[current];
                assert(pm@.descs[current as int] == d0[current as int]);
                assert(desc@ == d0[current as int]);
                let ghost before = pm@.descs;
                if desc.get_val() == DescriptorValue::LastAndTaken {
                    assert(current == e);
                    desc.set_empty();
                    pm.descriptors.set(current, desc);
                    assert(pm@.descs =~= before.update(current as int, DescriptorValue::Empty));
                    assert(pm@.descs =~= emptied(d0, index as int, e));
                    return Ok(count + 1);
                } else {
                    desc.set_empty();
                    pm.descriptors.set(current, desc);
                    assert(pm@.descs =~= before.update(current as int, DescriptorValue::Empty));
                    count = count + 1;
                    assert(pm@.descs =~= emptied(d0, index as int, index + count - 1));
                }
            }
        },
    }
}

/// Zeroes the `req_pages` pages that start at `page_addr`.
fn empty_group_of_pages(pm: &mut PageManager, page_addr: usize, req_pages: usize)
    requires
        old(pm).lens_ok(),
        page_addr >= old(pm)@.alloc_start,
        (page_addr - old(pm)@.alloc_start) % 4096 == 0,
        old(pm)@.page_index(page_addr as int) + req_pages <= old(pm)@.num_pages,
    ensures
        final(pm).lens_ok(),
        final(pm)@ == (HeapModel {
            mem: zeroed_pages(old(pm)@.mem, old(pm)@.page_index(page_addr as int), req_pages as int),
            ..old(pm)@
        }),
{
    let first = (page_addr - pm.alloc_start) / 4096;
    assert(first == old(pm)@.page_index(page_addr as int));
    assert(first + req_pages <= pm.num_dp);
    assert(pm.memory@.len() == pm.num_dp * 512);
    assert(pm.memory.len() <= usize::MAX);
    assert((first + req_pages) * 512 <= pm.num_dp * 512);
    let start_word = first * 512;
    let end_word = (first + req_pages) * 512;
    let mut w = start_word;
    let ghost m0 = old(pm)@.mem;
    while w < end_word
        invariant
            pm.lens_ok(),
            start_word <= w <= end_word,
            start_word == first * 512,
            end_word == (first + req_pages) * 512,
            end_word <= pm.memory@.len(),
            pm@ == (HeapModel { mem: pm@.mem, ..old(pm)@ }),
            m0 == old(pm)@.mem,
            pm@.mem.len() == m0.len(),
            forall|k: int|
                0 <= k < m0.len() ==> #[trigger] pm@.mem[k] == if start_word <= k < w {
                    0u64
                } else {
                    m0[k]
                },
        decreases end_word - w,
    {
        pm.memory.set(w, 0u64);
        w = w + 1;
    }
    assert(pm@.mem =~= zeroed_pages(m0, first as int, req_pages as int));
}

/// Frees the allocation whose first page is at `page_addr`: its
/// descriptors become `Empty` and its pages are zeroed. Refuses an address
/// outside the heap's pages, one that is not a page boundary, and one that
/// is not the first page of an allocation.
pub fn dealloc(pm: &mut PageManager, page_addr: usize) -> (r: Result<(), MemoryDeallocatioError>)
    requires
        old(pm).wf(),
    ensures
        final(pm).wf(),
        final(pm)@ == old(pm)@.dealloc_spec(page_addr as int).0,
        dealloc_result_matches(r, old(pm)@.dealloc_spec(page_addr as int).1),
{
    if check_if_page_within_heap(pm, page_addr) == false {
        return Err(MemoryDeallocatioError::NonHeapAddressFound("Page address is not within the Heap"));
    } else if check_if_page_addr(page_addr) == false {
        return Err(MemoryDeallocatioError::PageAddressIsMiddlePage("The address is not divisible by 4096"));
    } else if check_if_page_is_first(pm, page_addr) == false {
        return Err(
            MemoryDeallocatioError::PageNotLeading(
                "The Page address references to a Page that is not the leading page in the contiguous group of pages",
            ),
        );
    } else {
        let ghost m0 = pm@;
        let page_index = get_page_index_from_addr(pm, page_addr);
        proof {
            lemma_group_end_found(m0.descs, page_index as int);
            lemma_group_end_shape(m0.descs, page_index as int);
        }
        let ghost e = group_end(m0.descs, page_index as int)->0;
        let deallocate_desc_results = empty_group_of_descriptors(pm, page_index);
        let emptied_descriptors = match deallocate_desc_results {
            Ok(num) => num,
            Err(error) => {
                return Err(error);
            },
        };
        assert(page_addr % 4096 == 0 && m0.alloc_start % 4096 == 0);
        assert((page_addr - m0.alloc_start) % 4096 == 0);
        empty_group_of_pages(pm, page_addr, emptied_descriptors);
        proof {
            lemma_dealloc_keeps_free_pages_zero(m0, page_addr as int);
            lemma_emptied_well_ordered(m0.descs, page_index as int);
            lemma_count_range_change(
                emptied(m0.descs, page_index as int, e),
                m0.descs,
                page_index as int,
                e + 1,
            );
        }
        pm.layout.num_of_deallocations_done = pm.layout.num_of_deallocations_done
            + emptied_descriptors;
        return Ok(());
    }
}

} // verus!

verus! {

proof fn lemma_count_taken_step(d: Seq<DescriptorValue>, i: int)
    requires
        0 <= i < d.len(),
    ensures
        count_taken(d.take(i + 1)) == count_taken(d.take(i)) + if d[i] == DescriptorValue::Empty {
            0nat
        } else {
            1nat
        },
{
    assert(d.take(i + 1).drop_last() =~= d.take(i));
}

/// Counts the descriptors: returns (allocated pages, free pages).
fn get_page_counts(pm: &PageManager) -> (r: (usize, usize))
    requires
        pm.wf(),
    ensures
        r.0 == count_taken(pm@.descs),
        r.0 + r.1 == pm@.num_pages,
{
    let mut count_of_allocated: usize = 0;
    let mut count_of_unallocated: usize = 0;
    let num = pm.num_dp;
    let mut index: usize = 0;
    let ghost d = pm@.descs;
    while index < num
        invariant
            pm.wf(),
            d == pm@.descs,
            num == d.len(),
            index <= num,
            count_of_allocated == count_taken(d.take(index as int)),
            count_of_allocated + count_of_unallocated == index,
        decreases num - index,
    {
        proof {
            lemma_count_taken_step(d, index as int);
        }
        let value = pm.descriptors[index].get_val();
        assert(value == d[index as int]);
        match value {
            DescriptorValue::Empty => count_of_unallocated = count_of_unallocated + 1,
            DescriptorValue::FirstAndLast => count_of_allocated = count_of_allocated + 1,
            DescriptorValue::FirstAndTaken => count_of_allocated = count_of_allocated + 1,
            DescriptorValue::MiddleAndTaken => count_of_allocated = count_of_allocated + 1,
            DescriptorValue::LastAndTaken => count_of_allocated = count_of_allocated + 1,
        }
        index = index + 1;
    }
    assert(d.take(num as int) =~= d);
    (count_of_allocated, count_of_unallocated)
}

/// Records the current numbers of allocated and free pages in the layout.
fn update_heap_page_states(pm: &mut PageManager)
    requires
        old(pm).wf(),
    ensures
        final(pm).wf(),
        final(pm)@ == (HeapModel {
            layout: FullHeapLayout {
                num_of_allocated_pages: count_taken(old(pm)@.descs) as usize,
                num_of_unallocated_pages: (old(pm)@.num_pages - count_taken(old(pm)@.descs)) as usize,
                ..old(pm)@.layout
            },
            ..old(pm)@
        }),
{
    let (num_of_allocated_pages, num_of_unallocated_pages) = get_page_counts(pm);
    pm.layout.num_of_allocated_pages = num_of_allocated_pages;
    pm.layout.num_of_unallocated_pages = num_of_unallocated_pages;
}

/// How many pages have been handed out since the heap was set up.
pub fn allocations_done(pm: &PageManager) -> (n: usize)
    ensures
        n == pm@.layout.num_of_allocations_done,
{
    pm.layout.num_of_allocations_done
}

/// Brings the page counts of the layout up to date and returns the layout,
/// for display.
pub fn show_layout(pm: &mut PageManager) -> (l: FullHeapLayout)
    requires
        old(pm).wf(),
    ensures
        final(pm).wf(),
        final(pm)@ == (HeapModel { layout: l, ..old(pm)@ }),
        l == (FullHeapLayout {
            num_of_allocated_pages: count_taken(old(pm)@.descs) as usize,
            num_of_unallocated_pages: (old(pm)@.num_pages - count_taken(old(pm)@.descs)) as usize,
            ..old(pm)@.layout
        }),
{
    update_heap_page_states(pm);
    pm.layout
}

/// Checks that every descriptor is followed by one that may follow it: a
/// first or middle page by a middle or last page, anything else by a free
/// page or the first page of an allocation. The descriptor after the last
/// one reads as free.
pub fn check_descriptor_ordering(pm: &PageManager) -> (b: bool)
    ensures
        b == well_ordered(pm@.descs),
{
    let num = pm.descriptors.len();
    let ghost d = pm@.descs;
    let mut index: usize = 0;
    while index < num
        invariant
            d == pm@.descs,
            num == d.len(),
            index <= num,
            forall|j: int| 0 <= j < index ==> #[trigger] ordered_at(d, j),
        decreases num - index,
    {
        let current_desc_val = pm.descriptors[index].get_val();
        let next_desc_val = if index + 1 < num {
            pm.descriptors[index + 1].get_val()
        } else {
            DescriptorValue::Empty
        };
        assert(current_desc_val == d[index as int]);
        assert(next_desc_val == next_desc(d, index as int));
        assert(ordered_at(d, index as int) == valid_next(current_desc_val, next_desc_val));
        match current_desc_val {
            DescriptorValue::FirstAndTaken => {
                match next_desc_val {
                    DescriptorValue::FirstAndTaken => return false,
                    DescriptorValue::FirstAndLast => return false,
                    DescriptorValue::MiddleAndTaken => {},
                    DescriptorValue::LastAndTaken => {},
                    DescriptorValue::Empty => return false,
                }
            },
            DescriptorValue::FirstAndLast => {
                match next_desc_val {
                    DescriptorValue::FirstAndTaken => {},
                    DescriptorValue::FirstAndLast => {},
                    DescriptorValue::MiddleAndTaken => return false,
                    DescriptorValue::LastAndTaken => return false,
                    DescriptorValue::Empty => {},
                }
            },
            DescriptorValue::MiddleAndTaken => {
                match next_desc_val {
                    DescriptorValue::FirstAndTaken => return false,
                    DescriptorValue::FirstAndLast => return false,
                    DescriptorValue::MiddleAndTaken => {},
                    DescriptorValue::LastAndTaken => {},
                    DescriptorValue::Empty => return false,
                }
            },
            DescriptorValue::LastAndTaken => {
                match next_desc_val {
                    DescriptorValue::FirstAndTaken => {},
                    DescriptorValue::FirstAndLast => {},
                    DescriptorValue::MiddleAndTaken => return false,
                    DescriptorValue::LastAndTaken => return false,
                    DescriptorValue::Empty => {},
                }
            },
            DescriptorValue::Empty => {
                match next_desc_val {
                    DescriptorValue::FirstAndTaken => {},
                    DescriptorValue::FirstAndLast => {},
                    DescriptorValue::MiddleAndTaken => return false,
                    DescriptorValue::LastAndTaken => return false,
                    DescriptorValue::Empty => {},
                }
            },
        }
        index = index + 1;
    }
    true
}

/// Whatever sequence of allocations and deallocations a heap has been
/// through, its descriptors stay in order, and the number of pages handed
/// out equals the number freed plus the number still allocated.
pub proof fn lemma_heap_invariants(pm: &PageManager)
    requires
        pm.wf(),
    ensures
        well_ordered(pm@.descs),
        pm@.layout.num_of_allocations_done == pm@.layout.num_of_deallocations_done + count_taken(
            pm@.descs,
        ),
        count_taken(pm@.descs) <= pm@.num_pages,
{
    lemma_count_taken_bound(pm@.descs);
}

/// Freeing the first page of an allocation just made gives every
/// descriptor back its earlier value and leaves the allocation's pages zero;
/// freeing it a second time is refused, as its page no longer leads an
/// allocation.
pub proof fn lemma_dealloc_undoes_alloc(m: HeapModel, n: int)
    requires
        m.wf(),
        n > 0,
        has_fit(m.descs, n),
        m.layout.num_of_allocations_done + n <= usize::MAX,
    ensures
        ({
            let (m1, o1) = m.alloc_spec(n);
            let i = descriptor_rules::first_fit(m.descs, n);
            let (m2, o2) = m1.dealloc_spec(m.page_addr(i));
            &&& o1 == AllocOutcome::Allocated(i)
            &&& o2 == DeallocOutcome::Freed(n as nat)
            &&& m2.descs == m.descs
            &&& m2.mem == zeroed_pages(m.mem, i, n)
            &&& m2.layout.num_of_allocations_done == m.layout.num_of_allocations_done + n
            &&& m2.layout.num_of_deallocations_done == m.layout.num_of_deallocations_done + n
            &&& m2.dealloc_spec(m.page_addr(i)) == (m2, DeallocOutcome::PageNotLeading)
        }),
{
    let i = descriptor_rules::first_fit(m.descs, n);
    let wi = choose|k: int| run_free(m.descs, k, n);
    lemma_first_fit_exists(m.descs, n, wi);
    let m1 = m.after_alloc(i, n);
    let f = filled(m.descs, i, n);
    let a = m.page_addr(i);
    assert(m1.page_index(a) == i);
    assert(a % 4096 == 0) by {
        assert((m.alloc_start + 4096 * i) % 4096 == 0) by (nonlinear_arith)
            requires
                m.alloc_start % 4096 == 0,
                i >= 0,
        ;
    }
    assert(a <= m.heap_end) by {
        assert(i + n <= m.num_pages);
    }
    if n == 1 {
        assert(group_end(f, i) == Some(i));
    } else {
        assert(scan_last(f, i + 1) == Some(i + n - 1)) by {
            lemma_scan_filled(f, i, n, i + 1);
        }
        assert(group_end(f, i) == Some(i + n - 1));
    }
    assert(emptied(f, i, i + n - 1) =~= m.descs);
}

proof fn lemma_scan_filled(f: Seq<DescriptorValue>, i: int, n: int, j: int)
    requires
        n > 1,
        i >= 0,
        i + 1 <= j <= i + n - 1,
        i + n <= f.len(),
        forall|k: int| i < k < i + n - 1 ==> f[k] == DescriptorValue::MiddleAndTaken,
        f[i + n - 1] == DescriptorValue::LastAndTaken,
    ensures
        scan_last(f, j) == Some(i + n - 1),
    decreases i + n - j,
{
    if j < i + n - 1 {
        lemma_scan_filled(f, i, n, j + 1);
    }
}

/// If some run of `n` free descriptors exists, a first one exists.
pub proof fn lemma_first_fit_exists(d: Seq<DescriptorValue>, n: int, w: int)
    requires
        run_free(d, w, n),
    ensures
        is_first_fit(d, n, descriptor_rules::first_fit(d, n)),
    decreases w,
{
    if exists|k: int| 0 <= k < w && run_free(d, k, n) {
        let k = choose|k: int| 0 <= k < w && run_free(d, k, n);
        lemma_first_fit_exists(d, n, k);
    } else {
        assert(is_first_fit(d, n, w));
    }
}

} // verus!

verus! {

/// Whether some page other than page `k` is free.
pub fn free_page_other_than(pm: &PageManager, k: usize) -> (b: bool)
    requires
        pm.wf(),
    ensures
        b == exists|j: int|
            0 <= j < pm@.num_pages && j != k && #[trigger] pm@.descs[j] == DescriptorValue::Empty,
{
    let num = pm.num_dp;
    let mut index: usize = 0;
    while index < num
        invariant
            pm.wf(),
            num == pm@.num_pages,
            index <= num,
            forall|j: int| 0 <= j < index && j != k ==> #[trigger] pm@.descs[j] != DescriptorValue::Empty,
        decreases num - index,
    {
        if index != k && pm.descriptors[index].get_val() == DescriptorValue::Empty {
            assert(pm@.descs[index as int] == DescriptorValue::Empty);
            return true;
        }
        index = index + 1;
    }
    false
}

} // verus!

verus! {

/// The pages that a successful allocation hands out lie inside the heap.
pub proof fn lemma_alloc_in_range(m: HeapModel, n: int)
    requires
        m.wf(),
        n > 0,
        has_fit(m.descs, n),
    ensures
        is_first_fit(m.descs, n, descriptor_rules::first_fit(m.descs, n)),
        0 <= descriptor_rules::first_fit(m.descs, n),
        descriptor_rules::first_fit(m.descs, n) + n <= m.num_pages,
        m.page_addr(descriptor_rules::first_fit(m.descs, n)) + 4096 * n <= m.heap_end + 1,
        m.is_page(m.page_addr(descriptor_rules::first_fit(m.descs, n))),
{
    let w = choose|k: int| run_free(m.descs, k, n);
    lemma_first_fit_exists(m.descs, n, w);
    let i = descriptor_rules::first_fit(m.descs, n);
    assert((m.alloc_start + 4096 * i) % 4096 == 0) by (nonlinear_arith)
        requires
            m.alloc_start % 4096 == 0,
            i >= 0,
    ;
}

/// Every word of every free page is zero.
pub open spec fn free_pages_zero(m: HeapModel) -> bool {
    forall|w: int|
        0 <= w < m.mem.len() && m.descs[w / 512] == DescriptorValue::Empty ==> #[trigger] m.mem[w]
            == 0
}

proof fn lemma_word_page(i: int, n: int, w: int)
    requires
        0 <= i,
        0 <= n,
        0 <= w,
    ensures
        (i * 512 <= w < (i + n) * 512) <==> (i <= w / 512 < i + n),
{
    assert((i * 512 <= w < (i + n) * 512) <==> (i <= w / 512 < i + n)) by (nonlinear_arith)
        requires
            0 <= i,
            0 <= n,
            0 <= w,
    ;
}

/// An allocation hands out zero-filled pages: in a consistent heap, where
/// every free page holds zeros, the pages that a request for `n` pages gets
/// hold zeros, and the pages still free afterwards hold zeros too.
pub proof fn lemma_alloc_gives_zero_pages(m: HeapModel, n: int)
    requires
        m.wf(),
        n > 0,
        has_fit(m.descs, n),
    ensures
        ({
            let i = descriptor_rules::first_fit(m.descs, n);
            forall|w: int| i * 512 <= w < (i + n) * 512 ==> #[trigger] m.alloc_spec(n).0.mem[w] == 0
        }),
        free_pages_zero(m.alloc_spec(n).0),
{
    lemma_alloc_in_range(m, n);
    let i = descriptor_rules::first_fit(m.descs, n);
    let m1 = m.alloc_spec(n).0;
    assert forall|w: int| i * 512 <= w < (i + n) * 512 implies #[trigger] m1.mem[w] == 0 by {
        lemma_word_page(i, n, w);
        assert(m.descs[w / 512] == DescriptorValue::Empty);
    }
    assert forall|w: int|
        0 <= w < m1.mem.len() && m1.descs[w / 512] == DescriptorValue::Empty implies #[trigger] m1.mem[w]
        == 0 by {
        lemma_word_page(i, n, w);
        assert(m.descs[w / 512] == DescriptorValue::Empty);
    }
}

/// Freeing keeps free pages zero: the freed pages are zeroed and no other
/// page changes.
pub proof fn lemma_dealloc_keeps_free_pages_zero(m: HeapModel, a: int)
    requires
        m.mem.len() == m.descs.len() * 512,
        free_pages_zero(m),
    ensures
        free_pages_zero(m.dealloc_spec(a).0),
        m.dealloc_spec(a).0.mem.len() == m.dealloc_spec(a).0.descs.len() * 512,
{
    let m1 = m.dealloc_spec(a).0;
    if let DeallocOutcome::Freed(_) = m.dealloc_spec(a).1 {
        let i = m.page_index(a);
        let e = group_end(m.descs, i)->Some_0;
        lemma_group_end_shape(m.descs, i);
        assert forall|w: int|
            0 <= w < m1.mem.len() && m1.descs[w / 512] == DescriptorValue::Empty implies #[trigger] m1.mem[w]
            == 0 by {
            lemma_word_page(i, e - i + 1, w);
        }
    }
}

} // verus!
