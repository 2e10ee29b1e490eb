//! The heap's bookkeeping types: one descriptor per page, and the layout
//! record that describes how the heap was carved up.

use vstd::prelude::*;

verus! {

/// The state of one page, as recorded in its descriptor.
#[derive(Debug, Clone, Copy, PartialEq, Eq, Structural)]
pub enum DescriptorValue {
    Empty,
    FirstAndTaken,
    LastAndTaken,
    MiddleAndTaken,
    FirstAndLast,
}

/// The descriptor of one heap page.
#[derive(Debug, Clone, Copy)]
pub struct PageDescriptor {
    value: DescriptorValue,
}

impl View for PageDescriptor {
    type V = DescriptorValue;

    closed spec fn view(&self) -> DescriptorValue {
        self.value
    }
}

impl PageDescriptor {
    /// A descriptor of an unallocated page.
    pub fn new_empty() -> (d: Self)
        ensures
            d@ == DescriptorValue::Empty,
    {
        PageDescriptor { value: DescriptorValue::Empty }
    }

    /// A descriptor holding `val`.
    pub fn new(val: DescriptorValue) -> (d: Self)
        ensures
            d@ == val,
    {
        PageDescriptor { value: val }
    }

    pub fn get_val(&self) -> (v: DescriptorValue)
        ensures
            v == self@,
    {
        self.value
    }

    pub fn set_empty(&mut self)
        ensures
            final(self)@ == DescriptorValue::Empty,
    {
        self.value = DescriptorValue::Empty;
    }

    pub fn set_first(&mut self)
        ensures
            final(self)@ == DescriptorValue::FirstAndTaken,
    {
        self.value = DescriptorValue::FirstAndTaken;
    }

    pub fn set_middle(&mut self)
        ensures
            final(self)@ == DescriptorValue::MiddleAndTaken,
    {
        self.value = DescriptorValue::MiddleAndTaken;
    }

    pub fn set_last(&mut self)
        ensures
            final(self)@ == DescriptorValue::LastAndTaken,
    {
        self.value = DescriptorValue::LastAndTaken;
    }

    pub fn set_flast(&mut self)
        ensures
            final(self)@ == DescriptorValue::FirstAndLast,
    {
        self.value = DescriptorValue::FirstAndLast;
    }
}

/// Everything known about the heap: how it was divided at start-up, and
/// running counts of allocations and deallocations.
#[derive(Debug, Clone, Copy)]
pub struct FullHeapLayout {
    pub heap_start: Option<usize>,
    pub heap_end: Option<usize>,
    pub heap_size: Option<usize>,
    pub num_of_descriptors: Option<usize>,
    pub first_descriptor_address: Option<usize>,
    pub last_descriptor_address: Option<usize>,
    pub first_padding_address: Option<usize>,
    pub last_padding_address: Option<usize>,
    pub num_of_pages: Option<usize>,
    /// The address of the first page.
    pub alloc_start_address: Option<usize>,
    pub last_page_address: Option<usize>,
    /// Bytes at the end of the heap that do not make up a whole page.
    pub unused_bytes: Option<usize>,
    pub num_of_allocated_pages: usize,
    pub num_of_unallocated_pages: usize,
    pub num_of_allocations_done: usize,
    pub num_of_deallocations_done: usize,
}

impl FullHeapLayout {
    /// A layout with nothing known yet and every count at zero.
    pub fn new() -> (l: Self)
        ensures
            l.heap_start is None,
            l.heap_end is None,
            l.heap_size is None,
            l.num_of_descriptors is None,
            l.first_descriptor_address is None,
            l.last_descriptor_address is None,
            l.first_padding_address is None,
            l.last_padding_address is None,
            l.num_of_pages is None,
            l.alloc_start_address is None,
            l.last_page_address is None,
            l.unused_bytes is None,
            l.num_of_allocated_pages == 0,
            l.num_of_unallocated_pages == 0,
            l.num_of_allocations_done == 0,
            l.num_of_deallocations_done == 0,
    {
        FullHeapLayout {
            heap_start: None,
            heap_end: None,
            heap_size: None,
            num_of_descriptors: None,
            first_descriptor_address: None,
            last_descriptor_address: None,
            first_padding_address: None,
            last_padding_address: None,
            num_of_pages: None,
            alloc_start_address: None,
            last_page_address: None,
            unused_bytes: None,
            num_of_allocated_pages: 0,
            num_of_unallocated_pages: 0,
            num_of_allocations_done: 0,
            num_of_deallocations_done: 0,
        }
    }
}

} // verus!
