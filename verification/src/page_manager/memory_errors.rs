use vstd::prelude::*;

verus! {

/// Why the page allocator refused a request.
#[derive(Debug)]
pub enum MemoryAllocatioErrors {
    /// Zero pages were requested.
    ZeroPagesRequested(&'static str),
    /// No run of free pages long enough was found.
    NoFreeContiguousSpace(&'static str),
}

/// Why the page allocator refused to free an address.
#[derive(Debug)]
pub enum MemoryDeallocatioError {
    /// The address lies outside the heap's pages.
    NonHeapAddressFound(&'static str),
    /// The address is not a multiple of the page size.
    PageAddressIsMiddlePage(&'static str),
    /// The page is not the first page of an allocation.
    PageNotLeading(&'static str),
    /// The descriptors of the allocation are out of order.
    Other(&'static str),
}

} // verus!
