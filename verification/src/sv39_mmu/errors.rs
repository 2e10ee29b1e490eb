use vstd::prelude::*;

verus! {

/// Why a mapping request was refused.
#[derive(Debug, PartialEq, Eq)]
pub enum MappingError {
    InvalidPhysicalAddress(&'static str),
    InvalidVirtualAddress(&'static str),
    InvalidRootTableAddress(&'static str),
    InvalidAccessMap(&'static str),
}

/// Why a translation request failed.
#[derive(Debug, PartialEq, Eq)]
pub enum TranslationError {
    NonRangeVirtualAddress(&'static str),
    InvalidRootTableAddress(&'static str),
    UnallocatedVirtualAddress(&'static str),
    InvalidPhysicalAddress(&'static str),
}

} // verus!
