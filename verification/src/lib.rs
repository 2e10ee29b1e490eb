//! A verified model of the Hobo RISC-V kernel's memory management and trap
//! decision logic: the page allocator, the SV39 translation tables, the
//! kernel byte allocator, the identity map of the kernel, the trap dispatch
//! rules, the interrupt controller's register values and the console's
//! line input.

pub mod sv39_mmu;
pub mod page_manager;
pub mod byte_manager;
pub mod drivers;
pub mod interrupt_and_exception_handling;
pub mod map_kernel;
pub mod stdin;
