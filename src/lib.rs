//! Early-boot memory management: a fixed-capacity set of free physical ranges, a frame
//! allocator built on it, a builder for x86-64 four-level page tables, and the address space
//! a loader hands to its kernel.
pub mod boot;
pub mod frame;
pub mod memmap;
pub mod paging;
pub mod pe;
pub mod range;
pub mod reader;
pub mod realmode;
