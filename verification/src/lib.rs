//! Heap-memory bookkeeping for a freestanding kernel.
//!
//! Two interchangeable allocation strategies over one reserved address
//! range: a monotonic bump allocator and an address-ordered free-list
//! allocator with first-fit search and neighbor coalescing. The crate
//! works purely on addresses and sizes; mapping the range and handing
//! blocks to the rest of the system is the caller's business.

pub mod align;
pub mod bump;
pub mod linked_list;
