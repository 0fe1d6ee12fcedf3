//! Memory management: the address-space layout, the physical page manager
//! with its page tables, the buddy allocator, the TLB handlers' decisions and
//! the shared memory pools.

pub mod regions;
pub mod shared_pool;
pub mod pmap;
pub mod buddy_allocator;
pub mod tlbex;
