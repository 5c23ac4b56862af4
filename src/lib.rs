use vstd::prelude::*;

pub mod block_dev;
pub mod bytes;
pub mod bitmap;
pub mod block_cache;
pub mod config;
pub mod efs;
pub mod frame_allocator;
pub mod layout;
pub mod memory_set;
pub mod page_table;
pub mod phys_mem;
pub mod task;
pub mod trap;

verus! {

} // verus!
