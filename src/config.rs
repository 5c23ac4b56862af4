use vstd::prelude::*;

verus! {

/// Size of a file-system block in bytes.
pub const BLOCK_SZ: usize = 512;

/// Number of bits held by one bitmap block.
pub const BLOCK_BITS: usize = 4096;

/// Size of a virtual-memory page in bytes.
pub const PAGE_SIZE: usize = 4096;

/// Size of every kernel stack in bytes.
pub const KERNEL_STACK_SIZE: usize = 8192;

/// Timer ticks per second of the machine clock.
pub const CLOCK_FREQ: usize = 12500000;

/// Virtual address of the trampoline page: the highest page of the address space.
pub const TRAMPOLINE: usize = usize::MAX - PAGE_SIZE + 1;

} // verus!
