use vstd::prelude::*;
use crate::bitmap::{bit_is_set, Bitmap};
use crate::block_cache::BlockCacheManager;
use crate::block_dev::{blocks_wf, BlockDevice};
use crate::config::{BLOCK_BITS, BLOCK_SZ};
use crate::layout::{
    inode_stored, super_stored, DiskInode, DiskInodeType, SuperBlock, DISK_INODE_SZ, EFS_MAGIC,
};

verus! {

/// Number of inodes packed into one block.
pub const INODES_PER_BLOCK: u32 = 4;

/// Number of inode-area blocks that `inode_bitmap_blocks` bitmap blocks call for: one inode
/// per bit, four inodes per block.
pub open spec fn spec_inode_area_blocks(inode_bitmap_blocks: int) -> int {
    inode_bitmap_blocks * 1024
}

/// Number of data-bitmap blocks for `data_total` blocks left after the inode regions: one
/// bitmap block covers itself and 4096 data blocks.
pub open spec fn spec_data_bitmap_blocks(data_total: int) -> int {
    (data_total + 4096) / 4097
}

/// The little-endian word at byte `offset` of block `block`.
pub open spec fn le_u32_of(disk: Seq<Seq<u8>>, block: int, offset: int) -> u32 {
    crate::bytes::le_u32(disk[block], offset)
}

/// Regions of the given sizes, after block 0, fit a file system of `total` blocks on a device
/// of `n` blocks, the data bitmap covers the data area, and every inode id fits a `u32`.
pub open spec fn layout_fits(total: int, inode_bitmap_blocks: int, inode_area_blocks: int, data_bitmap_blocks: int, n: int) -> bool {
    &&& n <= u32::MAX
    &&& total <= n
    &&& 1 + inode_bitmap_blocks + inode_area_blocks + data_bitmap_blocks <= total
    &&& total - (1 + inode_bitmap_blocks + inode_area_blocks + data_bitmap_blocks) <= data_bitmap_blocks * BLOCK_BITS
    &&& 1 <= inode_bitmap_blocks
    &&& inode_bitmap_blocks * 1024 <= inode_area_blocks
    &&& inode_bitmap_blocks * BLOCK_BITS <= u32::MAX
    &&& data_bitmap_blocks * BLOCK_BITS <= u32::MAX
    &&& 1 + inode_bitmap_blocks + inode_area_blocks + data_bitmap_blocks <= n
}

/// The on-disk file system: the device, the cache in front of it, and the two allocation
/// bitmaps.
pub struct EasyFileSystem<D: BlockDevice> {
    pub block_device: D,
    pub cache: BlockCacheManager,
    pub inode_bitmap: Bitmap,
    pub data_bitmap: Bitmap,
    pub inode_area_start_block: u32,
    pub data_area_start_block: u32,
    /// Number of blocks the file system spans, from block 0.
    pub total_blocks: u32,
}

impl<D: BlockDevice> EasyFileSystem<D> {
    pub open spec fn inode_area_start(&self) -> int {
        self.inode_area_start_block as int
    }

    pub open spec fn data_area_start(&self) -> int {
        self.data_area_start_block as int
    }

    /// The disk as the file system sees it.
    pub open spec fn disk(&self) -> Seq<Seq<u8>> {
        self.cache.disk(&self.block_device)
    }

    pub open spec fn num_blocks(&self) -> int {
        self.block_device.blocks().len() as int
    }

    /// The regions lie in order on the disk: inode bitmap from block 1, inode area, data
    /// bitmap, data area.
    pub open spec fn wf(&self) -> bool {
        &&& self.cache.inv(&self.block_device)
        &&& self.inode_bitmap.start() == 1
        &&& self.inode_bitmap.num_blocks() >= 1
        &&& self.inode_area_start() == 1 + self.inode_bitmap.num_blocks()
        &&& self.inode_area_start() + self.inode_bitmap.num_blocks() * 1024 <= self.data_bitmap.start()
        &&& self.data_area_start() == self.data_bitmap.start() + self.data_bitmap.num_blocks()
        &&& self.data_area_start() <= self.total_blocks <= self.num_blocks()
        &&& self.total_blocks - self.data_area_start() <= self.data_bitmap.spec_maximum()
        &&& self.num_blocks() <= u32::MAX
        &&& self.inode_bitmap.spec_maximum() <= u32::MAX
        &&& self.inode_bitmap.fits(self.num_blocks())
        &&& self.data_bitmap.fits(self.num_blocks())
    }

    /// Block and byte offset of inode `inode_id`.
    pub open spec fn spec_inode_pos(&self, inode_id: int) -> (int, int) {
        (self.inode_area_start() + inode_id / 4, (inode_id % 4) * DISK_INODE_SZ)
    }

    /// Where inode `inode_id` is stored: its block and its byte offset in the block.
    pub fn get_disk_inode_pos(&self, inode_id: u32) -> (r: (u32, usize))
        requires
            self.inode_area_start() + inode_id / 4 <= u32::MAX,
        ensures
            (r.0 as int, r.1 as int) == self.spec_inode_pos(inode_id as int),
            r.1 + DISK_INODE_SZ <= BLOCK_SZ,
    {
        let inode_size = DISK_INODE_SZ;
        let inodes_per_block = (BLOCK_SZ / inode_size) as u32;
        let block_id = self.inode_area_start_block + inode_id / inodes_per_block;
        (block_id, (inode_id % inodes_per_block) as usize * inode_size)
    }

    /// The disk block of data block `data_block_id` of the data area.
    pub fn get_data_block_id(&self, data_block_id: u32) -> (r: u32)
        requires
            self.data_area_start() + data_block_id <= u32::MAX,
        ensures
            r == self.data_area_start() + data_block_id,
    {
        self.data_area_start_block + data_block_id
    }

    /// Claims the lowest free inode; `None` when every inode is taken.
    pub fn alloc_inode(&mut self) -> (r: Option<u32>)
        requires
            old(self).wf(),
        ensures
            final(self).wf(),
            final(self).inode_bitmap == old(self).inode_bitmap,
            final(self).data_bitmap == old(self).data_bitmap,
            final(self).data_area_start() == old(self).data_area_start(),
            final(self).inode_area_start() == old(self).inode_area_start(),
            final(self).total_blocks == old(self).total_blocks,
            final(self).num_blocks() == old(self).num_blocks(),
            match r {
                Some(i) => {
                    &&& !bit_is_set(old(self).disk(), 1, i as int)
                    &&& forall|j: int| 0 <= j < i ==> bit_is_set(old(self).disk(), 1, j)
                    &&& final(self).inode_bitmap.allocated(final(self).disk())
                        == old(self).inode_bitmap.allocated(old(self).disk()).insert(i as int)
                    &&& forall|b: int| 0 <= b < old(self).num_blocks() && !(1 <= b < 1 + old(self).inode_bitmap.num_blocks())
                        ==> #[trigger] final(self).disk()[b] == old(self).disk()[b]
                },
                None => {
                    &&& final(self).disk() == old(self).disk()
                    &&& forall|j: int| 0 <= j < old(self).inode_bitmap.spec_maximum() ==> bit_is_set(old(self).disk(), 1, j)
                },
            },
    {
        let r = self.inode_bitmap.allocate(&mut self.cache, &mut self.block_device);
        match r {
            Some(i) => {
                Some(i as u32)
            },
            None => None,
        }
    }

    /// Claims the lowest free data block and returns its disk block; `None` when the data
    /// area is full.
    pub fn alloc_data(&mut self) -> (r: Option<u32>)
        requires
            old(self).wf(),
        ensures
            final(self).wf(),
            final(self).inode_bitmap == old(self).inode_bitmap,
            final(self).data_bitmap == old(self).data_bitmap,
            final(self).data_area_start() == old(self).data_area_start(),
            final(self).inode_area_start() == old(self).inode_area_start(),
            final(self).total_blocks == old(self).total_blocks,
            final(self).num_blocks() == old(self).num_blocks(),
            match r {
                Some(b) => {
                    &&& old(self).data_area_start() <= b < old(self).total_blocks
                    &&& !bit_is_set(old(self).disk(), old(self).data_bitmap.start(), b - old(self).data_area_start())
                    &&& final(self).data_bitmap.allocated(final(self).disk())
                        == old(self).data_bitmap.allocated(old(self).disk()).insert(b - old(self).data_area_start())
                    &&& final(self).inode_bitmap.allocated(final(self).disk()) == old(self).inode_bitmap.allocated(old(self).disk())
                },
                None => {
                    &&& final(self).data_bitmap.allocated(final(self).disk()) == old(self).data_bitmap.allocated(old(self).disk())
                    &&& forall|j: int| 0 <= j < old(self).total_blocks - old(self).data_area_start()
                        ==> #[trigger] bit_is_set(old(self).disk(), old(self).data_bitmap.start(), j)
                },
            },
    {
        let ghost disk0 = self.disk();
        let r = self.data_bitmap.allocate(&mut self.cache, &mut self.block_device);
        proof {
            self.inode_bitmap.lemma_allocated_frame(disk0, self.disk());
        }
        match r {
            Some(bit) => {
                if bit < (self.total_blocks - self.data_area_start_block) as usize {
                    Some(bit as u32 + self.data_area_start_block)
                } else {
                    proof { self.cache.lemma_disk_wf(self.block_device.blocks()); }
                    let ghost disk1 = self.disk();
                    assert(self.data_bitmap.allocated(disk1).contains(bit as int));
                    self.data_bitmap.dealloc(&mut self.cache, &mut self.block_device, bit);
                    proof {
                        assert(self.data_bitmap.allocated(disk1).remove(bit as int) =~= self.data_bitmap.allocated(disk0));
                        self.inode_bitmap.lemma_allocated_frame(disk0, self.disk());
                    }
                    None
                }
            },
            None => {
                proof {
                    self.data_bitmap.lemma_allocated_frame(disk0, disk0);
                }
                None
            },
        }
    }

    /// Number of blocks on the device.
    fn block_device_len(&self) -> (r: usize)
        requires
            self.wf(),
        ensures
            r == self.num_blocks(),
    {
        self.cache.num_blocks(&self.block_device)
    }

    /// Zeroes disk block `block_id` of the data area and frees it in the data bitmap.
    pub fn dealloc_data(&mut self, block_id: u32)
        requires
            old(self).wf(),
            old(self).data_area_start() <= block_id < old(self).num_blocks(),
            old(self).data_bitmap.allocated(old(self).disk()).contains(block_id - old(self).data_area_start()),
        ensures
            final(self).wf(),
            final(self).inode_bitmap == old(self).inode_bitmap,
            final(self).data_bitmap == old(self).data_bitmap,
            final(self).data_area_start() == old(self).data_area_start(),
            final(self).inode_area_start() == old(self).inode_area_start(),
            final(self).total_blocks == old(self).total_blocks,
            final(self).num_blocks() == old(self).num_blocks(),
            final(self).disk()[block_id as int] == Seq::new(BLOCK_SZ as nat, |k: int| 0u8),
            final(self).data_bitmap.allocated(final(self).disk())
                == old(self).data_bitmap.allocated(old(self).disk()).remove(block_id - old(self).data_area_start()),
            final(self).inode_bitmap.allocated(final(self).disk()) == old(self).inode_bitmap.allocated(old(self).disk()),
    {
        let ghost disk0 = self.disk();
        self.cache.zero_block(block_id as usize, &mut self.block_device);
        let ghost disk1 = self.disk();
        proof {
            self.data_bitmap.lemma_allocated_frame(disk0, disk1);
            self.inode_bitmap.lemma_allocated_frame(disk0, disk1);
        }
        let bit = (block_id - self.data_area_start_block) as usize;
        self.data_bitmap.dealloc(&mut self.cache, &mut self.block_device, bit);
        proof {
            self.inode_bitmap.lemma_allocated_frame(disk1, self.disk());
        }
    }

    /// Formats the first `total_blocks` blocks of the device: zeroes them, writes the
    /// superblock, and makes inode 0 an empty directory, the root. Every write reaches the
    /// device before this returns.
    pub fn create(block_device: D, total_blocks: u32, inode_bitmap_blocks: u32) -> (r: Self)
        requires
            blocks_wf(block_device.blocks()),
            block_device.blocks().len() >= total_blocks,
            block_device.blocks().len() <= u32::MAX,
            1 <= inode_bitmap_blocks,
            1 + inode_bitmap_blocks * 1025 <= total_blocks,
            inode_bitmap_blocks * BLOCK_BITS <= u32::MAX,
        ensures
            r.wf(),
            r.block_device.blocks() == r.disk(),
            ({
                let iab = spec_inode_area_blocks(inode_bitmap_blocks as int);
                let data_total = total_blocks - 1 - inode_bitmap_blocks - iab;
                let dbb = spec_data_bitmap_blocks(data_total);
                &&& r.inode_bitmap.num_blocks() == inode_bitmap_blocks
                &&& r.inode_area_start() == 1 + inode_bitmap_blocks
                &&& r.data_bitmap.start() == 1 + inode_bitmap_blocks + iab
                &&& r.data_bitmap.num_blocks() == dbb
                &&& r.data_area_start() == 1 + inode_bitmap_blocks + iab + dbb
                &&& le_u32_of(r.disk(), 0, 0) == EFS_MAGIC
                &&& le_u32_of(r.disk(), 0, 4) == total_blocks
                &&& le_u32_of(r.disk(), 0, 8) == inode_bitmap_blocks
                &&& le_u32_of(r.disk(), 0, 12) == iab
                &&& le_u32_of(r.disk(), 0, 16) == dbb
                &&& le_u32_of(r.disk(), 0, 20) == data_total - dbb
                &&& layout_fits(total_blocks as int, inode_bitmap_blocks as int, iab, dbb, r.num_blocks())
            }),
            r.num_blocks() == block_device.blocks().len(),
            r.total_blocks == total_blocks,
            forall|b: int| 0 < b < total_blocks && !(1 <= b <= 1 + inode_bitmap_blocks)
                ==> #[trigger] r.disk()[b] == Seq::new(BLOCK_SZ as nat, |k: int| 0u8),
            r.inode_bitmap.allocated(r.disk()) == Set::<int>::empty().insert(0),
            r.data_bitmap.allocated(r.disk()) == Set::<int>::empty(),
            exists|root: DiskInode| {
                &&& inode_stored(r.disk(), r.inode_area_start(), 0, root)
                &&& root.size == 0
                &&& root.type_ == DiskInodeType::Directory
            },
    {
        let mut block_device = block_device;
        let mut cache = BlockCacheManager::new();
        let inode_bitmap = Bitmap::new(1, inode_bitmap_blocks as usize);
        let inode_num = inode_bitmap.maximum() as u64;
        let inode_area_blocks = ((inode_num * DISK_INODE_SZ as u64 + BLOCK_SZ as u64 - 1) / BLOCK_SZ as u64) as u32;
        proof {
            assert(inode_num * DISK_INODE_SZ + BLOCK_SZ - 1 == (inode_bitmap_blocks * 1024) * BLOCK_SZ + (BLOCK_SZ - 1)) by (nonlinear_arith)
                requires inode_num == inode_bitmap_blocks * 4096;
            vstd::arithmetic::div_mod::lemma_fundamental_div_mod_converse(
                inode_num * DISK_INODE_SZ + BLOCK_SZ - 1, BLOCK_SZ as int, inode_bitmap_blocks * 1024, BLOCK_SZ - 1);
        }
        let inode_total_blocks = inode_bitmap_blocks + inode_area_blocks;
        let data_total_blocks = total_blocks - 1 - inode_total_blocks;
        let data_bitmap_blocks = data_total_blocks / 4097 + if data_total_blocks % 4097 != 0 { 1 } else { 0 };
        proof {
            let x = data_total_blocks as int;
            vstd::arithmetic::div_mod::lemma_fundamental_div_mod(x, 4097);
            vstd::arithmetic::div_mod::lemma_mod_bound(x, 4097);
            if x % 4097 != 0 {
                vstd::arithmetic::div_mod::lemma_fundamental_div_mod_converse(x + 4096, 4097, x / 4097 + 1, x % 4097 - 1);
            } else {
                vstd::arithmetic::div_mod::lemma_fundamental_div_mod_converse(x + 4096, 4097, x / 4097, 4096);
            }
            assert(data_bitmap_blocks == spec_data_bitmap_blocks(x));
        }
        let data_area_blocks = data_total_blocks - data_bitmap_blocks;
        let data_bitmap = Bitmap::new((1 + inode_bitmap_blocks + inode_area_blocks) as usize, data_bitmap_blocks as usize);
        let ghost n = block_device.blocks().len() as int;
        proof {
            let x = data_total_blocks as int;
            let d = data_bitmap_blocks as int;
            vstd::arithmetic::div_mod::lemma_fundamental_div_mod(x + 4096, 4097);
            vstd::arithmetic::div_mod::lemma_mod_bound(x + 4096, 4097);
            assert(x - d <= d * 4096) by (nonlinear_arith)
                requires x + 4096 == 4097 * d + (x + 4096) % 4097, (x + 4096) % 4097 <= 4096;
        }
        // zero every block of the file system
        let mut i: u32 = 0;
        while i < total_blocks
            invariant
                cache.inv(&block_device),
                block_device.blocks().len() == n,
                n >= total_blocks,
                i <= total_blocks,
                forall|b: int| 0 <= b < i ==> #[trigger] cache.disk(&block_device)[b] == Seq::new(BLOCK_SZ as nat, |k: int| 0u8),
            decreases total_blocks - i,
        {
            cache.zero_block(i as usize, &mut block_device);
            i += 1;
        }
        let ghost disk_z = cache.disk(&block_device);
        let ghost n0 = block_device.blocks().len();
        let mut super_block = SuperBlock::empty();
        super_block.initialize(total_blocks, inode_bitmap_blocks, inode_area_blocks, data_bitmap_blocks, data_area_blocks);
        super_block.store(&mut cache, &mut block_device);
        let ghost disk_s = cache.disk(&block_device);
        let mut efs = EasyFileSystem {
            block_device,
            cache,
            inode_bitmap,
            data_bitmap,
            inode_area_start_block: 1 + inode_bitmap_blocks,
            data_area_start_block: 1 + inode_total_blocks + data_bitmap_blocks,
            total_blocks,
        };
        proof {
            assert(data_bitmap_blocks <= data_total_blocks);
            efs.inode_bitmap.lemma_zeroed(disk_s);
            efs.data_bitmap.lemma_zeroed(disk_s);
        }
        let root = efs.alloc_inode();
        let ghost disk_a = efs.disk();
        proof {
            match root {
                Some(i) => {
                    assert(!bit_is_set(disk_s, 1, 0));
                    assert(i == 0);
                },
                None => {
                    assert(bit_is_set(disk_s, 1, 0));
                },
            }
            efs.data_bitmap.lemma_allocated_frame(disk_s, disk_a);
        }
        let (root_inode_block_id, root_inode_offset) = efs.get_disk_inode_pos(0);
        let root_inode = DiskInode::new(DiskInodeType::Directory);
        proof { efs.cache.lemma_disk_wf(efs.block_device.blocks()); }
        root_inode.store(root_inode_block_id as usize, root_inode_offset, &mut efs.cache, &mut efs.block_device);
        let ghost disk_r = efs.disk();
        proof {
            efs.data_bitmap.lemma_allocated_frame(disk_a, disk_r);
            efs.inode_bitmap.lemma_allocated_frame(disk_a, disk_r);
            assert forall|b: int| 0 < b < total_blocks && !(1 <= b <= 1 + inode_bitmap_blocks)
                implies #[trigger] disk_r[b] == Seq::new(BLOCK_SZ as nat, |k: int| 0u8) by {
                assert(disk_z[b] == Seq::new(BLOCK_SZ as nat, |k: int| 0u8));
                assert(disk_s[b] == disk_z[b]);
                assert(disk_a[b] == disk_s[b]);
            }
        }
        efs.cache.sync_all(&mut efs.block_device);
        proof {
            assert(efs.inode_bitmap.allocated(disk_r) =~= Set::<int>::empty().insert(0));
            assert(inode_stored(efs.disk(), efs.inode_area_start(), 0, root_inode));
        }
        efs
    }

    /// Mounts the file system that the device holds. Where a kernel would halt ("Error
    /// loading EFS!") this returns `None` instead: when block 0 lacks the magic number, or
    /// describes regions that do not fit the device.
    pub fn open(block_device: D) -> (r: Option<Self>)
        requires
            blocks_wf(block_device.blocks()),
        ensures
            match r {
                Some(efs) => {
                    &&& efs.wf()
                    &&& efs.disk() == block_device.blocks()
                    &&& le_u32_of(block_device.blocks(), 0, 0) == EFS_MAGIC
                    &&& efs.inode_bitmap.num_blocks() == le_u32_of(block_device.blocks(), 0, 8)
                    &&& efs.inode_area_start() == 1 + le_u32_of(block_device.blocks(), 0, 8)
                    &&& efs.data_bitmap.start() == 1 + le_u32_of(block_device.blocks(), 0, 8) + le_u32_of(block_device.blocks(), 0, 12)
                    &&& efs.data_bitmap.num_blocks() == le_u32_of(block_device.blocks(), 0, 16)
                    &&& efs.data_area_start() == efs.data_bitmap.start() + efs.data_bitmap.num_blocks()
                    &&& efs.total_blocks == le_u32_of(block_device.blocks(), 0, 4)
                },
                None => block_device.blocks().len() == 0 || le_u32_of(block_device.blocks(), 0, 0) != EFS_MAGIC
                    || !layout_fits(
                        le_u32_of(block_device.blocks(), 0, 4) as int,
                        le_u32_of(block_device.blocks(), 0, 8) as int,
                        le_u32_of(block_device.blocks(), 0, 12) as int,
                        le_u32_of(block_device.blocks(), 0, 16) as int,
                        block_device.blocks().len() as int,
                    ),
            },
    {
        let mut block_device = block_device;
        let ghost dev0 = block_device.blocks();
        let n = block_device.num_blocks();
        if n == 0 {
            return None;
        }
        let mut cache = BlockCacheManager::new();
        let super_block = SuperBlock::load(&mut cache, &mut block_device);
        if !super_block.is_valid() {
            return None;
        }
        let ibb = super_block.inode_bitmap_blocks as u64;
        let iab = super_block.inode_area_blocks as u64;
        let dbb = super_block.data_bitmap_blocks as u64;
        let total = super_block.total_blocks as u64;
        if !(n as u64 <= 0xffff_ffff && total <= n as u64 && 1 <= ibb && ibb * 1024 <= iab && ibb * 4096 <= 0xffff_ffff
            && dbb * 4096 <= 0xffff_ffff && 1 + ibb + iab + dbb <= total && total - (1 + ibb + iab + dbb) <= dbb * 4096) {
            return None;
        }
        let inode_total_blocks = super_block.inode_bitmap_blocks + super_block.inode_area_blocks;
        let efs = EasyFileSystem {
            block_device,
            cache,
            inode_bitmap: Bitmap::new(1, super_block.inode_bitmap_blocks as usize),
            data_bitmap: Bitmap::new((1 + inode_total_blocks) as usize, super_block.data_bitmap_blocks as usize),
            inode_area_start_block: 1 + super_block.inode_bitmap_blocks,
            data_area_start_block: 1 + inode_total_blocks + super_block.data_bitmap_blocks,
            total_blocks: super_block.total_blocks,
        };
        Some(efs)
    }

    /// The root directory's inode, inode 0.
    pub fn root_inode(&mut self) -> (r: DiskInode)
        requires
            old(self).wf(),
        ensures
            final(self).wf(),
            final(self).disk() == old(self).disk(),
            final(self).inode_bitmap == old(self).inode_bitmap,
            final(self).data_bitmap == old(self).data_bitmap,
            final(self).data_area_start() == old(self).data_area_start(),
            final(self).inode_area_start() == old(self).inode_area_start(),
            final(self).total_blocks == old(self).total_blocks,
            final(self).num_blocks() == old(self).num_blocks(),
            inode_stored(old(self).disk(), old(self).inode_area_start(), 0, r),
            r.direct@.len() == crate::layout::INODE_DIRECT_COUNT,
    {
        let (block_id, block_offset) = self.get_disk_inode_pos(0);
        DiskInode::load(block_id as usize, block_offset, &mut self.cache, &mut self.block_device)
    }
}

} // verus!
