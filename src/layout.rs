use vstd::prelude::*;
use crate::block_cache::BlockCacheManager;
use crate::block_dev::BlockDevice;
use crate::bytes::le_u32;
use crate::config::BLOCK_SZ;
use vstd::string::StringSliceAdditionalSpecFns;

verus! {

/// Magic number that marks a formatted disk.
pub const EFS_MAGIC: u32 = 0x3b800001;

/// Number of direct block references held by an inode.
pub const INODE_DIRECT_COUNT: usize = 28;

/// Longest file name, in bytes.
pub const NAME_LENGTH_LIMIT: usize = 27;

/// Number of block references held by one index block.
pub const INODE_INDIRECT1_COUNT: usize = 128;

/// Number of block references reachable through the double-indirect block.
pub const INODE_INDIRECT2_COUNT: usize = 16384;

/// First file block served by the single-indirect block.
pub const DIRECT_BOUND: usize = 28;

/// First file block served by the double-indirect block.
pub const INDIRECT1_BOUND: usize = 156;

/// Number of file blocks an inode can address.
pub const INDIRECT2_BOUND: usize = 16540;

/// Size of a directory entry on disk, in bytes.
pub const DIRENT_SZ: usize = 32;

/// Size of an inode on disk, in bytes.
pub const DISK_INODE_SZ: usize = 128;

/// The first block of a formatted disk: the size of each region.
pub struct SuperBlock {
    pub magic: u32,
    pub total_blocks: u32,
    pub inode_bitmap_blocks: u32,
    pub inode_area_blocks: u32,
    pub data_bitmap_blocks: u32,
    pub data_area_blocks: u32,
}

impl SuperBlock {
    pub open spec fn spec_magic(&self) -> u32 {
        self.magic
    }

    /// An unformatted superblock, as read from a zeroed disk.
    pub fn empty() -> (r: Self)
        ensures
            r.spec_magic() == 0,
            r.total_blocks == 0,
    {
        SuperBlock {
            magic: 0,
            total_blocks: 0,
            inode_bitmap_blocks: 0,
            inode_area_blocks: 0,
            data_bitmap_blocks: 0,
            data_area_blocks: 0,
        }
    }

    /// Rebuilds a superblock from the six words stored on disk.
    pub fn from_words(magic: u32, total_blocks: u32, inode_bitmap_blocks: u32, inode_area_blocks: u32, data_bitmap_blocks: u32, data_area_blocks: u32) -> (r: Self)
        ensures
            r.spec_magic() == magic,
            r.total_blocks == total_blocks,
            r.inode_bitmap_blocks == inode_bitmap_blocks,
            r.inode_area_blocks == inode_area_blocks,
            r.data_bitmap_blocks == data_bitmap_blocks,
            r.data_area_blocks == data_area_blocks,
    {
        SuperBlock { magic, total_blocks, inode_bitmap_blocks, inode_area_blocks, data_bitmap_blocks, data_area_blocks }
    }

    /// The magic word as stored.
    pub fn magic(&self) -> (r: u32)
        ensures
            r == self.spec_magic(),
    {
        self.magic
    }

    /// Records the size of each region and marks the superblock as formatted.
    pub fn initialize(
        &mut self,
        total_blocks: u32,
        inode_bitmap_blocks: u32,
        inode_area_blocks: u32,
        data_bitmap_blocks: u32,
        data_area_blocks: u32,
    )
        ensures
            final(self).spec_magic() == EFS_MAGIC,
            final(self).total_blocks == total_blocks,
            final(self).inode_bitmap_blocks == inode_bitmap_blocks,
            final(self).inode_area_blocks == inode_area_blocks,
            final(self).data_bitmap_blocks == data_bitmap_blocks,
            final(self).data_area_blocks == data_area_blocks,
    {
        *self = SuperBlock {
            magic: EFS_MAGIC,
            total_blocks,
            inode_bitmap_blocks,
            inode_area_blocks,
            data_bitmap_blocks,
            data_area_blocks,
        };
    }

    /// Whether the superblock carries the magic number.
    pub fn is_valid(&self) -> (r: bool)
        ensures
            r == (self.spec_magic() == EFS_MAGIC),
    {
        self.magic == EFS_MAGIC
    }
}

/// Block 0 of `disk` holds `sb`.
pub open spec fn super_stored(disk: Seq<Seq<u8>>, sb: SuperBlock) -> bool {
    let s = disk[0];
    &&& le_u32(s, 0) == sb.magic
    &&& le_u32(s, 4) == sb.total_blocks
    &&& le_u32(s, 8) == sb.inode_bitmap_blocks
    &&& le_u32(s, 12) == sb.inode_area_blocks
    &&& le_u32(s, 16) == sb.data_bitmap_blocks
    &&& le_u32(s, 20) == sb.data_area_blocks
}

impl SuperBlock {
    /// Reads the superblock from block 0.
    pub fn load<D: BlockDevice>(cache: &mut BlockCacheManager, block_device: &mut D) -> (r: Self)
        requires
            old(cache).inv(old(block_device)),
            0 < old(block_device).blocks().len(),
        ensures
            final(cache).inv(final(block_device)),
            final(block_device).blocks().len() == old(block_device).blocks().len(),
            final(cache).disk(final(block_device)) == old(cache).disk(old(block_device)),
            super_stored(old(cache).disk(old(block_device)), r),
    {
        let magic = cache.read_u32(0, 0, block_device);
        let total_blocks = cache.read_u32(0, 4, block_device);
        let inode_bitmap_blocks = cache.read_u32(0, 8, block_device);
        let inode_area_blocks = cache.read_u32(0, 12, block_device);
        let data_bitmap_blocks = cache.read_u32(0, 16, block_device);
        let data_area_blocks = cache.read_u32(0, 20, block_device);
        SuperBlock { magic, total_blocks, inode_bitmap_blocks, inode_area_blocks, data_bitmap_blocks, data_area_blocks }
    }

    /// Writes the superblock to block 0, leaving every other block as it was.
    pub fn store<D: BlockDevice>(&self, cache: &mut BlockCacheManager, block_device: &mut D)
        requires
            old(cache).inv(old(block_device)),
            0 < old(block_device).blocks().len(),
        ensures
            final(cache).inv(final(block_device)),
            final(block_device).blocks().len() == old(block_device).blocks().len(),
            super_stored(final(cache).disk(final(block_device)), *self),
            forall|b: int| 0 < b < old(block_device).blocks().len()
                ==> #[trigger] final(cache).disk(final(block_device))[b] == old(cache).disk(old(block_device))[b],
    {
        let ghost d0 = cache.disk(block_device)[0];
        proof { cache.lemma_disk_wf(block_device.blocks()); }
        cache.write_u32(0, 0, self.magic, block_device);
        cache.write_u32(0, 4, self.total_blocks, block_device);
        cache.write_u32(0, 8, self.inode_bitmap_blocks, block_device);
        cache.write_u32(0, 12, self.inode_area_blocks, block_device);
        cache.write_u32(0, 16, self.data_bitmap_blocks, block_device);
        cache.write_u32(0, 20, self.data_area_blocks, block_device);
        proof {
            let s1 = crate::bytes::set_u32(d0, 0, self.magic);
            let s2 = crate::bytes::set_u32(s1, 4, self.total_blocks);
            let s3 = crate::bytes::set_u32(s2, 8, self.inode_bitmap_blocks);
            let s4 = crate::bytes::set_u32(s3, 12, self.inode_area_blocks);
            let s5 = crate::bytes::set_u32(s4, 16, self.data_bitmap_blocks);
            crate::bytes::lemma_set_u32_same(d0, 0, self.magic);
            crate::bytes::lemma_set_u32_same(s1, 4, self.total_blocks);
            crate::bytes::lemma_set_u32_same(s2, 8, self.inode_bitmap_blocks);
            crate::bytes::lemma_set_u32_same(s3, 12, self.inode_area_blocks);
            crate::bytes::lemma_set_u32_same(s4, 16, self.data_bitmap_blocks);
            crate::bytes::lemma_set_u32_same(s5, 20, self.data_area_blocks);
            crate::bytes::lemma_set_u32(s1, 4, self.total_blocks, 0);
            crate::bytes::lemma_set_u32(s2, 8, self.inode_bitmap_blocks, 0);
            crate::bytes::lemma_set_u32(s2, 8, self.inode_bitmap_blocks, 4);
            crate::bytes::lemma_set_u32(s3, 12, self.inode_area_blocks, 0);
            crate::bytes::lemma_set_u32(s3, 12, self.inode_area_blocks, 4);
            crate::bytes::lemma_set_u32(s3, 12, self.inode_area_blocks, 8);
            crate::bytes::lemma_set_u32(s4, 16, self.data_bitmap_blocks, 0);
            crate::bytes::lemma_set_u32(s4, 16, self.data_bitmap_blocks, 4);
            crate::bytes::lemma_set_u32(s4, 16, self.data_bitmap_blocks, 8);
            crate::bytes::lemma_set_u32(s4, 16, self.data_bitmap_blocks, 12);
            crate::bytes::lemma_set_u32(s5, 20, self.data_area_blocks, 0);
            crate::bytes::lemma_set_u32(s5, 20, self.data_area_blocks, 4);
            crate::bytes::lemma_set_u32(s5, 20, self.data_area_blocks, 8);
            crate::bytes::lemma_set_u32(s5, 20, self.data_area_blocks, 12);
            crate::bytes::lemma_set_u32(s5, 20, self.data_area_blocks, 16);
        }
    }
}

/// What an inode describes.
#[derive(PartialEq, Eq, Structural, Clone, Copy, Debug)]
pub enum DiskInodeType {
    File,
    Directory,
}

/// Number of data blocks that hold `size` bytes.
pub open spec fn spec_data_blocks(size: int) -> int {
    (size + BLOCK_SZ - 1) / BLOCK_SZ as int
}

/// Number of index blocks that `d` data blocks need.
pub open spec fn index_blocks_for(d: int) -> int {
    (if d > INODE_DIRECT_COUNT { 1int } else { 0int }) + (if d > INDIRECT1_BOUND {
        1 + (d - INDIRECT1_BOUND + INODE_INDIRECT1_COUNT - 1) / INODE_INDIRECT1_COUNT as int
    } else {
        0int
    })
}

/// Number of blocks, data and index, that `d` data blocks take.
pub open spec fn blocks_for(d: int) -> int {
    d + index_blocks_for(d)
}

/// Number of blocks, data and index, that a file of `size` bytes takes.
pub open spec fn spec_total_blocks(size: int) -> int {
    blocks_for(spec_data_blocks(size))
}

/// Entry `i` of index block `blk`.
pub open spec fn ind_entry(disk: Seq<Seq<u8>>, blk: u32, i: int) -> u32 {
    le_u32(disk[blk as int], 4 * i)
}

/// Number of first-level index blocks under the double-indirect block for `d` data blocks.
pub open spec fn groups_for(d: int) -> int {
    if d > INDIRECT1_BOUND {
        (d - INDIRECT1_BOUND + INODE_INDIRECT1_COUNT - 1) / INODE_INDIRECT1_COUNT as int
    } else {
        0
    }
}

/// The inode of a file or directory: its size and the index of its data blocks.
pub struct DiskInode {
    pub size: u32,
    pub direct: Vec<u32>,
    pub indirect1: u32,
    pub indirect2: u32,
    pub type_: DiskInodeType,
}

impl DiskInode {
    pub open spec fn wf(&self) -> bool {
        &&& self.direct@.len() == INODE_DIRECT_COUNT
        &&& spec_data_blocks(self.size as int) <= INDIRECT2_BOUND
    }

    pub open spec fn spec_data_count(&self) -> int {
        spec_data_blocks(self.size as int)
    }

    /// The block that holds file block `inner` on `disk`.
    pub open spec fn block_id_of(&self, disk: Seq<Seq<u8>>, inner: int) -> u32 {
        if inner < INODE_DIRECT_COUNT {
            self.direct@[inner]
        } else if inner < INDIRECT1_BOUND {
            ind_entry(disk, self.indirect1, inner - INODE_DIRECT_COUNT)
        } else {
            let last = inner - INDIRECT1_BOUND;
            ind_entry(disk, ind_entry(disk, self.indirect2, last / INODE_INDIRECT1_COUNT as int), last % INODE_INDIRECT1_COUNT as int)
        }
    }

    /// First-level index block `g` under the double-indirect block.
    pub open spec fn group_block(&self, disk: Seq<Seq<u8>>, g: int) -> u32 {
        ind_entry(disk, self.indirect2, g)
    }

    /// The index blocks that finding file block `inner` reads lie on the disk.
    pub open spec fn path_ok(&self, disk: Seq<Seq<u8>>, inner: int) -> bool {
        if inner < INODE_DIRECT_COUNT {
            true
        } else if inner < INDIRECT1_BOUND {
            self.indirect1 < disk.len()
        } else {
            &&& inner < INDIRECT2_BOUND
            &&& self.indirect2 < disk.len()
            &&& self.group_block(disk, (inner - INDIRECT1_BOUND) / INODE_INDIRECT1_COUNT as int) < disk.len()
        }
    }

    /// Whether block `b` is one of the index blocks that `d` data blocks use.
    pub open spec fn is_index_at(&self, disk: Seq<Seq<u8>>, b: int, d: int) -> bool {
        ||| d > INODE_DIRECT_COUNT && b == self.indirect1
        ||| d > INDIRECT1_BOUND && b == self.indirect2
        ||| exists|g: int| 0 <= g < groups_for(d) && #[trigger] self.group_block(disk, g) == b
    }

    /// Whether block `b` is one of the index blocks in use.
    pub open spec fn is_index_block(&self, disk: Seq<Seq<u8>>, b: int) -> bool {
        self.is_index_at(disk, b, self.spec_data_count())
    }

    /// The index of the first `d` data blocks is sound on `disk`: every block it reaches lies
    /// on the disk, and its index blocks are pairwise distinct.
    pub open spec fn index_ok_at(&self, disk: Seq<Seq<u8>>, d: int) -> bool {
        &&& self.direct@.len() == INODE_DIRECT_COUNT
        &&& 0 <= d <= INDIRECT2_BOUND
        &&& forall|i: int| 0 <= i < d ==> #[trigger] self.path_ok(disk, i)
        &&& forall|i: int| 0 <= i < d ==> #[trigger] self.block_id_of(disk, i) < disk.len()
        &&& d > INDIRECT1_BOUND ==> self.indirect1 != self.indirect2
        &&& forall|g: int| 0 <= g < groups_for(d) ==> {
            &&& #[trigger] self.group_block(disk, g) != self.indirect1
            &&& self.group_block(disk, g) != self.indirect2
        }
        &&& forall|g: int, h: int|
            0 <= g < groups_for(d) && 0 <= h < groups_for(d) && g != h ==> #[trigger] self.group_block(disk, g) != #[trigger] self.group_block(disk, h)
    }

    /// The index in use is sound on `disk`.
    pub open spec fn index_ok(&self, disk: Seq<Seq<u8>>) -> bool {
        &&& self.wf()
        &&& self.index_ok_at(disk, self.spec_data_count())
    }

    /// An empty inode of the given type.
    pub fn new(type_: DiskInodeType) -> (r: Self)
        ensures
            r.wf(),
            r.size == 0,
            r.type_ == type_,
            r.indirect1 == 0,
            r.indirect2 == 0,
            forall|i: int| 0 <= i < INODE_DIRECT_COUNT ==> r.direct@[i] == 0,
    {
        let mut direct: Vec<u32> = Vec::new();
        let mut i: usize = 0;
        while i < INODE_DIRECT_COUNT
            invariant
                i <= INODE_DIRECT_COUNT,
                direct@.len() == i,
                forall|j: int| 0 <= j < i ==> direct@[j] == 0,
            decreases INODE_DIRECT_COUNT - i,
        {
            direct.push(0);
            i += 1;
        }
        DiskInode { size: 0, direct, indirect1: 0, indirect2: 0, type_ }
    }

    /// Resets the inode to an empty one of the given type.
    pub fn initialize(&mut self, type_: DiskInodeType)
        ensures
            final(self).wf(),
            final(self).size == 0,
            final(self).type_ == type_,
            final(self).indirect1 == 0,
            final(self).indirect2 == 0,
            forall|i: int| 0 <= i < INODE_DIRECT_COUNT ==> final(self).direct@[i] == 0,
    {
        *self = DiskInode::new(type_);
    }

    /// Whether the inode describes a directory.
    pub fn is_dir(&self) -> (r: bool)
        ensures
            r == (self.type_ == DiskInodeType::Directory),
    {
        self.type_ == DiskInodeType::Directory
    }

    /// Whether the inode describes a regular file.
    pub fn is_file(&self) -> (r: bool)
        ensures
            r == (self.type_ == DiskInodeType::File),
    {
        self.type_ == DiskInodeType::File
    }

    /// Number of data blocks that hold the file's bytes.
    pub fn data_blocks(&self) -> (r: u32)
        ensures
            r == spec_data_blocks(self.size as int),
    {
        Self::_data_blocks(self.size)
    }

    /// Number of data blocks that hold `size` bytes.
    pub fn _data_blocks(size: u32) -> (r: u32)
        ensures
            r == spec_data_blocks(size as int),
    {
        let q = size / 512;
        if size % 512 != 0 { q + 1 } else { q }
    }

    /// Number of blocks, data and index, that a file of `size` bytes takes.
    pub fn total_blocks(size: u32) -> (r: u32)
        ensures
            r == spec_total_blocks(size as int),
    {
        let data_blocks = Self::_data_blocks(size) as usize;
        let mut total = data_blocks;
        if data_blocks > INODE_DIRECT_COUNT {
            total += 1;
        }
        if data_blocks > INDIRECT1_BOUND {
            total += 1;
            total += (data_blocks - INDIRECT1_BOUND + INODE_INDIRECT1_COUNT - 1) / INODE_INDIRECT1_COUNT;
        }
        total as u32
    }

    /// Number of blocks, data and index, that growing the file to `new_size` bytes takes.
    pub fn blocks_num_needed(&self, new_size: u32) -> (r: u32)
        requires
            new_size >= self.size,
        ensures
            r == spec_total_blocks(new_size as int) - spec_total_blocks(self.size as int),
    {
        proof { lemma_total_blocks_monotonic(self.size as int, new_size as int); }
        Self::total_blocks(new_size) - Self::total_blocks(self.size)
    }

    /// The block that holds file block `inner_id`.
    pub fn get_block_id<D: BlockDevice>(&self, inner_id: u32, cache: &mut BlockCacheManager, block_device: &mut D) -> (r: u32)
        requires
            old(cache).inv(old(block_device)),
            self.wf(),
            self.path_ok(old(cache).disk(old(block_device)), inner_id as int),
        ensures
            final(cache).inv(final(block_device)),
            final(block_device).blocks().len() == old(block_device).blocks().len(),
            final(cache).disk(final(block_device)) == old(cache).disk(old(block_device)),
            r == self.block_id_of(old(cache).disk(old(block_device)), inner_id as int),
    {
        let inner_id = inner_id as usize;
        if inner_id < INODE_DIRECT_COUNT {
            self.direct[inner_id]
        } else if inner_id < INDIRECT1_BOUND {
            cache.read_u32(self.indirect1 as usize, 4 * (inner_id - INODE_DIRECT_COUNT), block_device)
        } else {
            let last = inner_id - INDIRECT1_BOUND;
            let indirect1 = cache.read_u32(self.indirect2 as usize, 4 * (last / INODE_INDIRECT1_COUNT), block_device);
            cache.read_u32(indirect1 as usize, 4 * (last % INODE_INDIRECT1_COUNT), block_device)
        }
    }
}

pub proof fn lemma_data_blocks_monotonic(a: int, b: int)
    requires
        0 <= a <= b,
    ensures
        spec_data_blocks(a) <= spec_data_blocks(b),
{
    vstd::arithmetic::div_mod::lemma_div_is_ordered(a + BLOCK_SZ - 1, b + BLOCK_SZ - 1, BLOCK_SZ as int);
}

pub proof fn lemma_blocks_for_monotonic(a: int, b: int)
    requires
        0 <= a <= b,
    ensures
        blocks_for(a) <= blocks_for(b),
{
    if a > INDIRECT1_BOUND {
        vstd::arithmetic::div_mod::lemma_div_is_ordered(
            a - INDIRECT1_BOUND + INODE_INDIRECT1_COUNT - 1,
            b - INDIRECT1_BOUND + INODE_INDIRECT1_COUNT - 1,
            INODE_INDIRECT1_COUNT as int,
        );
    } else if b > INDIRECT1_BOUND {
        vstd::arithmetic::div_mod::lemma_div_pos_is_pos(b - INDIRECT1_BOUND + INODE_INDIRECT1_COUNT - 1, INODE_INDIRECT1_COUNT as int);
    }
}

pub proof fn lemma_total_blocks_monotonic(a: int, b: int)
    requires
        0 <= a <= b,
    ensures
        spec_total_blocks(a) <= spec_total_blocks(b),
{
    lemma_data_blocks_monotonic(a, b);
    vstd::arithmetic::div_mod::lemma_div_pos_is_pos(a + BLOCK_SZ - 1, BLOCK_SZ as int);
    lemma_blocks_for_monotonic(spec_data_blocks(a), spec_data_blocks(b));
}

} // verus!

verus! {

proof fn lemma_groups_step(k: int)
    requires
        INDIRECT1_BOUND <= k,
    ensures
        groups_for(k + 1) == groups_for(k) + (if (k - INDIRECT1_BOUND) % (INODE_INDIRECT1_COUNT as int) == 0 { 1int } else { 0int }),
        (k - INDIRECT1_BOUND) / (INODE_INDIRECT1_COUNT as int) == groups_for(k + 1) - 1,
        (k - INDIRECT1_BOUND) % (INODE_INDIRECT1_COUNT as int) == 0 ==> (k - INDIRECT1_BOUND) / (INODE_INDIRECT1_COUNT as int) == groups_for(k),
{
    let last = k - INDIRECT1_BOUND;
    vstd::arithmetic::div_mod::lemma_fundamental_div_mod(last, 128);
    let q = last / 128;
    let r = last % 128;
    vstd::arithmetic::div_mod::lemma_mod_bound(last, 128);
    vstd::arithmetic::div_mod::lemma_fundamental_div_mod_converse(last + 128, 128, q + 1, r);
    if r == 0 {
        vstd::arithmetic::div_mod::lemma_fundamental_div_mod_converse(last + 127, 128, q, 127);
    } else {
        vstd::arithmetic::div_mod::lemma_fundamental_div_mod_converse(last + 127, 128, q + 1, r - 1);
    }
}

proof fn lemma_group_bound(i: int, k: int)
    requires
        INDIRECT1_BOUND <= i < k,
    ensures
        0 <= (i - INDIRECT1_BOUND) / (INODE_INDIRECT1_COUNT as int) < groups_for(k),
        0 <= (i - INDIRECT1_BOUND) % (INODE_INDIRECT1_COUNT as int),
        (i - INDIRECT1_BOUND) / (INODE_INDIRECT1_COUNT as int) == (k - INDIRECT1_BOUND) / (INODE_INDIRECT1_COUNT as int)
            ==> (i - INDIRECT1_BOUND) % (INODE_INDIRECT1_COUNT as int) < (k - INDIRECT1_BOUND) % (INODE_INDIRECT1_COUNT as int),
{
    lemma_groups_step(k - 1);
    vstd::arithmetic::div_mod::lemma_div_is_ordered(i - INDIRECT1_BOUND, k - 1 - INDIRECT1_BOUND, 128);
    vstd::arithmetic::div_mod::lemma_div_pos_is_pos(i - INDIRECT1_BOUND, 128);
    vstd::arithmetic::div_mod::lemma_fundamental_div_mod(i - INDIRECT1_BOUND, 128);
    vstd::arithmetic::div_mod::lemma_fundamental_div_mod(k - INDIRECT1_BOUND, 128);
    vstd::arithmetic::div_mod::lemma_mod_bound(i - INDIRECT1_BOUND, 128);
    vstd::arithmetic::div_mod::lemma_mod_bound(k - INDIRECT1_BOUND, 128);
}

proof fn lemma_same_block(start: int, t: int)
    requires
        0 <= start,
        0 <= t,
        start % (BLOCK_SZ as int) + t < BLOCK_SZ,
    ensures
        (start + t) / (BLOCK_SZ as int) == start / (BLOCK_SZ as int),
        (start + t) % (BLOCK_SZ as int) == start % (BLOCK_SZ as int) + t,
{
    vstd::arithmetic::div_mod::lemma_fundamental_div_mod(start, BLOCK_SZ as int);
    vstd::arithmetic::div_mod::lemma_mod_bound(start, BLOCK_SZ as int);
    vstd::arithmetic::div_mod::lemma_fundamental_div_mod_converse(
        start + t,
        BLOCK_SZ as int,
        start / (BLOCK_SZ as int),
        start % (BLOCK_SZ as int) + t,
    );
}

proof fn lemma_byte_in_file(p: int, size: int)
    requires
        0 <= p < size,
    ensures
        0 <= p / (BLOCK_SZ as int) < spec_data_blocks(size),
{
    vstd::arithmetic::div_mod::lemma_div_is_ordered(p, size - 1, BLOCK_SZ as int);
    vstd::arithmetic::div_mod::lemma_div_pos_is_pos(p, BLOCK_SZ as int);
    vstd::arithmetic::div_mod::lemma_fundamental_div_mod(size - 1, BLOCK_SZ as int);
    vstd::arithmetic::div_mod::lemma_mod_bound(size - 1, BLOCK_SZ as int);
    vstd::arithmetic::div_mod::lemma_fundamental_div_mod_converse(
        size + BLOCK_SZ - 1,
        BLOCK_SZ as int,
        (size - 1) / (BLOCK_SZ as int) + 1,
        (size - 1) % (BLOCK_SZ as int),
    );
}

/// Every slot that the list of claimed blocks gives to first-level index block `g` lies
/// below the position of the first data block that is not yet listed.
proof fn lemma_group_start(g: int, k: int)
    requires
        0 <= g < groups_for(k),
    ensures
        blocks_for(INDIRECT1_BOUND + g * INODE_INDIRECT1_COUNT + 1) - 2 < blocks_for(k),
        blocks_for(INDIRECT1_BOUND + g * INODE_INDIRECT1_COUNT + 1) - 2 >= 0,
{
    let s = INDIRECT1_BOUND + g * INODE_INDIRECT1_COUNT;
    assert(g * 128 >= 0) by (nonlinear_arith) requires g >= 0;
    lemma_blocks_for_step(s);
    // the group starts below k
    vstd::arithmetic::div_mod::lemma_fundamental_div_mod(k - INDIRECT1_BOUND + 127, 128);
    vstd::arithmetic::div_mod::lemma_mod_bound(k - INDIRECT1_BOUND + 127, 128);
    assert(s < k) by (nonlinear_arith)
        requires
            g < groups_for(k),
            groups_for(k) == (k - INDIRECT1_BOUND + 127) / 128,
            k - INDIRECT1_BOUND + 127 == 128 * ((k - INDIRECT1_BOUND + 127) / 128) + (k - INDIRECT1_BOUND + 127) % 128,
            (k - INDIRECT1_BOUND + 127) % 128 >= 0,
            s == INDIRECT1_BOUND + g * 128;
    lemma_blocks_for_monotonic(s + 1, k);
}

/// Group `g` is claimed while placing a data block at or past `od`.
proof fn lemma_groups_monotonic(od: int, g: int)
    requires
        0 <= od,
        0 <= groups_for(od) <= g,
    ensures
        blocks_for(INDIRECT1_BOUND + g * INODE_INDIRECT1_COUNT + 1) - 2 >= blocks_for(od),
{
    let s = INDIRECT1_BOUND + g * INODE_INDIRECT1_COUNT;
    assert(g * 128 >= 0) by (nonlinear_arith) requires g >= 0;
    if od > s {
        lemma_groups_step(od - 1);
        vstd::arithmetic::div_mod::lemma_fundamental_div_mod(od - 1 - INDIRECT1_BOUND, 128);
        vstd::arithmetic::div_mod::lemma_mod_bound(od - 1 - INDIRECT1_BOUND, 128);
        assert(false) by (nonlinear_arith)
            requires
                od - 1 - INDIRECT1_BOUND == 128 * ((od - 1 - INDIRECT1_BOUND) / 128) + (od - 1 - INDIRECT1_BOUND) % 128,
                0 <= (od - 1 - INDIRECT1_BOUND) % 128 < 128,
                (od - 1 - INDIRECT1_BOUND) / 128 == groups_for(od) - 1,
                groups_for(od) <= g,
                od > s,
                s == INDIRECT1_BOUND + g * 128;
    }
    lemma_blocks_for_step(s);
    lemma_blocks_for_monotonic(od, s);
}

proof fn lemma_blocks_for_step(k: int)
    requires
        0 <= k,
    ensures
        blocks_for(k + 1) == blocks_for(k) + 1 + (if k == INODE_DIRECT_COUNT { 1int } else { 0int }) + (
        if k == INDIRECT1_BOUND { 1int } else { 0int }) + (if k >= INDIRECT1_BOUND && (k - INDIRECT1_BOUND)
            % (INODE_INDIRECT1_COUNT as int) == 0 { 1int } else { 0int }),
{
    if k >= INDIRECT1_BOUND {
        lemma_groups_step(k);
    }
}

impl DiskInode {
    /// What holds after the first `k` data blocks of a growth that started from `old_self`
    /// on `disk0` have been placed, `c` of `new_blocks` having been consumed.
    spec fn grow_inv(&self, old_self: DiskInode, disk0: Seq<Seq<u8>>, disk: Seq<Seq<u8>>, new_blocks: Seq<u32>, nd: int, k: int, c: int) -> bool {
        let od = old_self.spec_data_count();
        &&& self.direct@.len() == INODE_DIRECT_COUNT
        &&& self.size == old_self.size
        &&& self.type_ == old_self.type_
        &&& od <= k <= nd <= INDIRECT2_BOUND
        &&& c == blocks_for(k) - blocks_for(od)
        &&& new_blocks.len() == blocks_for(nd) - blocks_for(od)
        &&& new_blocks.no_duplicates()
        &&& forall|j: int| 0 <= j < new_blocks.len() ==> (#[trigger] new_blocks[j]) < disk0.len()
        &&& disk.len() == disk0.len()
        &&& self.index_ok_at(disk, k)
        &&& forall|i: int| 0 <= i < od ==> #[trigger] self.block_id_of(disk, i) == old_self.block_id_of(disk0, i)
        &&& forall|i: int| od <= i < k ==> #[trigger] self.block_id_of(disk, i) == new_blocks[blocks_for(i + 1) - 1 - blocks_for(od)]
        &&& forall|j: int| c <= j < new_blocks.len() ==> !self.is_index_at(disk, #[trigger] new_blocks[j] as int, k)
        &&& forall|b: int| 0 <= b < disk0.len() && !self.is_index_at(disk, b, k) ==> #[trigger] disk[b] == disk0[b]
        &&& self.claims_ok(old_self, disk0, disk, new_blocks, k)
        &&& forall|i: int| k <= i < INODE_DIRECT_COUNT ==> #[trigger] self.direct@[i] == old_self.direct@[i]
    }

    /// The index blocks that the first `k` data blocks need: those `old_self` had stay, and
    /// the others are the entries of `new_blocks` at the positions where they were claimed.
    pub open spec fn claims_ok(&self, old_self: DiskInode, disk0: Seq<Seq<u8>>, disk: Seq<Seq<u8>>, new_blocks: Seq<u32>, k: int) -> bool {
        let od = old_self.spec_data_count();
        &&& od > INODE_DIRECT_COUNT ==> self.indirect1 == old_self.indirect1
        &&& od <= INODE_DIRECT_COUNT < k ==> self.indirect1 == new_blocks[blocks_for(INODE_DIRECT_COUNT as int) - blocks_for(od)]
        &&& od > INDIRECT1_BOUND ==> self.indirect2 == old_self.indirect2
        &&& od <= INDIRECT1_BOUND < k ==> self.indirect2 == new_blocks[blocks_for(INDIRECT1_BOUND as int) - blocks_for(od)]
        &&& forall|g: int| 0 <= g < groups_for(od) ==> #[trigger] self.group_block(disk, g) == old_self.group_block(disk0, g)
        &&& forall|g: int| groups_for(od) <= g < groups_for(k) ==> #[trigger] self.group_block(disk, g)
            == new_blocks[blocks_for(INDIRECT1_BOUND + g * INODE_INDIRECT1_COUNT + 1) - 2 - blocks_for(od)]
    }

    /// Places data block `k`, which the direct index holds.
    fn grow_direct<D: BlockDevice>(
        &mut self,
        k: usize,
        c: usize,
        new_blocks: &Vec<u32>,
        cache: &mut BlockCacheManager,
        block_device: &mut D,
        Ghost(old_self): Ghost<DiskInode>,
        Ghost(disk0): Ghost<Seq<Seq<u8>>>,
        Ghost(nd): Ghost<int>,
    ) -> (r: usize)
        requires
            old(cache).inv(old(block_device)),
            old(self).grow_inv(old_self, disk0, old(cache).disk(old(block_device)), new_blocks@, nd, k as int, c as int),
            k < nd,
            k < INODE_DIRECT_COUNT,
        ensures
            final(cache).inv(final(block_device)),
            final(block_device).blocks().len() == old(block_device).blocks().len(),
            final(self).grow_inv(old_self, disk0, final(cache).disk(final(block_device)), new_blocks@, nd, k + 1, r as int),
    {
        proof {
            lemma_blocks_for_step(k as int);
            lemma_blocks_for_monotonic(k as int + 1, nd);
        }
        let ghost disk = cache.disk(block_device);
        let data = new_blocks[c];
        self.direct.set(k, data);
        let r = c + 1;
        proof {
            let od = old_self.spec_data_count();
            assert forall|i: int| 0 <= i < k + 1 implies #[trigger] self.block_id_of(disk, i) < disk.len() by {
                if i < k {
                    assert(old(self).block_id_of(disk, i) < disk.len());
                }
            }
            assert forall|i: int| 0 <= i < od implies #[trigger] self.block_id_of(disk, i) == old_self.block_id_of(disk0, i) by {
                assert(old(self).block_id_of(disk, i) == old_self.block_id_of(disk0, i));
            }
            assert forall|i: int| od <= i < k + 1 implies #[trigger] self.block_id_of(disk, i) == new_blocks@[blocks_for(i + 1) - 1 - blocks_for(od)] by {
                if i < k {
                    assert(old(self).block_id_of(disk, i) == new_blocks@[blocks_for(i + 1) - 1 - blocks_for(od)]);
                }
            }
            assert forall|j: int| r <= j < new_blocks@.len() implies !self.is_index_at(disk, #[trigger] new_blocks@[j] as int, k + 1) by {
            }
            assert forall|b: int| 0 <= b < disk0.len() && !self.is_index_at(disk, b, k + 1) implies #[trigger] disk[b] == disk0[b] by {
                assert(!old(self).is_index_at(disk, b, k as int));
            }
            assert(self.index_ok_at(disk, k + 1));
        }
        r
    }

    /// Places data block `k`, which the single-indirect block holds, claiming that block
    /// first when `k` is the first block it serves.
    fn grow_indirect1<D: BlockDevice>(
        &mut self,
        k: usize,
        c: usize,
        new_blocks: &Vec<u32>,
        cache: &mut BlockCacheManager,
        block_device: &mut D,
        Ghost(old_self): Ghost<DiskInode>,
        Ghost(disk0): Ghost<Seq<Seq<u8>>>,
        Ghost(nd): Ghost<int>,
    ) -> (r: usize)
        requires
            old(cache).inv(old(block_device)),
            old(self).grow_inv(old_self, disk0, old(cache).disk(old(block_device)), new_blocks@, nd, k as int, c as int),
            k < nd,
            INODE_DIRECT_COUNT <= k < INDIRECT1_BOUND,
        ensures
            final(cache).inv(final(block_device)),
            final(block_device).blocks().len() == old(block_device).blocks().len(),
            final(self).grow_inv(old_self, disk0, final(cache).disk(final(block_device)), new_blocks@, nd, k + 1, r as int),
    {
        proof {
            lemma_blocks_for_step(k as int);
            lemma_blocks_for_monotonic(k as int + 1, nd);
            cache.lemma_disk_wf(block_device.blocks());
        }
        let ghost disk = cache.disk(block_device);
        let ghost s0 = *self;
        let mut c1 = c;
        if k == INODE_DIRECT_COUNT {
            self.indirect1 = new_blocks[c1];
            c1 = c1 + 1;
        } else {
            proof { assert(s0.path_ok(disk, INODE_DIRECT_COUNT as int)); }
        }
        let data = new_blocks[c1];
        let r = c1 + 1;
        cache.write_u32(self.indirect1 as usize, 4 * (k - INODE_DIRECT_COUNT), data, block_device);
        proof {
            let disk2 = cache.disk(block_device);
            let x = self.indirect1 as int;
            let od = old_self.spec_data_count();
            assert(self.block_id_of(disk2, k as int) == data) by {
                crate::bytes::lemma_set_u32_same(disk[x], 4 * (k - INODE_DIRECT_COUNT), data);
            }
            assert forall|i: int| 0 <= i < k implies #[trigger] self.block_id_of(disk2, i) == s0.block_id_of(disk, i) by {
                if i >= INODE_DIRECT_COUNT {
                    crate::bytes::lemma_set_u32(disk[x], 4 * (k - INODE_DIRECT_COUNT), data, 4 * (i - INODE_DIRECT_COUNT));
                }
            }
            assert forall|i: int| 0 <= i < k + 1 implies #[trigger] self.block_id_of(disk2, i) < disk2.len() by {
                if i < k {
                    assert(s0.block_id_of(disk, i) < disk.len());
                }
            }
            assert forall|i: int| 0 <= i < k + 1 implies #[trigger] self.path_ok(disk2, i) by {
            }
            assert forall|i: int| 0 <= i < od implies #[trigger] self.block_id_of(disk2, i) == old_self.block_id_of(disk0, i) by {
                assert(s0.block_id_of(disk, i) == old_self.block_id_of(disk0, i));
            }
            assert forall|i: int| od <= i < k + 1 implies #[trigger] self.block_id_of(disk2, i) == new_blocks@[blocks_for(i + 1) - 1 - blocks_for(od)] by {
                if i < k {
                    assert(s0.block_id_of(disk, i) == new_blocks@[blocks_for(i + 1) - 1 - blocks_for(od)]);
                }
            }
            assert forall|j: int| r <= j < new_blocks@.len() implies !self.is_index_at(disk2, #[trigger] new_blocks@[j] as int, k + 1) by {
                if k == INODE_DIRECT_COUNT {
                    assert(new_blocks@[c as int] != new_blocks@[j]);
                } else {
                    assert(!s0.is_index_at(disk, new_blocks@[j] as int, k as int));
                }
            }
            assert forall|b: int| 0 <= b < disk0.len() && !self.is_index_at(disk2, b, k + 1) implies #[trigger] disk2[b] == disk0[b] by {
                assert(!s0.is_index_at(disk, b, k as int));
                assert(disk[b] == disk0[b]);
            }
            assert(self.index_ok_at(disk2, k + 1));
        }
        r
    }

    /// Places data block `k`, which the double-indirect block reaches, claiming the
    /// double-indirect block and a new first-level index block first where `k` is the first
    /// block they serve.
    #[verifier::rlimit(40)]
    fn grow_indirect2<D: BlockDevice>(
        &mut self,
        k: usize,
        c: usize,
        new_blocks: &Vec<u32>,
        cache: &mut BlockCacheManager,
        block_device: &mut D,
        Ghost(old_self): Ghost<DiskInode>,
        Ghost(disk0): Ghost<Seq<Seq<u8>>>,
        Ghost(nd): Ghost<int>,
    ) -> (r: usize)
        requires
            old(cache).inv(old(block_device)),
            old(self).grow_inv(old_self, disk0, old(cache).disk(old(block_device)), new_blocks@, nd, k as int, c as int),
            k < nd,
            INDIRECT1_BOUND <= k,
        ensures
            final(cache).inv(final(block_device)),
            final(block_device).blocks().len() == old(block_device).blocks().len(),
            final(self).grow_inv(old_self, disk0, final(cache).disk(final(block_device)), new_blocks@, nd, k + 1, r as int),
    {
        proof {
            lemma_blocks_for_step(k as int);
            lemma_blocks_for_monotonic(k as int + 1, nd);
            lemma_groups_step(k as int);
            cache.lemma_disk_wf(block_device.blocks());
        }
        let ghost disk = cache.disk(block_device);
        let ghost s0 = *self;
        let ghost od = old_self.spec_data_count();
        let ghost big_g = groups_for(k as int);
        let last = k - INDIRECT1_BOUND;
        let g = last / INODE_INDIRECT1_COUNT;
        let e = last % INODE_INDIRECT1_COUNT;
        proof {
            assert(s0.path_ok(disk, INODE_DIRECT_COUNT as int));
            assert(s0.is_index_at(disk, s0.indirect1 as int, k as int));
        }
        let mut c1 = c;
        if last == 0 {
            self.indirect2 = new_blocks[c1];
            c1 = c1 + 1;
            proof {
                assert(!s0.is_index_at(disk, new_blocks@[c as int] as int, k as int));
            }
        } else {
            proof {
                assert(s0.path_ok(disk, INDIRECT1_BOUND as int));
                assert(s0.is_index_at(disk, s0.indirect2 as int, k as int));
            }
        }
        let ghost x2 = self.indirect2 as int;
        let ghost c_mid = c1;
        proof {
            assert(x2 != self.indirect1);
            assert(x2 < disk.len());
        }
        if e == 0 {
            let l1 = new_blocks[c1];
            c1 = c1 + 1;
            cache.write_u32(self.indirect2 as usize, 4 * g, l1, block_device);
        }
        let ghost disk1 = cache.disk(block_device);
        proof {
            assert forall|h: int| 0 <= h < big_g implies #[trigger] self.group_block(disk1, h) == s0.group_block(disk, h) by {
                if e == 0 {
                    crate::bytes::lemma_set_u32(disk[x2], 4 * g, new_blocks@[c_mid as int], 4 * h);
                }
            }
            if e == 0 {
                crate::bytes::lemma_set_u32_same(disk[x2], 4 * g, new_blocks@[c_mid as int]);
            } else {
                lemma_group_bound(k - 1, k as int);
                assert(s0.path_ok(disk, k - 1));
            }
        }
        let l1 = cache.read_u32(self.indirect2 as usize, 4 * g, block_device);
        let data = new_blocks[c1];
        let r = c1 + 1;
        proof {
            let big_l = l1 as int;
            assert(self.group_block(disk1, g as int) == l1);
            assert(big_l < disk.len());
            if e == 0 {
                assert(!s0.is_index_at(disk, new_blocks@[c_mid as int] as int, k as int));
                if last == 0 {
                    assert(new_blocks@[c as int] != new_blocks@[c_mid as int]);
                }
                assert(big_l != x2);
                assert(big_l != self.indirect1);
                assert forall|h: int| 0 <= h < big_g implies #[trigger] self.group_block(disk1, h) != big_l by {
                    assert(s0.group_block(disk, h) == self.group_block(disk1, h));
                }
            } else {
                assert(g < big_g);
                assert(big_l != x2);
                assert(big_l != self.indirect1);
                assert forall|h: int| 0 <= h < big_g && h != g implies #[trigger] self.group_block(disk1, h) != big_l by {
                    assert(s0.group_block(disk, h) != s0.group_block(disk, g as int));
                }
            }
        }
        cache.write_u32(l1 as usize, 4 * e, data, block_device);
        proof {
            let big_l = l1 as int;
            let disk2 = cache.disk(block_device);
            let big_g2 = groups_for(k + 1);
            crate::bytes::lemma_set_u32_same(disk1[big_l], 4 * e, data);
            assert forall|h: int| 0 <= h < big_g2 implies #[trigger] self.group_block(disk2, h) == self.group_block(disk1, h) by {
            }
            assert(self.block_id_of(disk2, k as int) == data);
            assert forall|i: int| 0 <= i < k implies #[trigger] self.block_id_of(disk2, i) == s0.block_id_of(disk, i) by {
                if INODE_DIRECT_COUNT <= i < INDIRECT1_BOUND {
                    assert(disk2[self.indirect1 as int] == disk[self.indirect1 as int]);
                } else if i >= INDIRECT1_BOUND {
                    let gi = (i - INDIRECT1_BOUND) / 128;
                    let ei = (i - INDIRECT1_BOUND) % 128;
                    lemma_group_bound(i, k as int);
                    let lg = s0.group_block(disk, gi);
                    assert(s0.path_ok(disk, i));
                    assert(self.group_block(disk1, gi) == lg);
                    assert(self.group_block(disk2, gi) == lg);
                    assert(lg != x2);
                    if lg == big_l {
                        assert(gi == g);
                        crate::bytes::lemma_set_u32(disk1[big_l], 4 * e, data, 4 * ei);
                        assert(ind_entry(disk2, lg, ei) == ind_entry(disk1, lg, ei));
                    } else {
                        assert(disk2[lg as int] == disk1[lg as int]);
                    }
                    assert(disk1[lg as int] == disk[lg as int]);
                    assert(ind_entry(disk2, lg, ei) == ind_entry(disk, lg, ei));
                    assert(s0.block_id_of(disk, i) == ind_entry(disk, lg, ei));
                    assert(self.block_id_of(disk2, i) == ind_entry(disk2, self.group_block(disk2, gi), ei));
                }
            }
            assert forall|i: int| 0 <= i < k + 1 implies #[trigger] self.block_id_of(disk2, i) < disk2.len() by {
                if i < k {
                    assert(s0.block_id_of(disk, i) < disk.len());
                }
            }
            assert forall|i: int| 0 <= i < k + 1 implies #[trigger] self.path_ok(disk2, i) by {
                if INDIRECT1_BOUND <= i < k {
                    lemma_group_bound(i, k as int);
                    assert(s0.path_ok(disk, i));
                }
            }
            assert forall|i: int| 0 <= i < od implies #[trigger] self.block_id_of(disk2, i) == old_self.block_id_of(disk0, i) by {
                assert(s0.block_id_of(disk, i) == old_self.block_id_of(disk0, i));
            }
            assert forall|i: int| od <= i < k + 1 implies #[trigger] self.block_id_of(disk2, i) == new_blocks@[blocks_for(i + 1) - 1 - blocks_for(od)] by {
                if i < k {
                    assert(s0.block_id_of(disk, i) == new_blocks@[blocks_for(i + 1) - 1 - blocks_for(od)]);
                }
            }
            assert forall|h: int| 0 <= h < big_g2 implies {
                &&& #[trigger] self.group_block(disk2, h) != self.indirect1
                &&& self.group_block(disk2, h) != self.indirect2
            } by {
                if h < big_g {
                    assert(s0.group_block(disk, h) == self.group_block(disk2, h));
                }
            }
            assert forall|h1: int, h2: int|
                0 <= h1 < big_g2 && 0 <= h2 < big_g2 && h1 != h2 implies #[trigger] self.group_block(disk2, h1) != #[trigger] self.group_block(disk2, h2) by {
                if h1 < big_g && h2 < big_g {
                    assert(s0.group_block(disk, h1) != s0.group_block(disk, h2));
                } else if h1 < big_g {
                    assert(self.group_block(disk1, h1) != big_l);
                } else {
                    assert(self.group_block(disk1, h2) != big_l);
                }
            }
            assert(self.index_ok_at(disk2, k + 1));
            assert forall|j: int| r <= j < new_blocks@.len() implies !self.is_index_at(disk2, #[trigger] new_blocks@[j] as int, k + 1) by {
                let b = new_blocks@[j] as int;
                assert(!s0.is_index_at(disk, b, k as int));
                if last == 0 {
                    assert(new_blocks@[c as int] != new_blocks@[j]);
                }
                if e == 0 {
                    assert(new_blocks@[c_mid as int] != new_blocks@[j]);
                }
                assert forall|h: int| 0 <= h < big_g2 implies #[trigger] self.group_block(disk2, h) != b by {
                    if h < big_g {
                        assert(s0.group_block(disk, h) == self.group_block(disk2, h));
                    }
                }
            }
            assert forall|b: int| 0 <= b < disk0.len() && !self.is_index_at(disk2, b, k + 1) implies #[trigger] disk2[b] == disk0[b] by {
                assert(b != x2);
                assert(self.group_block(disk2, g as int) == big_l);
                assert(b != big_l);
                assert forall|h: int| 0 <= h < big_g implies #[trigger] s0.group_block(disk, h) != b by {
                    assert(s0.group_block(disk, h) == self.group_block(disk2, h));
                }
                assert(!s0.is_index_at(disk, b, k as int));
                assert(disk[b] == disk0[b]);
            }
        }
        r
    }

    /// Grows the file to `new_size` bytes. `new_blocks` are fresh blocks, exactly as many as
    /// `blocks_num_needed(new_size)`; they are consumed in order of file block, each index
    /// block just before the first data block that needs it.
    pub fn increase_size<D: BlockDevice>(
        &mut self,
        new_size: u32,
        new_blocks: Vec<u32>,
        cache: &mut BlockCacheManager,
        block_device: &mut D,
    )
        requires
            old(cache).inv(old(block_device)),
            old(self).index_ok(old(cache).disk(old(block_device))),
            new_size >= old(self).size,
            spec_data_blocks(new_size as int) <= INDIRECT2_BOUND,
            new_blocks@.len() == spec_total_blocks(new_size as int) - spec_total_blocks(old(self).size as int),
            new_blocks@.no_duplicates(),
            forall|j: int| 0 <= j < new_blocks@.len() ==> (#[trigger] new_blocks@[j]) < old(block_device).blocks().len(),
            forall|j: int| 0 <= j < new_blocks@.len()
                ==> !old(self).is_index_block(old(cache).disk(old(block_device)), #[trigger] new_blocks@[j] as int),
            forall|j: int, i: int| 0 <= j < new_blocks@.len() && 0 <= i < old(self).spec_data_count()
                ==> #[trigger] new_blocks@[j] != #[trigger] old(self).block_id_of(old(cache).disk(old(block_device)), i),
        ensures
            final(cache).inv(final(block_device)),
            final(block_device).blocks().len() == old(block_device).blocks().len(),
            final(self).size == new_size,
            final(self).type_ == old(self).type_,
            final(self).index_ok(final(cache).disk(final(block_device))),
            forall|i: int| 0 <= i < old(self).spec_data_count()
                ==> #[trigger] final(self).block_id_of(final(cache).disk(final(block_device)), i)
                    == old(self).block_id_of(old(cache).disk(old(block_device)), i),
            forall|i: int| old(self).spec_data_count() <= i < final(self).spec_data_count()
                ==> #[trigger] final(self).block_id_of(final(cache).disk(final(block_device)), i)
                    == new_blocks@[blocks_for(i + 1) - 1 - blocks_for(old(self).spec_data_count())],
            forall|b: int| 0 <= b < old(block_device).blocks().len()
                && !final(self).is_index_block(final(cache).disk(final(block_device)), b)
                ==> #[trigger] final(cache).disk(final(block_device))[b] == old(cache).disk(old(block_device))[b],
            final(self).claims_ok(*old(self), old(cache).disk(old(block_device)), final(cache).disk(final(block_device)),
                new_blocks@, final(self).spec_data_count()),
            forall|i: int| final(self).spec_data_count() <= i < INODE_DIRECT_COUNT ==> #[trigger] final(self).direct@[i] == old(self).direct@[i],
            forall|b: int| 0 <= b < old(block_device).blocks().len()
                && !old(self).is_index_block(old(cache).disk(old(block_device)), b)
                && (forall|j: int| 0 <= j < new_blocks@.len() ==> new_blocks@[j] != b)
                ==> #[trigger] final(cache).disk(final(block_device))[b] == old(cache).disk(old(block_device))[b],
            old(self).data_disjoint(old(cache).disk(old(block_device))) ==> forall|i: int| 0 <= i < old(self).spec_data_count()
                ==> final(cache).disk(final(block_device))[#[trigger] old(self).block_id_of(old(cache).disk(old(block_device)), i) as int]
                    == old(cache).disk(old(block_device))[old(self).block_id_of(old(cache).disk(old(block_device)), i) as int],
    {
        let ghost disk0 = cache.disk(block_device);
        let ghost old_self = *self;
        let current_blocks = self.data_blocks() as usize;
        let total_blocks = Self::_data_blocks(new_size) as usize;
        proof {
            lemma_data_blocks_monotonic(self.size as int, new_size as int);
            vstd::arithmetic::div_mod::lemma_div_pos_is_pos(self.size + BLOCK_SZ - 1, BLOCK_SZ as int);
            assert forall|j: int| 0 <= j < new_blocks@.len() implies !self.is_index_at(disk0, #[trigger] new_blocks@[j] as int, current_blocks as int) by {
                assert(!old(self).is_index_block(disk0, new_blocks@[j] as int));
            }
        }
        let mut k = current_blocks;
        let mut c: usize = 0;
        while k < total_blocks
            invariant
                cache.inv(block_device),
                block_device.blocks().len() == disk0.len(),
                disk0 == old(cache).disk(old(block_device)),
                old_self == *old(self),
                total_blocks == spec_data_blocks(new_size as int),
                current_blocks == old_self.spec_data_count(),
                current_blocks <= k <= total_blocks,
                self.grow_inv(old_self, disk0, cache.disk(block_device), new_blocks@, total_blocks as int, k as int, c as int),
            decreases total_blocks - k,
        {
            if k < INODE_DIRECT_COUNT {
                c = self.grow_direct(k, c, &new_blocks, cache, block_device, Ghost(old_self), Ghost(disk0), Ghost(total_blocks as int));
            } else if k < INDIRECT1_BOUND {
                c = self.grow_indirect1(k, c, &new_blocks, cache, block_device, Ghost(old_self), Ghost(disk0), Ghost(total_blocks as int));
            } else {
                c = self.grow_indirect2(k, c, &new_blocks, cache, block_device, Ghost(old_self), Ghost(disk0), Ghost(total_blocks as int));
            }
            k += 1;
        }
        let ghost pre = *self;
        self.size = new_size;
        proof {
            let disk = cache.disk(block_device);
            assert forall|i: int| #![trigger self.block_id_of(disk, i)] #![trigger self.path_ok(disk, i)]
                0 <= i < k implies self.block_id_of(disk, i) == pre.block_id_of(disk, i) && self.path_ok(disk, i) == pre.path_ok(disk, i) by {
            }
            assert forall|g: int| #![trigger self.group_block(disk, g)] self.group_block(disk, g) == pre.group_block(disk, g) by {
            }
            assert forall|b: int| #![trigger self.is_index_at(disk, b, k as int)] self.is_index_at(disk, b, k as int) == pre.is_index_at(disk, b, k as int) by {
                if pre.is_index_at(disk, b, k as int) {
                    if exists|g: int| 0 <= g < groups_for(k as int) && #[trigger] pre.group_block(disk, g) == b {
                        let g = choose|g: int| 0 <= g < groups_for(k as int) && #[trigger] pre.group_block(disk, g) == b;
                        assert(self.group_block(disk, g) == b);
                    }
                }
            }
            assert(self.index_ok_at(disk, k as int));
            let od = old_self.spec_data_count();
            let nb = new_blocks@;
            assert forall|b: int| 0 <= b < disk0.len() && !old_self.is_index_block(disk0, b)
                && (forall|j: int| 0 <= j < nb.len() ==> nb[j] != b)
                implies #[trigger] disk[b] == disk0[b] by {
                lemma_blocks_for_monotonic(od, k as int);
                if self.is_index_block(disk, b) {
                    if k > INODE_DIRECT_COUNT && b == self.indirect1 {
                        if od <= INODE_DIRECT_COUNT {
                            lemma_blocks_for_monotonic(INODE_DIRECT_COUNT as int + 1, k as int);
                            assert(nb[blocks_for(INODE_DIRECT_COUNT as int) - blocks_for(od)] == b);
                        }
                    } else if k > INDIRECT1_BOUND && b == self.indirect2 {
                        if od <= INDIRECT1_BOUND {
                            lemma_blocks_for_monotonic(INDIRECT1_BOUND as int + 1, k as int);
                            lemma_blocks_for_step(INDIRECT1_BOUND as int);
                            assert(nb[blocks_for(INDIRECT1_BOUND as int) - blocks_for(od)] == b);
                        }
                    } else {
                        let g = choose|g: int| 0 <= g < groups_for(k as int) && #[trigger] self.group_block(disk, g) == b;
                        if g < groups_for(od) {
                            assert(old_self.group_block(disk0, g) == b);
                        } else {
                            lemma_group_start(g, k as int);
                            lemma_groups_monotonic(od, g);
                            assert(nb[blocks_for(INDIRECT1_BOUND + g * INODE_INDIRECT1_COUNT + 1) - 2 - blocks_for(od)] == b);
                        }
                    }
                }
            }
        }
    }

    /// Byte `p` of the file, as `disk` holds it.
    pub open spec fn file_byte(&self, disk: Seq<Seq<u8>>, p: int) -> u8 {
        disk[self.block_id_of(disk, p / (BLOCK_SZ as int)) as int][p % (BLOCK_SZ as int)]
    }

    /// The bytes of the file, as `disk` holds them.
    pub open spec fn content(&self, disk: Seq<Seq<u8>>) -> Seq<u8> {
        Seq::new(self.size as nat, |p: int| self.file_byte(disk, p))
    }

    /// The data blocks in use are pairwise distinct and are no index blocks.
    pub open spec fn data_disjoint(&self, disk: Seq<Seq<u8>>) -> bool {
        let d = self.spec_data_count();
        &&& forall|i: int, j: int|
            0 <= i < d && 0 <= j < d && i != j ==> #[trigger] self.block_id_of(disk, i) != #[trigger] self.block_id_of(disk, j)
        &&& forall|i: int| 0 <= i < d ==> !self.is_index_block(disk, #[trigger] self.block_id_of(disk, i) as int)
    }

    /// Copies the file's bytes from `offset` on into `buf`, as many as fit and as the file
    /// holds, and returns their number: 0 when `offset` is at or past the end.
    pub fn read_at<D: BlockDevice>(&self, offset: usize, buf: &mut [u8], cache: &mut BlockCacheManager, block_device: &mut D) -> (r: usize)
        requires
            old(cache).inv(old(block_device)),
            self.index_ok(old(cache).disk(old(block_device))),
            offset + old(buf)@.len() <= usize::MAX,
        ensures
            final(cache).inv(final(block_device)),
            final(block_device).blocks().len() == old(block_device).blocks().len(),
            final(cache).disk(final(block_device)) == old(cache).disk(old(block_device)),
            r == (if offset < self.size { 
                if offset + old(buf)@.len() < self.size { old(buf)@.len() as int } else { self.size - offset }
            } else { 0 }),
            final(buf)@.len() == old(buf)@.len(),
            forall|q: int| 0 <= q < r ==> final(buf)@[q] == self.content(old(cache).disk(old(block_device)))[offset + q],
            forall|q: int| r <= q < old(buf)@.len() ==> final(buf)@[q] == old(buf)@[q],
    {
        let ghost disk = cache.disk(block_device);
        proof { cache.lemma_disk_wf(block_device.blocks()); }
        let blen = buf.len();
        let size = self.size as usize;
        let end = if offset + blen < size { offset + blen } else { size };
        if offset >= end {
            return 0;
        }
        let ghost r = end - offset;
        let mut start = offset;
        let mut read_size: usize = 0;
        while start < end
            invariant
                cache.inv(block_device),
                block_device.blocks().len() == disk.len(),
                cache.disk(block_device) == disk,
                disk == old(cache).disk(old(block_device)),
                crate::block_dev::blocks_wf(disk),
                self.index_ok(disk),
                offset <= start <= end <= self.size,
                end == offset + r,
                r <= blen,
                buf@.len() == blen,
                old(buf)@.len() == blen,
                start == offset + read_size,
                forall|q: int| 0 <= q < read_size ==> buf@[q] == self.content(disk)[offset + q],
                forall|q: int| read_size <= q < blen ==> buf@[q] == old(buf)@[q],
            decreases end - start,
        {
            let start_block = start / BLOCK_SZ;
            let mut end_current_block = (start / BLOCK_SZ + 1) * BLOCK_SZ;
            if end_current_block > end {
                end_current_block = end;
            }
            let block_read_size = end_current_block - start;
            proof {
                vstd::arithmetic::div_mod::lemma_fundamental_div_mod(start as int, BLOCK_SZ as int);
                vstd::arithmetic::div_mod::lemma_mod_bound(start as int, BLOCK_SZ as int);
                vstd::arithmetic::div_mod::lemma_div_is_ordered(start as int, self.size - 1, BLOCK_SZ as int);
                vstd::arithmetic::div_mod::lemma_div_is_ordered(self.size - 1, self.size + BLOCK_SZ - 1, BLOCK_SZ as int);
                assert(self.path_ok(disk, start_block as int));
                assert(self.block_id_of(disk, start_block as int) < disk.len());
            }
            let blk = self.get_block_id(start_block as u32, cache, block_device);
            let ghost buf_before = buf@;
            cache.read_bytes(blk as usize, start % BLOCK_SZ, buf, read_size, block_read_size, block_device);
            proof {
                assert forall|q: int| 0 <= q < read_size + block_read_size implies buf@[q] == self.content(disk)[offset + q] by {
                    if q >= read_size {
                        let t = q - read_size;
                        lemma_same_block(start as int, t);
                    }
                }
            }
            read_size += block_read_size;
            start = end_current_block;
        }
        read_size
    }

    /// When only blocks other than the index blocks changed, the index reads the same.
    proof fn lemma_index_unchanged(&self, disk0: Seq<Seq<u8>>, disk: Seq<Seq<u8>>)
        requires
            self.index_ok(disk0),
            disk.len() == disk0.len(),
            forall|b: int| 0 <= b < disk0.len() && self.is_index_block(disk0, b) ==> #[trigger] disk[b] == disk0[b],
        ensures
            forall|i: int| 0 <= i < self.spec_data_count() ==> #[trigger] self.block_id_of(disk, i) == self.block_id_of(disk0, i),
            forall|g: int| 0 <= g < groups_for(self.spec_data_count()) ==> #[trigger] self.group_block(disk, g) == self.group_block(disk0, g),
            forall|b: int| #[trigger] self.is_index_block(disk, b) == self.is_index_block(disk0, b),
            self.index_ok(disk),
    {
        let d = self.spec_data_count();
        if d > INODE_DIRECT_COUNT {
            assert(self.path_ok(disk0, INODE_DIRECT_COUNT as int));
            assert(self.is_index_block(disk0, self.indirect1 as int));
        }
        if d > INDIRECT1_BOUND {
            assert(self.path_ok(disk0, INDIRECT1_BOUND as int));
            assert(self.is_index_block(disk0, self.indirect2 as int));
        }
        assert forall|g: int| 0 <= g < groups_for(d) implies #[trigger] self.group_block(disk, g) == self.group_block(disk0, g) by {
        }
        assert forall|i: int| 0 <= i < d implies #[trigger] self.block_id_of(disk, i) == self.block_id_of(disk0, i) by {
            assert(self.path_ok(disk0, i));
            if i >= INDIRECT1_BOUND {
                let g = (i - INDIRECT1_BOUND) / (INODE_INDIRECT1_COUNT as int);
                lemma_group_bound(i, d);
                assert(self.group_block(disk, g) == self.group_block(disk0, g));
                assert(self.is_index_block(disk0, self.group_block(disk0, g) as int));
            }
        }
        assert forall|b: int| #[trigger] self.is_index_block(disk, b) == self.is_index_block(disk0, b) by {
            if self.is_index_block(disk0, b) {
                if exists|g: int| 0 <= g < groups_for(d) && #[trigger] self.group_block(disk0, g) == b {
                    let g = choose|g: int| 0 <= g < groups_for(d) && #[trigger] self.group_block(disk0, g) == b;
                    assert(self.group_block(disk, g) == b);
                }
            }
            if self.is_index_block(disk, b) {
                if exists|g: int| 0 <= g < groups_for(d) && #[trigger] self.group_block(disk, g) == b {
                    let g = choose|g: int| 0 <= g < groups_for(d) && #[trigger] self.group_block(disk, g) == b;
                    assert(self.group_block(disk0, g) == b);
                }
            }
        }
        assert forall|i: int| 0 <= i < d implies #[trigger] self.path_ok(disk, i) by {
            assert(self.path_ok(disk0, i));
            if i >= INDIRECT1_BOUND {
                lemma_group_bound(i, d);
            }
        }
        assert forall|i: int| 0 <= i < d implies #[trigger] self.block_id_of(disk, i) < disk.len() by {
            assert(self.block_id_of(disk0, i) < disk0.len());
        }
    }

    /// Stores `buf` into the file from `offset` on and returns the number of bytes stored,
    /// all of them. The file does not grow: the bytes must lie inside its size; growing it is
    /// the caller's work.
    pub fn write_at<D: BlockDevice>(&mut self, offset: usize, buf: &[u8], cache: &mut BlockCacheManager, block_device: &mut D) -> (r: usize)
        requires
            old(cache).inv(old(block_device)),
            old(self).index_ok(old(cache).disk(old(block_device))),
            old(self).data_disjoint(old(cache).disk(old(block_device))),
            offset + buf@.len() <= old(self).size,
        ensures
            final(cache).inv(final(block_device)),
            final(block_device).blocks().len() == old(block_device).blocks().len(),
            *final(self) == *old(self),
            r == buf@.len(),
            ({
                let disk = old(cache).disk(old(block_device));
                let disk2 = final(cache).disk(final(block_device));
                &&& final(self).index_ok(disk2)
                &&& final(self).data_disjoint(disk2)
                &&& forall|i: int| 0 <= i < old(self).spec_data_count() ==> #[trigger] final(self).block_id_of(disk2, i) == old(self).block_id_of(disk, i)
                &&& forall|p: int| 0 <= p < old(self).size ==> #[trigger] final(self).content(disk2)[p] == if offset <= p < offset + r {
                    buf@[p - offset]
                } else {
                    old(self).content(disk)[p]
                }
                &&& forall|b: int| 0 <= b < disk.len() && (forall|i: int| 0 <= i < old(self).spec_data_count() ==> #[trigger] old(self).block_id_of(disk, i) != b)
                    ==> #[trigger] disk2[b] == disk[b]
            }),
    {
        let ghost disk0 = cache.disk(block_device);
        let ghost d = self.spec_data_count();
        proof { cache.lemma_disk_wf(block_device.blocks()); }
        let blen = buf.len();
        let size = self.size as usize;
        let end = if offset + blen < size { offset + blen } else { size };
        let ghost r = end - offset;
        let mut start = offset;
        let mut write_size: usize = 0;
        while start < end
            invariant
                cache.inv(block_device),
                block_device.blocks().len() == disk0.len(),
                disk0 == old(cache).disk(old(block_device)),
                crate::block_dev::blocks_wf(disk0),
                *self == *old(self),
                d == self.spec_data_count(),
                self.index_ok(disk0),
                self.data_disjoint(disk0),
                offset <= start <= end <= self.size,
                end == offset + r,
                r <= blen,
                buf@.len() == blen,
                start == offset + write_size,
                cache.disk(block_device).len() == disk0.len(),
                crate::block_dev::blocks_wf(cache.disk(block_device)),
                forall|b: int| 0 <= b < disk0.len() && (forall|i: int| 0 <= i < d ==> #[trigger] self.block_id_of(disk0, i) != b)
                    ==> #[trigger] cache.disk(block_device)[b] == disk0[b],
                forall|i: int| 0 <= i < d ==> #[trigger] self.block_id_of(cache.disk(block_device), i) == self.block_id_of(disk0, i),
                self.index_ok(cache.disk(block_device)),
                forall|p: int| 0 <= p < self.size ==> #[trigger] self.content(cache.disk(block_device))[p] == if offset <= p < start {
                    buf@[p - offset]
                } else {
                    self.content(disk0)[p]
                },
            decreases end - start,
        {
            let ghost disk = cache.disk(block_device);
            let start_block = start / BLOCK_SZ;
            let mut end_current_block = (start / BLOCK_SZ + 1) * BLOCK_SZ;
            if end_current_block > end {
                end_current_block = end;
            }
            let block_write_size = end_current_block - start;
            proof {
                vstd::arithmetic::div_mod::lemma_fundamental_div_mod(start as int, BLOCK_SZ as int);
                vstd::arithmetic::div_mod::lemma_mod_bound(start as int, BLOCK_SZ as int);
                lemma_byte_in_file(start as int, self.size as int);
                assert(self.path_ok(disk, start_block as int));
                assert(self.block_id_of(disk, start_block as int) < disk.len());
            }
            let blk = self.get_block_id(start_block as u32, cache, block_device);
            cache.write_bytes(blk as usize, start % BLOCK_SZ, buf, write_size, block_write_size, block_device);
            proof {
                let disk2 = cache.disk(block_device);
                let bi = blk as int;
                assert(blk == self.block_id_of(disk0, start_block as int));
                assert(!self.is_index_block(disk0, bi));
                assert forall|b: int| 0 <= b < disk0.len() && (forall|i: int| 0 <= i < d ==> #[trigger] self.block_id_of(disk0, i) != b)
                    implies #[trigger] disk2[b] == disk0[b] by {
                    assert(self.block_id_of(disk0, start_block as int) != b);
                }
                assert forall|b: int| 0 <= b < disk0.len() && self.is_index_block(disk0, b) implies #[trigger] disk2[b] == disk0[b] by {
                    assert forall|i: int| 0 <= i < d implies #[trigger] self.block_id_of(disk0, i) != b by {
                    }
                }
                self.lemma_index_unchanged(disk0, disk2);
                assert forall|p: int| 0 <= p < self.size implies #[trigger] self.content(disk2)[p] == if offset <= p < start + block_write_size {
                    buf@[p - offset]
                } else {
                    self.content(disk0)[p]
                } by {
                    let pb = p / (BLOCK_SZ as int);
                    lemma_byte_in_file(p, self.size as int);
                    vstd::arithmetic::div_mod::lemma_fundamental_div_mod(p, BLOCK_SZ as int);
                    vstd::arithmetic::div_mod::lemma_mod_bound(p, BLOCK_SZ as int);
                    assert(self.content(disk2)[p] == disk2[self.block_id_of(disk0, pb) as int][p % (BLOCK_SZ as int)]);
                    assert(self.content(disk)[p] == disk[self.block_id_of(disk0, pb) as int][p % (BLOCK_SZ as int)]);
                    if pb == start_block {
                        if start <= p < start + block_write_size {
                            lemma_same_block(start as int, p - start);
                        } else {
                            if p >= start + block_write_size {
                                lemma_same_block(start as int, block_write_size - 1);
                            }
                        }
                    } else {
                        assert(self.block_id_of(disk0, pb) != self.block_id_of(disk0, start_block as int));
                        if start <= p < start + block_write_size {
                            lemma_same_block(start as int, p - start);
                        }
                    }
                }
            }
            write_size += block_write_size;
            start = end_current_block;
        }
        proof {
            let disk2 = cache.disk(block_device);
            assert forall|b: int| 0 <= b < disk0.len() && self.is_index_block(disk0, b) implies #[trigger] disk2[b] == disk0[b] by {
                assert forall|i: int| 0 <= i < d implies #[trigger] self.block_id_of(disk0, i) != b by {
                }
            }
            self.lemma_index_unchanged(disk0, disk2);
        }
        write_size
    }

    /// `v` lists, in the order in which they were claimed, the blocks that the first `k` data
    /// blocks of `self` take on `disk`: each data block at the position right after the index
    /// blocks it needs.
    pub open spec fn lists_blocks(&self, disk: Seq<Seq<u8>>, v: Seq<u32>, k: int) -> bool {
        &&& v.len() == blocks_for(k)
        &&& forall|i: int| 0 <= i < k ==> v[blocks_for(i + 1) - 1] == #[trigger] self.block_id_of(disk, i)
        &&& k > INODE_DIRECT_COUNT ==> v[INODE_DIRECT_COUNT as int] == self.indirect1
        &&& k > INDIRECT1_BOUND ==> v[INDIRECT1_BOUND + 1] == self.indirect2
        &&& forall|g: int| 0 <= g < groups_for(k)
            ==> v[blocks_for(INDIRECT1_BOUND + g * INODE_INDIRECT1_COUNT + 1) - 2] == #[trigger] self.group_block(disk, g)
    }

    /// Empties the file and returns every block it took, data and index, in the order in
    /// which they were claimed. The caller gives them back to the data bitmap.
    pub fn clear_size<D: BlockDevice>(&mut self, cache: &mut BlockCacheManager, block_device: &mut D) -> (r: Vec<u32>)
        requires
            old(cache).inv(old(block_device)),
            old(self).index_ok(old(cache).disk(old(block_device))),
        ensures
            final(cache).inv(final(block_device)),
            final(block_device).blocks().len() == old(block_device).blocks().len(),
            final(cache).disk(final(block_device)) == old(cache).disk(old(block_device)),
            r@.len() == spec_total_blocks(old(self).size as int),
            old(self).lists_blocks(old(cache).disk(old(block_device)), r@, old(self).spec_data_count()),
            final(self).size == 0,
            final(self).indirect1 == 0,
            final(self).indirect2 == 0,
            final(self).type_ == old(self).type_,
            final(self).wf(),
            forall|i: int| 0 <= i < INODE_DIRECT_COUNT ==> #[trigger] final(self).direct@[i] == if i < old(self).spec_data_count() {
                0
            } else {
                old(self).direct@[i]
            },
    {
        let ghost disk = cache.disk(block_device);
        let ghost s0 = *self;
        proof { cache.lemma_disk_wf(block_device.blocks()); }
        let data_blocks = self.data_blocks() as usize;
        let mut v: Vec<u32> = Vec::new();
        let mut k: usize = 0;
        while k < data_blocks
            invariant
                cache.inv(block_device),
                block_device.blocks().len() == disk.len(),
                cache.disk(block_device) == disk,
                disk == old(cache).disk(old(block_device)),
                s0 == *old(self),
                s0.index_ok(disk),
                data_blocks == s0.spec_data_count(),
                k <= data_blocks,
                self.size == s0.size,
                self.indirect1 == s0.indirect1,
                self.indirect2 == s0.indirect2,
                self.type_ == s0.type_,
                self.direct@.len() == INODE_DIRECT_COUNT,
                forall|i: int| 0 <= i < INODE_DIRECT_COUNT ==> #[trigger] self.direct@[i] == if i < k { 0 } else { s0.direct@[i] },
                s0.lists_blocks(disk, v@, k as int),
            decreases data_blocks - k,
        {
            proof {
                lemma_blocks_for_step(k as int);
                assert(s0.path_ok(disk, k as int));
            }
            let ghost v0 = v@;
            if k < INODE_DIRECT_COUNT {
                v.push(self.direct[k]);
                self.direct.set(k, 0);
            } else if k < INDIRECT1_BOUND {
                if k == INODE_DIRECT_COUNT {
                    v.push(self.indirect1);
                }
                let b = cache.read_u32(self.indirect1 as usize, 4 * (k - INODE_DIRECT_COUNT), block_device);
                v.push(b);
            } else {
                let last = k - INDIRECT1_BOUND;
                if last == 0 {
                    v.push(self.indirect2);
                }
                let l1 = cache.read_u32(self.indirect2 as usize, 4 * (last / INODE_INDIRECT1_COUNT), block_device);
                if last % INODE_INDIRECT1_COUNT == 0 {
                    v.push(l1);
                }
                let b = cache.read_u32(l1 as usize, 4 * (last % INODE_INDIRECT1_COUNT), block_device);
                v.push(b);
                proof {
                    lemma_groups_step(k as int);
                }
            }
            proof {
                assert forall|i: int| 0 <= i < k + 1 implies v@[blocks_for(i + 1) - 1] == #[trigger] s0.block_id_of(disk, i) by {
                    if i < k {
                        lemma_blocks_for_monotonic(i + 1, k as int);
                        assert(v0[blocks_for(i + 1) - 1] == s0.block_id_of(disk, i));
                    }
                }
                assert forall|g: int| 0 <= g < groups_for(k + 1)
                    implies v@[blocks_for(INDIRECT1_BOUND + g * INODE_INDIRECT1_COUNT + 1) - 2] == #[trigger] s0.group_block(disk, g) by {
                    if g < groups_for(k as int) {
                        assert(v0[blocks_for(INDIRECT1_BOUND + g * INODE_INDIRECT1_COUNT + 1) - 2] == s0.group_block(disk, g));
                        lemma_group_start(g, k as int);
                    } else {
                        lemma_groups_step(k as int);
                        let last = k - INDIRECT1_BOUND;
                        assert(g == last / 128);
                        vstd::arithmetic::div_mod::lemma_fundamental_div_mod(last, 128);
                        assert(k == INDIRECT1_BOUND + g * INODE_INDIRECT1_COUNT);
                    }
                }
                if k > INODE_DIRECT_COUNT {
                    assert(v@[INODE_DIRECT_COUNT as int] == v0[INODE_DIRECT_COUNT as int]);
                }
                if k > INDIRECT1_BOUND {
                    assert(v@[INDIRECT1_BOUND + 1] == v0[INDIRECT1_BOUND + 1]);
                }
            }
            k += 1;
        }
        self.indirect1 = 0;
        self.indirect2 = 0;
        self.size = 0;
        v
    }
}

} // verus!

verus! {

/// Position of the type word inside an inode on disk.
pub const INODE_TYPE_OFFSET: usize = 124;

/// The inode stored at byte `offset` of block `block` on `disk` is `inode`.
pub open spec fn inode_stored(disk: Seq<Seq<u8>>, block: int, offset: int, inode: DiskInode) -> bool {
    let s = disk[block];
    &&& le_u32(s, offset) == inode.size
    &&& forall|i: int| 0 <= i < INODE_DIRECT_COUNT ==> le_u32(s, offset + 4 + 4 * i) == #[trigger] inode.direct@[i]
    &&& le_u32(s, offset + 116) == inode.indirect1
    &&& le_u32(s, offset + 120) == inode.indirect2
    &&& (le_u32(s, offset + INODE_TYPE_OFFSET) == 1) == (inode.type_ == DiskInodeType::Directory)
}

impl DiskInode {
    /// Reads the inode stored at byte `offset` of block `block`.
    pub fn load<D: BlockDevice>(block: usize, offset: usize, cache: &mut BlockCacheManager, block_device: &mut D) -> (r: Self)
        requires
            old(cache).inv(old(block_device)),
            block < old(block_device).blocks().len(),
            offset + DISK_INODE_SZ <= BLOCK_SZ,
        ensures
            final(cache).inv(final(block_device)),
            final(block_device).blocks().len() == old(block_device).blocks().len(),
            final(cache).disk(final(block_device)) == old(cache).disk(old(block_device)),
            r.direct@.len() == INODE_DIRECT_COUNT,
            inode_stored(old(cache).disk(old(block_device)), block as int, offset as int, r),
    {
        let ghost disk = cache.disk(block_device);
        let size = cache.read_u32(block, offset, block_device);
        let mut direct: Vec<u32> = Vec::new();
        let mut i: usize = 0;
        while i < INODE_DIRECT_COUNT
            invariant
                cache.inv(block_device),
                block_device.blocks().len() == disk.len(),
                cache.disk(block_device) == disk,
                block < disk.len(),
                offset + DISK_INODE_SZ <= BLOCK_SZ,
                i <= INODE_DIRECT_COUNT,
                direct@.len() == i,
                forall|j: int| 0 <= j < i ==> le_u32(disk[block as int], offset + 4 + 4 * j) == #[trigger] direct@[j],
            decreases INODE_DIRECT_COUNT - i,
        {
            let w = cache.read_u32(block, offset + 4 + 4 * i, block_device);
            direct.push(w);
            i += 1;
        }
        let indirect1 = cache.read_u32(block, offset + 116, block_device);
        let indirect2 = cache.read_u32(block, offset + 120, block_device);
        let t = cache.read_u32(block, offset + INODE_TYPE_OFFSET, block_device);
        let type_ = if t == 1 { DiskInodeType::Directory } else { DiskInodeType::File };
        DiskInode { size, direct, indirect1, indirect2, type_ }
    }

    /// Writes the inode at byte `offset` of block `block`, leaving the rest of the disk as it
    /// was.
    pub fn store<D: BlockDevice>(&self, block: usize, offset: usize, cache: &mut BlockCacheManager, block_device: &mut D)
        requires
            old(cache).inv(old(block_device)),
            block < old(block_device).blocks().len(),
            offset + DISK_INODE_SZ <= BLOCK_SZ,
            self.direct@.len() == INODE_DIRECT_COUNT,
        ensures
            final(cache).inv(final(block_device)),
            final(block_device).blocks().len() == old(block_device).blocks().len(),
            inode_stored(final(cache).disk(final(block_device)), block as int, offset as int, *self),
            forall|b: int| 0 <= b < old(block_device).blocks().len() && b != block
                ==> #[trigger] final(cache).disk(final(block_device))[b] == old(cache).disk(old(block_device))[b],
            forall|q: int| 0 <= q < BLOCK_SZ && !(offset <= q < offset + DISK_INODE_SZ)
                ==> #[trigger] final(cache).disk(final(block_device))[block as int][q] == old(cache).disk(old(block_device))[block as int][q],
    {
        let ghost disk0 = cache.disk(block_device);
        proof { cache.lemma_disk_wf(block_device.blocks()); }
        let code: u32 = if self.type_ == DiskInodeType::Directory { 1 } else { 0 };
        cache.write_u32(block, offset + INODE_TYPE_OFFSET, code, block_device);
        cache.write_u32(block, offset + 120, self.indirect2, block_device);
        cache.write_u32(block, offset + 116, self.indirect1, block_device);
        let ghost disk1 = cache.disk(block_device);
        proof {
            crate::bytes::lemma_set_u32_same(disk0[block as int], offset + INODE_TYPE_OFFSET, code);
            let s1 = crate::bytes::set_u32(disk0[block as int], offset + INODE_TYPE_OFFSET, code);
            crate::bytes::lemma_set_u32_same(s1, offset + 120, self.indirect2);
            crate::bytes::lemma_set_u32(s1, offset + 120, self.indirect2, offset + INODE_TYPE_OFFSET);
            let s2 = crate::bytes::set_u32(s1, offset + 120, self.indirect2);
            crate::bytes::lemma_set_u32_same(s2, offset + 116, self.indirect1);
            crate::bytes::lemma_set_u32(s2, offset + 116, self.indirect1, offset + INODE_TYPE_OFFSET);
            crate::bytes::lemma_set_u32(s2, offset + 116, self.indirect1, offset + 120);
        }
        let mut i: usize = 0;
        while i < INODE_DIRECT_COUNT
            invariant
                cache.inv(block_device),
                block_device.blocks().len() == disk0.len(),
                block < disk0.len(),
                offset + DISK_INODE_SZ <= BLOCK_SZ,
                self.direct@.len() == INODE_DIRECT_COUNT,
                crate::block_dev::blocks_wf(cache.disk(block_device)),
                i <= INODE_DIRECT_COUNT,
                le_u32(cache.disk(block_device)[block as int], offset + 116) == self.indirect1,
                le_u32(cache.disk(block_device)[block as int], offset + 120) == self.indirect2,
                le_u32(cache.disk(block_device)[block as int], offset + INODE_TYPE_OFFSET) == code,
                forall|j: int| 0 <= j < i ==> le_u32(cache.disk(block_device)[block as int], offset + 4 + 4 * j) == #[trigger] self.direct@[j],
                forall|b: int| 0 <= b < disk0.len() && b != block ==> #[trigger] cache.disk(block_device)[b] == disk0[b],
                forall|q: int| 0 <= q < BLOCK_SZ && !(offset <= q < offset + DISK_INODE_SZ)
                    ==> #[trigger] cache.disk(block_device)[block as int][q] == disk0[block as int][q],
            decreases INODE_DIRECT_COUNT - i,
        {
            let ghost sb = cache.disk(block_device)[block as int];
            proof { cache.lemma_disk_wf(block_device.blocks()); }
            cache.write_u32(block, offset + 4 + 4 * i, self.direct[i], block_device);
            proof {
                let o = offset + 4 + 4 * i;
                crate::bytes::lemma_set_u32_same(sb, o, self.direct@[i as int]);
                crate::bytes::lemma_set_u32(sb, o, self.direct@[i as int], offset + 116);
                crate::bytes::lemma_set_u32(sb, o, self.direct@[i as int], offset + 120);
                crate::bytes::lemma_set_u32(sb, o, self.direct@[i as int], offset + INODE_TYPE_OFFSET);
                assert forall|j: int| 0 <= j < i implies le_u32(cache.disk(block_device)[block as int], offset + 4 + 4 * j) == #[trigger] self.direct@[j] by {
                    crate::bytes::lemma_set_u32(sb, o, self.direct@[i as int], offset + 4 + 4 * j);
                }
            }
            i += 1;
        }
        let ghost sb = cache.disk(block_device)[block as int];
        proof { cache.lemma_disk_wf(block_device.blocks()); }
        cache.write_u32(block, offset, self.size, block_device);
        proof {
            crate::bytes::lemma_set_u32_same(sb, offset as int, self.size);
            crate::bytes::lemma_set_u32(sb, offset as int, self.size, offset + 116);
            crate::bytes::lemma_set_u32(sb, offset as int, self.size, offset + 120);
            crate::bytes::lemma_set_u32(sb, offset as int, self.size, offset + INODE_TYPE_OFFSET);
            assert forall|j: int| 0 <= j < INODE_DIRECT_COUNT implies le_u32(cache.disk(block_device)[block as int], offset + 4 + 4 * j) == #[trigger] self.direct@[j] by {
                crate::bytes::lemma_set_u32(sb, offset as int, self.size, offset + 4 + 4 * j);
            }
        }
    }
}

} // verus!

verus! {

/// One entry of a directory: a name of at most 27 bytes, NUL-padded, and an inode number.
pub struct DirEntry {
    name: Vec<u8>,
    inode_number: u32,
}

/// The bytes of `s` before its first NUL, or all of them when it holds none.
pub open spec fn before_nul(s: Seq<u8>) -> Seq<u8>
    decreases s.len(),
{
    if s.len() == 0 {
        s
    } else if s[0] == 0 {
        Seq::empty()
    } else {
        seq![s[0]] + before_nul(s.drop_first())
    }
}

impl DirEntry {
    /// The 28 name bytes as stored.
    pub closed spec fn raw_name(&self) -> Seq<u8> {
        self.name@
    }

    pub closed spec fn spec_inode_number(&self) -> u32 {
        self.inode_number
    }

    /// The name, as `name` returns it.
    pub open spec fn spec_name(&self) -> Seq<u8> {
        before_nul(self.raw_name())
    }

    /// An entry with an empty name and inode 0.
    pub fn empty() -> (r: Self)
        ensures
            r.raw_name() == Seq::new((NAME_LENGTH_LIMIT + 1) as nat, |k: int| 0u8),
            r.spec_inode_number() == 0,
    {
        let mut name: Vec<u8> = Vec::new();
        let mut k: usize = 0;
        while k < NAME_LENGTH_LIMIT + 1
            invariant
                k <= NAME_LENGTH_LIMIT + 1,
                name@ == Seq::new(k as nat, |j: int| 0u8),
            decreases NAME_LENGTH_LIMIT + 1 - k,
        {
            name.push(0u8);
            k += 1;
        }
        DirEntry { name, inode_number: 0 }
    }

    /// An entry for `name`, padded with NUL bytes, pointing at inode `inode_number`.
    pub fn new(name: &str, inode_number: u32) -> (r: Self)
        requires
            name.spec_bytes().len() <= NAME_LENGTH_LIMIT,
        ensures
            r.raw_name().len() == NAME_LENGTH_LIMIT + 1,
            r.raw_name().subrange(0, name.spec_bytes().len() as int) == name.spec_bytes(),
            forall|k: int| name.spec_bytes().len() <= k < NAME_LENGTH_LIMIT + 1 ==> #[trigger] r.raw_name()[k] == 0u8,
            r.spec_inode_number() == inode_number,
    {
        let src = name.as_bytes();
        let n = src.len();
        let mut bytes: Vec<u8> = Vec::new();
        let mut k: usize = 0;
        while k < NAME_LENGTH_LIMIT + 1
            invariant
                k <= NAME_LENGTH_LIMIT + 1,
                n == src@.len(),
                n <= NAME_LENGTH_LIMIT,
                bytes@.len() == k,
                forall|j: int| 0 <= j < k && j < n ==> #[trigger] bytes@[j] == src@[j],
                forall|j: int| n <= j < k ==> #[trigger] bytes@[j] == 0u8,
            decreases NAME_LENGTH_LIMIT + 1 - k,
        {
            if k < n {
                bytes.push(src[k]);
            } else {
                bytes.push(0u8);
            }
            k += 1;
        }
        assert(bytes@.subrange(0, n as int) =~= name.spec_bytes());
        DirEntry { name: bytes, inode_number }
    }

    /// The name: the stored bytes before the first NUL.
    pub fn name(&self) -> (r: Vec<u8>)
        ensures
            r@ == self.spec_name(),
    {
        let mut r: Vec<u8> = Vec::new();
        let mut k: usize = 0;
        proof {
            assert(self.name@.subrange(0, self.name@.len() as int) =~= self.name@);
            assert(r@ + before_nul(self.name@) =~= before_nul(self.name@));
        }
        while k < self.name.len() && self.name[k] != 0
            invariant
                k <= self.name@.len(),
                r@ == self.name@.subrange(0, k as int),
                before_nul(self.name@) == r@ + before_nul(self.name@.subrange(k as int, self.name@.len() as int)),
            decreases self.name@.len() - k,
        {
            let ghost rest = self.name@.subrange(k as int, self.name@.len() as int);
            assert(rest.drop_first() =~= self.name@.subrange(k + 1, self.name@.len() as int));
            r.push(self.name[k]);
            k += 1;
            assert(seq![rest[0]] + before_nul(rest.drop_first()) == before_nul(rest));
            assert(r@ + before_nul(self.name@.subrange(k as int, self.name@.len() as int)) =~= (r@.drop_last() + seq![rest[0]]) + before_nul(rest.drop_first()));
        }
        proof {
            let rest = self.name@.subrange(k as int, self.name@.len() as int);
            assert(before_nul(rest) =~= Seq::<u8>::empty());
            assert(r@ + Seq::<u8>::empty() =~= r@);
        }
        r
    }

    /// The inode the entry points at.
    pub fn inode_number(&self) -> (r: u32)
        ensures
            r == self.spec_inode_number(),
    {
        self.inode_number
    }
}

/// Bytes written into a file, inside its size, read back the same: after `write_at` of
/// `data` at `offset` has left the disk as `disk2`, `read_at` of `data.len()` bytes at
/// `offset` on `disk2` hands back `data`.
pub proof fn lemma_write_then_read(inode: DiskInode, disk2: Seq<Seq<u8>>, offset: int, data: Seq<u8>, read: Seq<u8>)
    requires
        0 <= offset,
        offset + data.len() <= inode.size,
        forall|p: int| offset <= p < offset + data.len() ==> #[trigger] inode.content(disk2)[p] == data[p - offset],
        read.len() == data.len(),
        forall|q: int| 0 <= q < data.len() ==> #[trigger] read[q] == inode.content(disk2)[offset + q],
    ensures
        read == data,
{
    assert forall|q: int| 0 <= q < data.len() implies #[trigger] read[q] == data[q] by {
        assert(inode.content(disk2)[offset + q] == data[q]);
    }
    assert(read =~= data);
}

} // verus!

verus! {

/// Name of entry `i` of a directory whose bytes are `content`.
pub open spec fn dirent_name(content: Seq<u8>, i: int) -> Seq<u8> {
    before_nul(content.subrange(DIRENT_SZ * i, DIRENT_SZ * i + NAME_LENGTH_LIMIT + 1))
}

/// Inode number of entry `i` of a directory whose bytes are `content`.
pub open spec fn dirent_inode(content: Seq<u8>, i: int) -> u32 {
    le_u32(content, DIRENT_SZ * i + NAME_LENGTH_LIMIT + 1)
}

/// The name stored in the first 28 bytes of `buf`.
fn name_of_raw(buf: &[u8]) -> (r: Vec<u8>)
    requires
        buf@.len() >= NAME_LENGTH_LIMIT + 1,
    ensures
        r@ == before_nul(buf@.subrange(0, NAME_LENGTH_LIMIT + 1)),
{
    let ghost s = buf@.subrange(0, NAME_LENGTH_LIMIT + 1);
    let mut r: Vec<u8> = Vec::new();
    let mut k: usize = 0;
    proof {
        assert(s.subrange(0, s.len() as int) =~= s);
        assert(r@ + before_nul(s) =~= before_nul(s));
    }
    while k < NAME_LENGTH_LIMIT + 1 && buf[k] != 0
        invariant
            k <= NAME_LENGTH_LIMIT + 1,
            buf@.len() >= NAME_LENGTH_LIMIT + 1,
            s == buf@.subrange(0, NAME_LENGTH_LIMIT + 1),
            r@ == s.subrange(0, k as int),
            before_nul(s) == r@ + before_nul(s.subrange(k as int, s.len() as int)),
        decreases NAME_LENGTH_LIMIT + 1 - k,
    {
        let ghost rest = s.subrange(k as int, s.len() as int);
        assert(rest.drop_first() =~= s.subrange(k + 1, s.len() as int));
        r.push(buf[k]);
        k += 1;
        assert(seq![rest[0]] + before_nul(rest.drop_first()) == before_nul(rest));
        assert(r@ + before_nul(s.subrange(k as int, s.len() as int)) =~= (r@.drop_last() + seq![rest[0]]) + before_nul(rest.drop_first()));
    }
    proof {
        let rest = s.subrange(k as int, s.len() as int);
        assert(before_nul(rest) =~= Seq::<u8>::empty());
        assert(r@ + Seq::<u8>::empty() =~= r@);
    }
    r
}

fn bytes_eq(a: &Vec<u8>, b: &[u8]) -> (r: bool)
    ensures
        r == (a@ == b@),
{
    if a.len() != b.len() {
        return false;
    }
    let mut k: usize = 0;
    while k < a.len()
        invariant
            a@.len() == b@.len(),
            k <= a@.len(),
            forall|j: int| 0 <= j < k ==> a@[j] == b@[j],
        decreases a@.len() - k,
    {
        if a[k] != b[k] {
            return false;
        }
        k += 1;
    }
    assert(a@ =~= b@);
    true
}

impl DiskInode {
    /// Number of entries of a directory of this size.
    pub open spec fn dirent_count(&self) -> int {
        (self.size as int) / (DIRENT_SZ as int)
    }

    /// The inode number of the first entry named `name`; `None` when no entry has that name.
    pub fn find_inode_id<D: BlockDevice>(&self, name: &[u8], cache: &mut BlockCacheManager, block_device: &mut D) -> (r: Option<u32>)
        requires
            old(cache).inv(old(block_device)),
            self.index_ok(old(cache).disk(old(block_device))),
        ensures
            final(cache).inv(final(block_device)),
            final(block_device).blocks().len() == old(block_device).blocks().len(),
            final(cache).disk(final(block_device)) == old(cache).disk(old(block_device)),
            ({
                let content = self.content(old(cache).disk(old(block_device)));
                match r {
                    Some(n) => exists|i: int| {
                        &&& 0 <= i < self.dirent_count()
                        &&& #[trigger] dirent_name(content, i) == name@
                        &&& dirent_inode(content, i) == n
                        &&& forall|j: int| 0 <= j < i ==> #[trigger] dirent_name(content, j) != name@
                    },
                    None => forall|i: int| 0 <= i < self.dirent_count() ==> #[trigger] dirent_name(content, i) != name@,
                }
            }),
    {
        let ghost disk = cache.disk(block_device);
        let ghost content = self.content(disk);
        let count = (self.size as usize) / DIRENT_SZ;
        let mut buf: Vec<u8> = Vec::new();
        let mut k: usize = 0;
        while k < DIRENT_SZ
            invariant
                k <= DIRENT_SZ,
                buf@.len() == k,
            decreases DIRENT_SZ - k,
        {
            buf.push(0u8);
            k += 1;
        }
        let mut i: usize = 0;
        while i < count
            invariant
                cache.inv(block_device),
                block_device.blocks().len() == disk.len(),
                cache.disk(block_device) == disk,
                disk == old(cache).disk(old(block_device)),
                content == self.content(disk),
                self.index_ok(disk),
                count == self.dirent_count(),
                buf@.len() == DIRENT_SZ,
                i <= count,
                forall|j: int| 0 <= j < i ==> #[trigger] dirent_name(content, j) != name@,
            decreases count - i,
        {
            proof {
                assert(DIRENT_SZ * i + DIRENT_SZ <= self.size) by (nonlinear_arith)
                    requires i < count, count == self.size / 32, DIRENT_SZ == 32;
            }
            let n = self.read_at(DIRENT_SZ * i, buf.as_mut_slice(), cache, block_device);
            let ghost b = buf@;
            proof {
                assert(n == DIRENT_SZ);
                assert(b.subrange(0, NAME_LENGTH_LIMIT + 1) =~= content.subrange(DIRENT_SZ * i, DIRENT_SZ * i + NAME_LENGTH_LIMIT + 1));
            }
            let entry_name = name_of_raw(buf.as_slice());
            if bytes_eq(&entry_name, name) {
                let inode = crate::bytes::read_le_u32(buf.as_slice(), NAME_LENGTH_LIMIT + 1);
                proof {
                    assert(b[28] == content[DIRENT_SZ * i + 28]);
                    assert(b[29] == content[DIRENT_SZ * i + 29]);
                    assert(b[30] == content[DIRENT_SZ * i + 30]);
                    assert(b[31] == content[DIRENT_SZ * i + 31]);
                    assert(dirent_name(content, i as int) == name@);
                }
                return Some(inode);
            }
            i += 1;
        }
        None
    }

    /// The names of the directory's entries, in order.
    pub fn ls<D: BlockDevice>(&self, cache: &mut BlockCacheManager, block_device: &mut D) -> (r: Vec<Vec<u8>>)
        requires
            old(cache).inv(old(block_device)),
            self.index_ok(old(cache).disk(old(block_device))),
        ensures
            final(cache).inv(final(block_device)),
            final(block_device).blocks().len() == old(block_device).blocks().len(),
            final(cache).disk(final(block_device)) == old(cache).disk(old(block_device)),
            r@.len() == self.dirent_count(),
            forall|i: int| 0 <= i < r@.len() ==> (#[trigger] r@[i])@ == dirent_name(self.content(old(cache).disk(old(block_device))), i),
    {
        let ghost disk = cache.disk(block_device);
        let ghost content = self.content(disk);
        let count = (self.size as usize) / DIRENT_SZ;
        let mut buf: Vec<u8> = Vec::new();
        let mut k: usize = 0;
        while k < DIRENT_SZ
            invariant
                k <= DIRENT_SZ,
                buf@.len() == k,
            decreases DIRENT_SZ - k,
        {
            buf.push(0u8);
            k += 1;
        }
        let mut v: Vec<Vec<u8>> = Vec::new();
        let mut i: usize = 0;
        while i < count
            invariant
                cache.inv(block_device),
                block_device.blocks().len() == disk.len(),
                cache.disk(block_device) == disk,
                disk == old(cache).disk(old(block_device)),
                content == self.content(disk),
                self.index_ok(disk),
                count == self.dirent_count(),
                buf@.len() == DIRENT_SZ,
                i <= count,
                v@.len() == i,
                forall|j: int| 0 <= j < i ==> (#[trigger] v@[j])@ == dirent_name(content, j),
            decreases count - i,
        {
            proof {
                assert(DIRENT_SZ * i + DIRENT_SZ <= self.size) by (nonlinear_arith)
                    requires i < count, count == self.size / 32, DIRENT_SZ == 32;
            }
            let n = self.read_at(DIRENT_SZ * i, buf.as_mut_slice(), cache, block_device);
            proof {
                assert(buf@.subrange(0, NAME_LENGTH_LIMIT + 1) =~= content.subrange(DIRENT_SZ * i, DIRENT_SZ * i + NAME_LENGTH_LIMIT + 1));
            }
            let entry_name = name_of_raw(buf.as_slice());
            v.push(entry_name);
            i += 1;
        }
        v
    }
}

impl DirEntry {
    /// The 32 bytes of the entry as a directory stores them: the name bytes, then the inode
    /// number, little-endian.
    pub fn as_bytes(&self) -> (r: Vec<u8>)
        requires
            self.raw_name().len() == NAME_LENGTH_LIMIT + 1,
        ensures
            r@.len() == DIRENT_SZ,
            r@.subrange(0, NAME_LENGTH_LIMIT + 1) == self.raw_name(),
            dirent_inode(r@, 0) == self.spec_inode_number(),
            dirent_name(r@, 0) == self.spec_name(),
    {
        let mut v: Vec<u8> = Vec::new();
        let mut k: usize = 0;
        while k < NAME_LENGTH_LIMIT + 1
            invariant
                k <= NAME_LENGTH_LIMIT + 1,
                self.name@.len() == NAME_LENGTH_LIMIT + 1,
                v@ == self.name@.subrange(0, k as int),
            decreases NAME_LENGTH_LIMIT + 1 - k,
        {
            v.push(self.name[k]);
            k += 1;
        }
        let n = self.inode_number;
        v.push((n & 0xff) as u8);
        v.push(((n >> 8u32) & 0xff) as u8);
        v.push(((n >> 16u32) & 0xff) as u8);
        v.push(((n >> 24u32) & 0xff) as u8);
        proof {
            crate::bytes::lemma_u32_le_round_trip(n);
            assert(v@.subrange(0, NAME_LENGTH_LIMIT + 1) =~= self.name@);
            assert(v@.subrange(DIRENT_SZ * 0, DIRENT_SZ * 0 + NAME_LENGTH_LIMIT + 1) =~= self.name@);
        }
        v
    }
}

impl DiskInode {
    /// All the bytes of the file, read a block at a time.
    pub fn read_all<D: BlockDevice>(&self, cache: &mut BlockCacheManager, block_device: &mut D) -> (r: Vec<u8>)
        requires
            old(cache).inv(old(block_device)),
            self.index_ok(old(cache).disk(old(block_device))),
        ensures
            final(cache).inv(final(block_device)),
            final(block_device).blocks().len() == old(block_device).blocks().len(),
            final(cache).disk(final(block_device)) == old(cache).disk(old(block_device)),
            r@ == self.content(old(cache).disk(old(block_device))),
    {
        let ghost disk = cache.disk(block_device);
        let ghost content = self.content(disk);
        let mut buffer: Vec<u8> = crate::block_dev::zeroed_block();
        let mut v: Vec<u8> = Vec::new();
        let mut offset: usize = 0;
        loop
            invariant
                cache.inv(block_device),
                block_device.blocks().len() == disk.len(),
                cache.disk(block_device) == disk,
                disk == old(cache).disk(old(block_device)),
                content == self.content(disk),
                self.index_ok(disk),
                buffer@.len() == BLOCK_SZ,
                offset <= self.size,
                v@ == content.subrange(0, offset as int),
            ensures
                cache.inv(block_device),
                block_device.blocks().len() == disk.len(),
                cache.disk(block_device) == disk,
                v@ == content,
            decreases self.size - offset,
        {
            let len = self.read_at(offset, buffer.as_mut_slice(), cache, block_device);
            if len == 0 {
                assert(v@ =~= content);
                break;
            }
            let ghost v0 = v@;
            let mut k: usize = 0;
            while k < len
                invariant
                    k <= len,
                    len <= BLOCK_SZ,
                    buffer@.len() == BLOCK_SZ,
                    offset + len <= self.size,
                    forall|q: int| 0 <= q < len ==> buffer@[q] == content[offset + q],
                    v@ == content.subrange(0, offset + k),
                    content.len() == self.size,
                decreases len - k,
            {
                v.push(buffer[k]);
                k += 1;
                assert(v@ =~= content.subrange(0, offset + k));
            }
            offset += len;
        }
        v
    }
}

/// Which block of a file claims position `p` of the list of blocks that `d` data blocks take.
pub open spec fn position_known(p: int, d: int) -> bool {
    ||| exists|k: int| 0 <= k < d && p == #[trigger] blocks_for(k + 1) - 1
    ||| d > INODE_DIRECT_COUNT && p == INODE_DIRECT_COUNT
    ||| d > INDIRECT1_BOUND && p == INDIRECT1_BOUND + 1
    ||| exists|g: int| 0 <= g < groups_for(d) && p == #[trigger] blocks_for(INDIRECT1_BOUND + g * INODE_INDIRECT1_COUNT + 1) - 2
}

/// Every position of the list is a data block, the single- or double-indirect block, or a
/// first-level index block.
proof fn lemma_positions(p: int, d: int)
    requires
        0 <= d,
        0 <= p < blocks_for(d),
    ensures
        position_known(p, d),
    decreases d,
{
    if d > 0 {
        let e = d - 1;
        lemma_blocks_for_step(e);
        if p < blocks_for(e) {
            lemma_positions(p, e);
            if exists|k: int| 0 <= k < e && p == #[trigger] blocks_for(k + 1) - 1 {
                let k = choose|k: int| 0 <= k < e && p == #[trigger] blocks_for(k + 1) - 1;
                assert(0 <= k < d);
            } else if exists|g: int| 0 <= g < groups_for(e) && p == #[trigger] blocks_for(INDIRECT1_BOUND + g * INODE_INDIRECT1_COUNT + 1) - 2 {
                let g = choose|g: int| 0 <= g < groups_for(e) && p == #[trigger] blocks_for(INDIRECT1_BOUND + g * INODE_INDIRECT1_COUNT + 1) - 2;
                if e >= INDIRECT1_BOUND {
                    lemma_groups_step(e);
                }
                assert(0 <= g < groups_for(d));
            }
        } else if p == blocks_for(d) - 1 {
            assert(p == blocks_for(e + 1) - 1);
        } else if e == INODE_DIRECT_COUNT {
        } else if e == INDIRECT1_BOUND && p == blocks_for(e) {
        } else {
            lemma_groups_step(e);
            let g = (e - INDIRECT1_BOUND) / (INODE_INDIRECT1_COUNT as int);
            vstd::arithmetic::div_mod::lemma_fundamental_div_mod(e - INDIRECT1_BOUND, 128);
            assert(e == INDIRECT1_BOUND + g * INODE_INDIRECT1_COUNT);
            assert(0 <= g < groups_for(d));
        }
    }
}

/// Growing an empty file and then clearing it gives back exactly the blocks supplied, in the
/// order supplied: `clear_size` lists what `increase_size` claimed, where it claimed it.
pub proof fn lemma_grow_then_clear(grown: DiskInode, disk: Seq<Seq<u8>>, empty: DiskInode, disk0: Seq<Seq<u8>>, new_blocks: Seq<u32>, cleared: Seq<u32>)
    requires
        empty.size == 0,
        new_blocks.len() == spec_total_blocks(grown.size as int),
        forall|i: int| 0 <= i < grown.spec_data_count()
            ==> #[trigger] grown.block_id_of(disk, i) == new_blocks[blocks_for(i + 1) - 1 - blocks_for(empty.spec_data_count())],
        grown.claims_ok(empty, disk0, disk, new_blocks, grown.spec_data_count()),
        grown.lists_blocks(disk, cleared, grown.spec_data_count()),
    ensures
        cleared == new_blocks,
{
    let d = grown.spec_data_count();
    assert(empty.spec_data_count() == 0);
    assert(groups_for(0) == 0);
    assert(blocks_for(0) == 0);
    vstd::arithmetic::div_mod::lemma_div_pos_is_pos(grown.size + 511, 512);
    assert forall|p: int| 0 <= p < cleared.len() implies cleared[p] == new_blocks[p] by {
        lemma_positions(p, d);
        if exists|k: int| 0 <= k < d && p == #[trigger] blocks_for(k + 1) - 1 {
            let k = choose|k: int| 0 <= k < d && p == #[trigger] blocks_for(k + 1) - 1;
            assert(cleared[blocks_for(k + 1) - 1] == grown.block_id_of(disk, k));
        } else if d > INODE_DIRECT_COUNT && p == INODE_DIRECT_COUNT {
        } else if d > INDIRECT1_BOUND && p == INDIRECT1_BOUND + 1 {
            lemma_blocks_for_step(INDIRECT1_BOUND as int);
        } else {
            let g = choose|g: int| 0 <= g < groups_for(d) && p == #[trigger] blocks_for(INDIRECT1_BOUND + g * INODE_INDIRECT1_COUNT + 1) - 2;
            assert(cleared[blocks_for(INDIRECT1_BOUND + g * INODE_INDIRECT1_COUNT + 1) - 2] == grown.group_block(disk, g));
        }
    }
    assert(cleared =~= new_blocks);
}

/// Where data block `i` of a file grown from empty sits in the list of blocks it was given:
/// at `i` among the direct blocks, one later past the single-indirect block, and past the
/// double-indirect block and the first-level index blocks before it further on.
pub proof fn lemma_claim_position(i: int)
    requires
        0 <= i,
    ensures
        blocks_for(i + 1) - 1 == if i < INODE_DIRECT_COUNT {
            i
        } else if i < INDIRECT1_BOUND {
            i + 1
        } else {
            i + 3 + (i - INDIRECT1_BOUND) / (INODE_INDIRECT1_COUNT as int)
        },
{
    if i >= INDIRECT1_BOUND {
        let last = i - INDIRECT1_BOUND;
        vstd::arithmetic::div_mod::lemma_fundamental_div_mod(last, 128);
        vstd::arithmetic::div_mod::lemma_mod_bound(last, 128);
        vstd::arithmetic::div_mod::lemma_fundamental_div_mod_converse(last + 128, 128, last / 128 + 1, last % 128);
    }
}

} // verus!
