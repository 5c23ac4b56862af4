use vstd::prelude::*;
use crate::config::BLOCK_SZ;

verus! {

/// Every block of a device image holds exactly one block's worth of bytes.
pub open spec fn blocks_wf(blocks: Seq<Seq<u8>>) -> bool {
    forall|i: int| 0 <= i < blocks.len() ==> #[trigger] blocks[i].len() == BLOCK_SZ
}

/// A device that stores fixed-size blocks, read and written whole.
pub trait BlockDevice {
    /// What the device holds, block by block.
    spec fn blocks(&self) -> Seq<Seq<u8>>;

    /// Number of blocks on the device.
    fn num_blocks(&self) -> (r: usize)
        ensures
            r == self.blocks().len(),
    ;

    /// Copies block `block_id` into `buf`.
    fn read_block(&self, block_id: usize, buf: &mut [u8])
        requires
            blocks_wf(self.blocks()),
            block_id < self.blocks().len(),
            old(buf)@.len() == BLOCK_SZ,
        ensures
            final(buf)@ == self.blocks()[block_id as int],
    ;

    /// Stores `buf` as block `block_id`.
    fn write_block(&mut self, block_id: usize, buf: &[u8])
        requires
            blocks_wf(old(self).blocks()),
            block_id < old(self).blocks().len(),
            buf@.len() == BLOCK_SZ,
        ensures
            final(self).blocks() == old(self).blocks().update(block_id as int, buf@),
    ;
}

/// A block device kept in memory.
pub struct RamDisk {
    blocks: Vec<Vec<u8>>,
}

impl RamDisk {
    /// A disk of `nblocks` zeroed blocks.
    pub fn new(nblocks: usize) -> (r: Self)
        ensures
            r.blocks().len() == nblocks,
            blocks_wf(r.blocks()),
            forall|i: int, k: int|
                0 <= i < nblocks && 0 <= k < BLOCK_SZ ==> #[trigger] r.blocks()[i][k] == 0u8,
    {
        let mut blocks: Vec<Vec<u8>> = Vec::new();
        let mut i: usize = 0;
        while i < nblocks
            invariant
                i <= nblocks,
                blocks@.len() == i,
                forall|j: int| 0 <= j < i ==> (#[trigger] blocks@[j])@ == Seq::new(BLOCK_SZ as nat, |k: int| 0u8),
            decreases nblocks - i,
        {
            blocks.push(zeroed_block());
            i += 1;
        }
        RamDisk { blocks }
    }

}

/// A block of zero bytes.
pub fn zeroed_block() -> (r: Vec<u8>)
    ensures
        r@ == Seq::new(BLOCK_SZ as nat, |k: int| 0u8),
{
    let mut v: Vec<u8> = Vec::new();
    let mut k: usize = 0;
    while k < BLOCK_SZ
        invariant
            k <= BLOCK_SZ,
            v@ == Seq::new(k as nat, |j: int| 0u8),
        decreases BLOCK_SZ - k,
    {
        v.push(0u8);
        k += 1;
    }
    v
}

impl BlockDevice for RamDisk {
    closed spec fn blocks(&self) -> Seq<Seq<u8>> {
        self.blocks@.map_values(|b: Vec<u8>| b@)
    }

    fn num_blocks(&self) -> (r: usize) {
        self.blocks.len()
    }

    fn read_block(&self, block_id: usize, buf: &mut [u8]) {
        let src = &self.blocks[block_id];
        let mut k: usize = 0;
        while k < BLOCK_SZ
            invariant
                k <= BLOCK_SZ,
                buf@.len() == BLOCK_SZ,
                src@ == self.blocks()[block_id as int],
                src@.len() == BLOCK_SZ,
                forall|j: int| 0 <= j < k ==> buf@[j] == src@[j],
            decreases BLOCK_SZ - k,
        {
            buf[k] = src[k];
            k += 1;
        }
        assert(buf@ =~= src@);
    }

    fn write_block(&mut self, block_id: usize, buf: &[u8]) {
        let mut v: Vec<u8> = Vec::new();
        let mut k: usize = 0;
        while k < BLOCK_SZ
            invariant
                k <= BLOCK_SZ,
                buf@.len() == BLOCK_SZ,
                v@ == buf@.subrange(0, k as int),
            decreases BLOCK_SZ - k,
        {
            v.push(buf[k]);
            k += 1;
        }
        assert(v@ =~= buf@);
        self.blocks.set(block_id, v);
        assert(self.blocks() =~= old(self).blocks().update(block_id as int, buf@));
    }
}

} // verus!
