use vstd::prelude::*;
use std::collections::VecDeque;
use crate::block_dev::{blocks_wf, zeroed_block, BlockDevice};
use crate::bytes::{le_u32, set_u32, lemma_set_u32, read_le_u32};
use crate::config::BLOCK_SZ;

verus! {

/// Most blocks held in memory at once.
pub const BLOCK_CACHE_SIZE: usize = 16;

/// One block held in memory, with a flag telling whether it differs from the device.
pub struct BlockCache {
    pub cache: Vec<u8>,
    pub block_id: usize,
    pub modified: bool,
}

impl BlockCache {
    /// Reads block `block_id` from the device into a clean slot.
    pub fn new<D: BlockDevice>(block_id: usize, block_device: &D) -> (r: Self)
        requires
            blocks_wf(block_device.blocks()),
            block_id < block_device.blocks().len(),
        ensures
            r.block_id == block_id,
            r.cache@ == block_device.blocks()[block_id as int],
            !r.modified,
    {
        let mut cache = zeroed_block();
        block_device.read_block(block_id, cache.as_mut_slice());
        BlockCache { cache, block_id, modified: false }
    }

    /// Writes the block back to the device if it was modified.
    pub fn sync<D: BlockDevice>(&mut self, block_device: &mut D)
        requires
            blocks_wf(old(block_device).blocks()),
            old(self).block_id < old(block_device).blocks().len(),
            old(self).cache@.len() == BLOCK_SZ,
        ensures
            final(self).block_id == old(self).block_id,
            final(self).cache@ == old(self).cache@,
            !final(self).modified,
            final(block_device).blocks() == if old(self).modified {
                old(block_device).blocks().update(old(self).block_id as int, old(self).cache@)
            } else {
                old(block_device).blocks()
            },
    {
        if self.modified {
            self.modified = false;
            block_device.write_block(self.block_id, self.cache.as_slice());
        }
    }
}

/// The blocks held in memory, oldest first.
pub struct BlockCacheManager {
    queue: VecDeque<BlockCache>,
}

pub open spec fn slot_ok(s: BlockCache, dev: Seq<Seq<u8>>) -> bool {
    &&& s.cache@.len() == BLOCK_SZ
    &&& s.block_id < dev.len()
    &&& !s.modified ==> s.cache@ == dev[s.block_id as int]
}

impl BlockCacheManager {
    pub closed spec fn wf(&self, dev: Seq<Seq<u8>>) -> bool {
        &&& self.queue@.len() <= BLOCK_CACHE_SIZE
        &&& forall|j: int| 0 <= j < self.queue@.len() ==> slot_ok(#[trigger] self.queue@[j], dev)
        &&& forall|j: int, k: int|
            #![trigger self.queue@[j].block_id, self.queue@[k].block_id]
            0 <= j < self.queue@.len() && 0 <= k < self.queue@.len() && j != k
                ==> self.queue@[j].block_id != self.queue@[k].block_id
    }

    /// Whether block `id` is held in memory.
    pub closed spec fn resident(&self, id: int) -> bool {
        exists|j: int| 0 <= j < self.queue@.len() && #[trigger] self.queue@[j].block_id == id
    }

    pub closed spec fn block_at(&self, dev: Seq<Seq<u8>>, id: int) -> Seq<u8> {
        if self.resident(id) {
            self.queue@[choose|j: int|
                0 <= j < self.queue@.len() && #[trigger] self.queue@[j].block_id == id].cache@
        } else {
            dev[id]
        }
    }

    /// The disk as the file system sees it: the device, with every block held in memory
    /// taken from memory.
    pub open spec fn view_disk(&self, dev: Seq<Seq<u8>>) -> Seq<Seq<u8>> {
        Seq::new(dev.len(), |i: int| self.block_at(dev, i))
    }

    pub open spec fn inv<D: BlockDevice>(&self, block_device: &D) -> bool {
        &&& self.wf(block_device.blocks())
        &&& blocks_wf(block_device.blocks())
    }

    pub open spec fn disk<D: BlockDevice>(&self, block_device: &D) -> Seq<Seq<u8>> {
        self.view_disk(block_device.blocks())
    }

    /// Number of blocks held in memory.
    pub closed spec fn len(&self) -> nat {
        self.queue@.len()
    }

    /// The block held in memory at position `j`, oldest first.
    pub closed spec fn slot_id(&self, j: int) -> int {
        self.queue@[j].block_id as int
    }

    /// Whether the slot at position `j` differs from the device.
    pub closed spec fn slot_modified(&self, j: int) -> bool {
        self.queue@[j].modified
    }

    /// Slot `j` of `self` and slot `k` of `other` hold the same block, bytes and flag.
    pub open spec fn same_slot(&self, j: int, other: &Self, k: int) -> bool {
        &&& self.slot_id(j) == other.slot_id(k)
        &&& self.slot_data(j) == other.slot_data(k)
        &&& self.slot_modified(j) == other.slot_modified(k)
    }

    /// What the slot at position `j` holds.
    pub closed spec fn slot_data(&self, j: int) -> Seq<u8> {
        self.queue@[j].cache@
    }

    proof fn lemma_block_at(&self, dev: Seq<Seq<u8>>, j: int)
        requires
            self.wf(dev),
            0 <= j < self.queue@.len(),
        ensures
            self.resident(self.queue@[j].block_id as int),
            self.block_at(dev, self.queue@[j].block_id as int) == self.queue@[j].cache@,
    {
        let id = self.queue@[j].block_id as int;
        assert(self.queue@[j].block_id == id);
        let k = choose|k: int| 0 <= k < self.queue@.len() && #[trigger] self.queue@[k].block_id == id;
        if k != j {
            assert(self.queue@[j].block_id != self.queue@[k].block_id);
        }
    }

    /// The disk seen through the cache holds whole blocks.
    pub proof fn lemma_disk_wf(&self, dev: Seq<Seq<u8>>)
        requires
            self.wf(dev),
            blocks_wf(dev),
        ensures
            blocks_wf(self.view_disk(dev)),
            self.view_disk(dev).len() == dev.len(),
    {
        assert forall|i: int| 0 <= i < self.view_disk(dev).len() implies #[trigger] self.view_disk(dev)[i].len() == BLOCK_SZ by {
            if self.resident(i) {
                let k = choose|k: int| 0 <= k < self.queue@.len() && #[trigger] self.queue@[k].block_id == i;
                assert(slot_ok(self.queue@[k], dev));
            }
        }
    }

    /// The slot at `j` now holds `s`, a modified copy of the same block.
    proof fn lemma_replace_slot(old_m: &Self, new_m: &Self, dev: Seq<Seq<u8>>, j: int, s: BlockCache)
        requires
            old_m.wf(dev),
            0 <= j < old_m.queue@.len(),
            s.block_id == old_m.queue@[j].block_id,
            s.cache@.len() == BLOCK_SZ,
            s.modified,
            new_m.queue@ == old_m.queue@.update(j, s),
        ensures
            new_m.wf(dev),
            new_m.view_disk(dev) == old_m.view_disk(dev).update(s.block_id as int, s.cache@),
    {
        assert(slot_ok(old_m.queue@[j], dev));
        assert forall|a: int| 0 <= a < new_m.queue@.len() implies slot_ok(#[trigger] new_m.queue@[a], dev) by {
            if a != j {
                assert(slot_ok(old_m.queue@[a], dev));
            }
        }
        assert forall|a: int, b: int|
            #![trigger new_m.queue@[a].block_id, new_m.queue@[b].block_id]
            0 <= a < new_m.queue@.len() && 0 <= b < new_m.queue@.len() && a != b
                implies new_m.queue@[a].block_id != new_m.queue@[b].block_id by {
            assert(old_m.queue@[a].block_id != old_m.queue@[b].block_id);
        }
        new_m.lemma_block_at(dev, j);
        assert forall|i: int| 0 <= i < dev.len() && i != s.block_id implies new_m.block_at(dev, i) == old_m.block_at(dev, i) by {
            if old_m.resident(i) {
                let k = choose|k: int| 0 <= k < old_m.queue@.len() && #[trigger] old_m.queue@[k].block_id == i;
                old_m.lemma_block_at(dev, k);
                new_m.lemma_block_at(dev, k);
            } else if new_m.resident(i) {
                let k = choose|k: int| 0 <= k < new_m.queue@.len() && #[trigger] new_m.queue@[k].block_id == i;
                assert(old_m.queue@[k].block_id == i);
            }
        }
        assert(new_m.view_disk(dev) =~= old_m.view_disk(dev).update(s.block_id as int, s.cache@));
    }

    /// An empty cache.
    pub fn new() -> (r: Self)
        ensures
            r.len() == 0,
            forall|dev: Seq<Seq<u8>>| #[trigger] r.wf(dev),
            forall|dev: Seq<Seq<u8>>| #[trigger] r.view_disk(dev) == dev,
    {
        let r = BlockCacheManager { queue: VecDeque::new() };
        assert forall|dev: Seq<Seq<u8>>| #[trigger] r.view_disk(dev) == dev by {
            assert(r.view_disk(dev) =~= dev);
        }
        r
    }

    /// Position of the slot that holds block `block_id`, reading it from the device if it is
    /// not held yet. When all slots are taken, the oldest is written back if modified and
    /// dropped first: no one else holds a slot here, so the oldest is always free to go.
    pub fn get_block_cache<D: BlockDevice>(&mut self, block_id: usize, block_device: &mut D) -> (slot: usize)
        requires
            old(self).inv(old(block_device)),
            block_id < old(block_device).blocks().len(),
        ensures
            final(self).inv(final(block_device)),
            final(block_device).blocks().len() == old(block_device).blocks().len(),
            final(self).disk(final(block_device)) == old(self).disk(old(block_device)),
            slot < final(self).len(),
            final(self).slot_id(slot as int) == block_id,
            final(self).slot_data(slot as int) == final(self).disk(final(block_device))[block_id as int],
            // a hit changes nothing
            old(self).resident(block_id as int) ==> {
                &&& final(block_device).blocks() == old(block_device).blocks()
                &&& final(self).len() == old(self).len()
                &&& forall|j: int| 0 <= j < old(self).len() ==> #[trigger] final(self).same_slot(j, old(self), j)
            },
            // a miss appends a clean slot read from the device, first evicting the oldest slot
            // when all are taken, written back if it was modified
            !old(self).resident(block_id as int) ==> {
                &&& slot == final(self).len() - 1
                &&& !final(self).slot_modified(slot as int)
                &&& if old(self).len() < BLOCK_CACHE_SIZE {
                    &&& final(self).len() == old(self).len() + 1
                    &&& final(block_device).blocks() == old(block_device).blocks()
                    &&& forall|j: int| 0 <= j < old(self).len() ==> #[trigger] final(self).same_slot(j, old(self), j)
                } else {
                    &&& final(self).len() == old(self).len()
                    &&& final(block_device).blocks() == if old(self).slot_modified(0) {
                        old(block_device).blocks().update(old(self).slot_id(0), old(self).slot_data(0))
                    } else {
                        old(block_device).blocks()
                    }
                    &&& forall|j: int| 0 <= j < old(self).len() - 1 ==> #[trigger] final(self).same_slot(j, old(self), j + 1)
                }
            },
    {
        let ghost dev0 = block_device.blocks();
        let mut j: usize = 0;
        while j < self.queue.len()
            invariant
                j <= self.queue@.len(),
                self.wf(dev0),
                blocks_wf(dev0),
                *self == *old(self),
                block_device.blocks() == dev0,
                block_id < dev0.len(),
                forall|k: int| 0 <= k < j ==> #[trigger] self.queue@[k].block_id != block_id,
            decreases self.queue@.len() - j,
        {
            if self.queue[j].block_id == block_id {
                proof { self.lemma_block_at(dev0, j as int); }
                return j;
            }
            j += 1;
        }
        assert(!self.resident(block_id as int));
        if self.queue.len() == BLOCK_CACHE_SIZE {
            let ghost old_m = *self;
            let mut victim = self.queue.pop_front().unwrap();
            assert(slot_ok(old_m.queue@[0], dev0));
            victim.sync(block_device);
            let ghost dev1 = block_device.blocks();
            let ghost b = victim.block_id as int;
            proof {
                old_m.lemma_block_at(dev0, 0);
                assert(dev1[b] == victim.cache@);
                assert forall|a: int| 0 <= a < self.queue@.len() implies slot_ok(#[trigger] self.queue@[a], dev1) by {
                    assert(old_m.queue@[a + 1] == self.queue@[a]);
                    assert(slot_ok(old_m.queue@[a + 1], dev0));
                    assert(old_m.queue@[a + 1].block_id != old_m.queue@[0].block_id);
                }
                assert forall|a: int, c: int|
                    #![trigger self.queue@[a].block_id, self.queue@[c].block_id]
                    0 <= a < self.queue@.len() && 0 <= c < self.queue@.len() && a != c
                        implies self.queue@[a].block_id != self.queue@[c].block_id by {
                    assert(old_m.queue@[a + 1].block_id != old_m.queue@[c + 1].block_id);
                }
                assert forall|i: int| 0 <= i < dev0.len() implies self.block_at(dev1, i) == old_m.block_at(dev0, i) by {
                    if self.resident(i) {
                        let k = choose|k: int| 0 <= k < self.queue@.len() && #[trigger] self.queue@[k].block_id == i;
                        self.lemma_block_at(dev1, k);
                        assert(old_m.queue@[k + 1].block_id == i);
                        old_m.lemma_block_at(dev0, k + 1);
                    } else if i == b {
                    } else if old_m.resident(i) {
                        let k = choose|k: int| 0 <= k < old_m.queue@.len() && #[trigger] old_m.queue@[k].block_id == i;
                        assert(k != 0);
                        assert(self.queue@[k - 1].block_id == i);
                    }
                }
                assert(self.view_disk(dev1) =~= old_m.view_disk(dev0));
            }
        }
        let ghost m1 = *self;
        let ghost dev1 = block_device.blocks();
        proof {
            if m1.resident(block_id as int) {
                // the only block dropped was not `block_id`, which was not resident before
                let k = choose|k: int| 0 <= k < m1.queue@.len() && #[trigger] m1.queue@[k].block_id == block_id as int;
                assert(m1.block_at(dev1, block_id as int) == dev0[block_id as int]);
            }
        }
        let block_cache = BlockCache::new(block_id, block_device);
        self.queue.push_back(block_cache);
        let slot = self.queue.len() - 1;
        proof {
            assert forall|a: int| 0 <= a < self.queue@.len() implies slot_ok(#[trigger] self.queue@[a], dev1) by {
                if a < m1.queue@.len() {
                    assert(self.queue@[a] == m1.queue@[a]);
                }
            }
            assert forall|a: int, c: int|
                #![trigger self.queue@[a].block_id, self.queue@[c].block_id]
                0 <= a < self.queue@.len() && 0 <= c < self.queue@.len() && a != c
                    implies self.queue@[a].block_id != self.queue@[c].block_id by {
                if a < m1.queue@.len() && c < m1.queue@.len() {
                    assert(m1.queue@[a].block_id != m1.queue@[c].block_id);
                } else if a < m1.queue@.len() {
                    assert(m1.queue@[a].block_id != block_id);
                } else if c < m1.queue@.len() {
                    assert(m1.queue@[c].block_id != block_id);
                }
            }
            self.lemma_block_at(dev1, slot as int);
            assert forall|i: int| 0 <= i < dev1.len() implies self.block_at(dev1, i) == m1.block_at(dev1, i) by {
                if i == block_id {
                } else if m1.resident(i) {
                    let k = choose|k: int| 0 <= k < m1.queue@.len() && #[trigger] m1.queue@[k].block_id == i;
                    m1.lemma_block_at(dev1, k);
                    self.lemma_block_at(dev1, k);
                } else if self.resident(i) {
                    let k = choose|k: int| 0 <= k < self.queue@.len() && #[trigger] self.queue@[k].block_id == i;
                    assert(k < m1.queue@.len());
                    assert(m1.queue@[k].block_id == i);
                }
            }
            assert(self.view_disk(dev1) =~= m1.view_disk(dev1));
        }
        slot
    }

    /// Puts `s` back at position `slot`, from which the block it modifies was taken.
    fn put_back(&mut self, slot: usize, s: BlockCache, Ghost(old_m): Ghost<Self>, Ghost(dev): Ghost<Seq<Seq<u8>>>)
        requires
            old_m.wf(dev),
            slot < old_m.queue@.len(),
            old(self).queue@ == old_m.queue@.remove(slot as int),
            s.block_id == old_m.queue@[slot as int].block_id,
            s.cache@.len() == BLOCK_SZ,
            s.modified,
        ensures
            final(self).wf(dev),
            final(self).len() == old_m.len(),
            final(self).view_disk(dev) == old_m.view_disk(dev).update(s.block_id as int, s.cache@),
    {
        self.queue.insert(slot, s);
        proof {
            assert(self.queue@ =~= old_m.queue@.update(slot as int, s));
            Self::lemma_replace_slot(&old_m, self, dev, slot as int, s);
        }
    }

    /// Reads the little-endian `u32` at byte `offset` of block `block_id`.
    pub fn read_u32<D: BlockDevice>(&mut self, block_id: usize, offset: usize, block_device: &mut D) -> (r: u32)
        requires
            old(self).inv(old(block_device)),
            block_id < old(block_device).blocks().len(),
            offset + 4 <= BLOCK_SZ,
        ensures
            final(self).inv(final(block_device)),
            final(block_device).blocks().len() == old(block_device).blocks().len(),
            final(self).disk(final(block_device)) == old(self).disk(old(block_device)),
            r == le_u32(old(self).disk(old(block_device))[block_id as int], offset as int),
    {
        let slot = self.get_block_cache(block_id, block_device);
        proof { assert(slot_ok(self.queue@[slot as int], block_device.blocks())); }
        read_le_u32(self.queue[slot].cache.as_slice(), offset)
    }

    /// Stores `value` as a little-endian `u32` at byte `offset` of block `block_id`.
    pub fn write_u32<D: BlockDevice>(&mut self, block_id: usize, offset: usize, value: u32, block_device: &mut D)
        requires
            old(self).inv(old(block_device)),
            block_id < old(block_device).blocks().len(),
            offset + 4 <= BLOCK_SZ,
        ensures
            final(self).inv(final(block_device)),
            final(block_device).blocks().len() == old(block_device).blocks().len(),
            final(self).disk(final(block_device)) == old(self).disk(old(block_device)).update(
                block_id as int,
                set_u32(old(self).disk(old(block_device))[block_id as int], offset as int, value),
            ),
    {
        let slot = self.get_block_cache(block_id, block_device);
        let ghost old_m = *self;
        let ghost dev = block_device.blocks();
        proof { assert(slot_ok(self.queue@[slot as int], dev)); }
        let mut s = self.queue.remove(slot).unwrap();
        s.cache.set(offset, (value & 0xff) as u8);
        s.cache.set(offset + 1, ((value >> 8u32) & 0xff) as u8);
        s.cache.set(offset + 2, ((value >> 16u32) & 0xff) as u8);
        s.cache.set(offset + 3, ((value >> 24u32) & 0xff) as u8);
        s.modified = true;
        self.put_back(slot, s, Ghost(old_m), Ghost(dev));
    }

    /// Reads byte `offset` of block `block_id`.
    pub fn read_byte<D: BlockDevice>(&mut self, block_id: usize, offset: usize, block_device: &mut D) -> (r: u8)
        requires
            old(self).inv(old(block_device)),
            block_id < old(block_device).blocks().len(),
            offset < BLOCK_SZ,
        ensures
            final(self).inv(final(block_device)),
            final(block_device).blocks().len() == old(block_device).blocks().len(),
            final(self).disk(final(block_device)) == old(self).disk(old(block_device)),
            r == old(self).disk(old(block_device))[block_id as int][offset as int],
    {
        let slot = self.get_block_cache(block_id, block_device);
        proof { assert(slot_ok(self.queue@[slot as int], block_device.blocks())); }
        self.queue[slot].cache[offset]
    }

    /// Stores `value` at byte `offset` of block `block_id`.
    pub fn write_byte<D: BlockDevice>(&mut self, block_id: usize, offset: usize, value: u8, block_device: &mut D)
        requires
            old(self).inv(old(block_device)),
            block_id < old(block_device).blocks().len(),
            offset < BLOCK_SZ,
        ensures
            final(self).inv(final(block_device)),
            final(block_device).blocks().len() == old(block_device).blocks().len(),
            final(self).disk(final(block_device)) == old(self).disk(old(block_device)).update(
                block_id as int,
                old(self).disk(old(block_device))[block_id as int].update(offset as int, value),
            ),
    {
        let slot = self.get_block_cache(block_id, block_device);
        let ghost old_m = *self;
        let ghost dev = block_device.blocks();
        proof { assert(slot_ok(self.queue@[slot as int], dev)); }
        let mut s = self.queue.remove(slot).unwrap();
        s.cache.set(offset, value);
        s.modified = true;
        self.put_back(slot, s, Ghost(old_m), Ghost(dev));
    }

    /// Copies `len` bytes of block `block_id` from byte `offset` on into `buf` from `buf_offset` on.
    pub fn read_bytes<D: BlockDevice>(
        &mut self,
        block_id: usize,
        offset: usize,
        buf: &mut [u8],
        buf_offset: usize,
        len: usize,
        block_device: &mut D,
    )
        requires
            old(self).inv(old(block_device)),
            block_id < old(block_device).blocks().len(),
            offset + len <= BLOCK_SZ,
            buf_offset + len <= old(buf)@.len(),
        ensures
            final(self).inv(final(block_device)),
            final(block_device).blocks().len() == old(block_device).blocks().len(),
            final(self).disk(final(block_device)) == old(self).disk(old(block_device)),
            final(buf)@ == crate::bytes::splice(
                old(buf)@,
                buf_offset as int,
                old(self).disk(old(block_device))[block_id as int].subrange(offset as int, offset + len),
            ),
    {
        let slot = self.get_block_cache(block_id, block_device);
        proof { assert(slot_ok(self.queue@[slot as int], block_device.blocks())); }
        let src = &self.queue[slot].cache;
        let ghost want = crate::bytes::splice(old(buf)@, buf_offset as int, src@.subrange(offset as int, offset + len));
        let blen = buf.len();
        let mut k: usize = 0;
        while k < len
            invariant
                k <= len,
                buf@.len() == blen,
                offset + len <= BLOCK_SZ,
                offset + len <= src@.len(),
                buf_offset + len <= buf@.len(),
                buf@.len() == old(buf)@.len(),
                want.len() == buf@.len(),
                want == crate::bytes::splice(old(buf)@, buf_offset as int, src@.subrange(offset as int, offset + len)),
                forall|i: int| 0 <= i < buf_offset + k ==> buf@[i] == want[i],
                forall|i: int| buf_offset + k <= i < buf@.len() ==> buf@[i] == old(buf)@[i],
            decreases len - k,
        {
            buf[buf_offset + k] = src[offset + k];
            k += 1;
        }
        assert(buf@ =~= want);
    }

    /// Copies `len` bytes of `src` from `src_offset` on into block `block_id` from byte
    /// `offset` on.
    pub fn write_bytes<D: BlockDevice>(
        &mut self,
        block_id: usize,
        offset: usize,
        src: &[u8],
        src_offset: usize,
        len: usize,
        block_device: &mut D,
    )
        requires
            old(self).inv(old(block_device)),
            block_id < old(block_device).blocks().len(),
            offset + len <= BLOCK_SZ,
            src_offset + len <= src@.len(),
        ensures
            final(self).inv(final(block_device)),
            final(block_device).blocks().len() == old(block_device).blocks().len(),
            final(self).disk(final(block_device)) == old(self).disk(old(block_device)).update(
                block_id as int,
                crate::bytes::splice(
                    old(self).disk(old(block_device))[block_id as int],
                    offset as int,
                    src@.subrange(src_offset as int, src_offset + len),
                ),
            ),
    {
        let slot = self.get_block_cache(block_id, block_device);
        let ghost old_m = *self;
        let ghost dev = block_device.blocks();
        proof { assert(slot_ok(self.queue@[slot as int], dev)); }
        let mut s = self.queue.remove(slot).unwrap();
        let ghost want = crate::bytes::splice(s.cache@, offset as int, src@.subrange(src_offset as int, src_offset + len));
        let ghost orig = s.cache@;
        let slen = src.len();
        let mut k: usize = 0;
        while k < len
            invariant
                k <= len,
                src@.len() == slen,
                old_m.wf(dev),
                slot < old_m.queue@.len(),
                self.queue@ == old_m.queue@.remove(slot as int),
                s.block_id == old_m.queue@[slot as int].block_id,
                offset + len <= BLOCK_SZ,
                src_offset + len <= src@.len(),
                s.cache@.len() == BLOCK_SZ,
                orig.len() == BLOCK_SZ,
                want.len() == BLOCK_SZ,
                want == crate::bytes::splice(orig, offset as int, src@.subrange(src_offset as int, src_offset + len)),
                forall|i: int| 0 <= i < offset + k ==> s.cache@[i] == want[i],
                forall|i: int| offset + k <= i < BLOCK_SZ ==> s.cache@[i] == orig[i],
            decreases len - k,
        {
            s.cache.set(offset + k, src[src_offset + k]);
            k += 1;
        }
        assert(s.cache@ =~= want);
        s.modified = true;
        self.put_back(slot, s, Ghost(old_m), Ghost(dev));
    }

    /// Fills block `block_id` with zero bytes.
    pub fn zero_block<D: BlockDevice>(&mut self, block_id: usize, block_device: &mut D)
        requires
            old(self).inv(old(block_device)),
            block_id < old(block_device).blocks().len(),
        ensures
            final(self).inv(final(block_device)),
            final(block_device).blocks().len() == old(block_device).blocks().len(),
            final(self).disk(final(block_device)) == old(self).disk(old(block_device)).update(
                block_id as int,
                Seq::new(BLOCK_SZ as nat, |k: int| 0u8),
            ),
    {
        let slot = self.get_block_cache(block_id, block_device);
        let ghost old_m = *self;
        let ghost dev = block_device.blocks();
        proof { assert(slot_ok(self.queue@[slot as int], dev)); }
        let mut s = self.queue.remove(slot).unwrap();
        s.cache = zeroed_block();
        s.modified = true;
        self.put_back(slot, s, Ghost(old_m), Ghost(dev));
    }

    /// Writes every modified block back to the device, in slot order, and clears the flags.
    /// Afterwards the device holds the disk as the file system sees it; the slots keep their
    /// order and bytes.
    pub fn sync_all<D: BlockDevice>(&mut self, block_device: &mut D)
        requires
            old(self).inv(old(block_device)),
        ensures
            final(self).inv(final(block_device)),
            final(self).len() == old(self).len(),
            final(block_device).blocks() == old(self).disk(old(block_device)),
            final(self).disk(final(block_device)) == old(self).disk(old(block_device)),
            forall|j: int| 0 <= j < old(self).len() ==> {
                &&& #[trigger] final(self).slot_id(j) == old(self).slot_id(j)
                &&& final(self).slot_data(j) == old(self).slot_data(j)
                &&& !final(self).slot_modified(j)
            },
    {
        let ghost m0 = *self;
        let ghost dev0 = block_device.blocks();
        let mut j: usize = 0;
        while j < self.queue.len()
            invariant
                j <= self.queue@.len(),
                self.queue@.len() == m0.queue@.len(),
                m0.wf(dev0),
                blocks_wf(dev0),
                blocks_wf(block_device.blocks()),
                self.wf(block_device.blocks()),
                block_device.blocks().len() == dev0.len(),
                self.view_disk(block_device.blocks()) == m0.view_disk(dev0),
                forall|k: int| 0 <= k < self.queue@.len() ==> #[trigger] self.queue@[k].block_id == m0.queue@[k].block_id,
                forall|k: int| 0 <= k < self.queue@.len() ==> #[trigger] self.queue@[k].cache@ == m0.queue@[k].cache@,
                forall|k: int| 0 <= k < j ==> !(#[trigger] self.queue@[k]).modified,
            decreases self.queue@.len() - j,
        {
            let ghost m1 = *self;
            let ghost dev1 = block_device.blocks();
            proof { assert(slot_ok(self.queue@[j as int], dev1)); }
            let mut s = self.queue.remove(j).unwrap();
            s.sync(block_device);
            self.queue.insert(j, s);
            proof {
                let dev2 = block_device.blocks();
                let b = s.block_id as int;
                m1.lemma_block_at(dev1, j as int);
                assert(dev2[b] == s.cache@);
                assert forall|i: int| 0 <= i < dev2.len() implies #[trigger] dev2[i].len() == BLOCK_SZ by {
                    assert(dev1[i].len() == BLOCK_SZ);
                }
                assert(self.queue@ =~= m1.queue@.update(j as int, s));
                assert forall|a: int| 0 <= a < self.queue@.len() implies slot_ok(#[trigger] self.queue@[a], dev2) by {
                    assert(slot_ok(m1.queue@[a], dev1));
                    if a != j {
                        assert(m1.queue@[a].block_id != m1.queue@[j as int].block_id);
                    }
                }
                assert forall|a: int, c: int|
                    #![trigger self.queue@[a].block_id, self.queue@[c].block_id]
                    0 <= a < self.queue@.len() && 0 <= c < self.queue@.len() && a != c
                        implies self.queue@[a].block_id != self.queue@[c].block_id by {
                    assert(m1.queue@[a].block_id != m1.queue@[c].block_id);
                }
                assert forall|i: int| 0 <= i < dev1.len() implies self.block_at(dev2, i) == m1.block_at(dev1, i) by {
                    if m1.resident(i) {
                        let k = choose|k: int| 0 <= k < m1.queue@.len() && #[trigger] m1.queue@[k].block_id == i;
                        m1.lemma_block_at(dev1, k);
                        self.lemma_block_at(dev2, k);
                    } else if self.resident(i) {
                        let k = choose|k: int| 0 <= k < self.queue@.len() && #[trigger] self.queue@[k].block_id == i;
                        assert(m1.queue@[k].block_id == i);
                    }
                }
                assert(self.view_disk(dev2) =~= m1.view_disk(dev1));
            }
            j += 1;
        }
        proof {
            let dev = block_device.blocks();
            assert forall|i: int| 0 <= i < dev.len() implies self.block_at(dev, i) == dev[i] by {
                if self.resident(i) {
                    let k = choose|k: int| 0 <= k < self.queue@.len() && #[trigger] self.queue@[k].block_id == i;
                    self.lemma_block_at(dev, k);
                    assert(slot_ok(self.queue@[k], dev));
                }
            }
            assert(self.view_disk(dev) =~= dev);
        }
    }

    /// Number of blocks on the device behind the cache.
    pub fn num_blocks<D: BlockDevice>(&self, block_device: &D) -> (r: usize)
        requires
            self.inv(block_device),
            block_device.blocks().len() <= usize::MAX,
        ensures
            r == block_device.blocks().len(),
    {
        block_device.num_blocks()
    }
}

} // verus!
