use vstd::prelude::*;
use vstd::arithmetic::div_mod::lemma_fundamental_div_mod_converse;
use crate::block_cache::BlockCacheManager;
use crate::block_dev::BlockDevice;
use crate::config::{BLOCK_BITS, BLOCK_SZ};

verus! {

/// Whether bit `k` of byte `b` is set.
pub open spec fn byte_bit(b: u8, k: u8) -> bool {
    b & (1u8 << k) != 0
}

/// Whether bit `bit` of a bitmap that starts at block `start` is set on `disk`.
pub open spec fn bit_is_set(disk: Seq<Seq<u8>>, start: int, bit: int) -> bool {
    byte_bit(disk[start + bit / (BLOCK_BITS as int)][(bit % BLOCK_BITS as int) / 8], (bit % 8) as u8)
}

proof fn lemma_set_bit(b: u8, k: u8, j: u8)
    requires
        k < 8,
        j < 8,
    ensures
        byte_bit(b | (1u8 << k), j) == (j == k || byte_bit(b, j)),
{
    assert((b | (1u8 << k)) & (1u8 << j) != 0 <==> (j == k || b & (1u8 << j) != 0)) by (bit_vector)
        requires k < 8, j < 8;
}

proof fn lemma_clear_bit(b: u8, k: u8, j: u8)
    requires
        k < 8,
        j < 8,
        byte_bit(b, k),
    ensures
        b >= (1u8 << k),
        byte_bit((b - (1u8 << k)) as u8, j) == (j != k && byte_bit(b, j)),
{
    assert(b & (1u8 << k) != 0 ==> b >= (1u8 << k)) by (bit_vector)
        requires k < 8;
    assert(b & (1u8 << k) != 0 ==> (((b - (1u8 << k)) as u8) & (1u8 << j) != 0 <==> (j != k && b & (
    1u8 << j) != 0))) by (bit_vector)
        requires k < 8, j < 8;
}

proof fn lemma_full_byte(b: u8)
    requires
        forall|j: u8| j < 8 ==> #[trigger] byte_bit(b, j),
    ensures
        b == 0xffu8,
{
    assert(byte_bit(b, 0) && byte_bit(b, 1) && byte_bit(b, 2) && byte_bit(b, 3));
    assert(byte_bit(b, 4) && byte_bit(b, 5) && byte_bit(b, 6) && byte_bit(b, 7));
    assert(b & (1u8 << 0u8) != 0 && b & (1u8 << 1u8) != 0 && b & (1u8 << 2u8) != 0 && b & (1u8 << 3u8)
        != 0 && b & (1u8 << 4u8) != 0 && b & (1u8 << 5u8) != 0 && b & (1u8 << 6u8) != 0 && b & (1u8
        << 7u8) != 0 ==> b == 0xffu8) by (bit_vector);
}

proof fn lemma_block_of_bit(bit: int, blocks: int)
    requires
        0 <= bit < blocks * BLOCK_BITS,
    ensures
        bit / (BLOCK_BITS as int) < blocks,
{
    vstd::arithmetic::div_mod::lemma_fundamental_div_mod(bit, BLOCK_BITS as int);
    let q = bit / (BLOCK_BITS as int);
    assert((bit % (BLOCK_BITS as int)) >= 0) by {
        vstd::arithmetic::div_mod::lemma_mod_bound(bit, BLOCK_BITS as int);
    }
    assert(q < blocks) by (nonlinear_arith)
        requires bit == BLOCK_BITS * q + (bit % (BLOCK_BITS as int)), (bit % (BLOCK_BITS as int)) >= 0, bit < blocks * BLOCK_BITS;
}

/// The eight bits of one byte of a bitmap are the bits of that byte.
proof fn lemma_byte_bits(disk: Seq<Seq<u8>>, start: int, blk: int, byte: int)
    requires
        0 <= blk,
        0 <= byte < BLOCK_SZ,
    ensures
        forall|kk: int| 0 <= kk < 8 ==> #[trigger] bit_is_set(disk, start, blk * BLOCK_BITS + byte * 8 + kk)
            == byte_bit(disk[start + blk][byte], kk as u8),
{
    assert forall|kk: int| 0 <= kk < 8 implies #[trigger] bit_is_set(disk, start, blk * BLOCK_BITS + byte * 8 + kk)
        == byte_bit(disk[start + blk][byte], kk as u8) by {
        lemma_compose(blk, byte, kk);
    }
}

/// A bit index is fixed by its block, byte and bit-in-byte.
proof fn lemma_decomposition_injective(i: int, j: int)
    requires
        0 <= i,
        0 <= j,
        spec_decomposition(i) == spec_decomposition(j),
    ensures
        i == j,
{
    vstd::arithmetic::div_mod::lemma_fundamental_div_mod(j, BLOCK_BITS as int);
    vstd::arithmetic::div_mod::lemma_fundamental_div_mod(i, BLOCK_BITS as int);
    vstd::arithmetic::div_mod::lemma_fundamental_div_mod(j % (BLOCK_BITS as int), 8);
    vstd::arithmetic::div_mod::lemma_fundamental_div_mod(i % (BLOCK_BITS as int), 8);
    vstd::arithmetic::div_mod::lemma_mod_mod(j, 8, 512);
    vstd::arithmetic::div_mod::lemma_mod_mod(i, 8, 512);
}

/// Changing one byte of a bitmap changes only the bits of that byte.
proof fn lemma_byte_change(bm: Bitmap, disk: Seq<Seq<u8>>, disk2: Seq<Seq<u8>>, blk: int, byte: int, nb: u8)
    requires
        0 <= blk < bm.num_blocks(),
        0 <= byte < BLOCK_SZ,
        bm.start() + bm.num_blocks() <= disk.len(),
        bm.start() >= 0,
        disk2 == disk.update(bm.start() + blk, disk[bm.start() + blk].update(byte, nb)),
        disk[bm.start() + blk].len() == BLOCK_SZ,
    ensures
        forall|j: int| 0 <= j < bm.spec_maximum() ==> (#[trigger] bit_is_set(disk2, bm.start(), j) == if spec_decomposition(j).0 == blk && spec_decomposition(j).1 == byte {
            byte_bit(nb, (j % 8) as u8)
        } else {
            bit_is_set(disk, bm.start(), j)
        }),
{
    assert forall|j: int| 0 <= j < bm.spec_maximum() implies (#[trigger] bit_is_set(disk2, bm.start(), j) == if spec_decomposition(j).0 == blk && spec_decomposition(j).1 == byte {
            byte_bit(nb, (j % 8) as u8)
        } else {
            bit_is_set(disk, bm.start(), j)
        }) by {
        let (jb, jy, jk) = spec_decomposition(j);
        vstd::arithmetic::div_mod::lemma_mod_bound(j, BLOCK_BITS as int);
        vstd::arithmetic::div_mod::lemma_div_pos_is_pos(j, BLOCK_BITS as int);
        assert(0 <= jy < BLOCK_SZ) by {
            vstd::arithmetic::div_mod::lemma_div_is_ordered(j % (BLOCK_BITS as int), (BLOCK_BITS as int) - 1, 8);
            vstd::arithmetic::div_mod::lemma_div_pos_is_pos(j % (BLOCK_BITS as int), 8);
        }
    }
}

/// The block, byte and bit-in-byte that hold bit `bit` of a bitmap.
pub open spec fn spec_decomposition(bit: int) -> (int, int, int) {
    (bit / (BLOCK_BITS as int), (bit % BLOCK_BITS as int) / 8, bit % 8)
}

proof fn lemma_compose(blk: int, byte: int, k: int)
    requires
        0 <= blk,
        0 <= byte < BLOCK_SZ,
        0 <= k < 8,
    ensures
        spec_decomposition(blk * BLOCK_BITS + byte * 8 + k) == (blk, byte, k),
{
    let bit = blk * BLOCK_BITS + byte * 8 + k;
    lemma_fundamental_div_mod_converse(bit, (BLOCK_BITS as int), blk, byte * 8 + k);
    lemma_fundamental_div_mod_converse(byte * 8 + k, 8, byte, k);
    assert(bit == (blk * 512 + byte) * 8 + k) by (nonlinear_arith)
        requires bit == blk * BLOCK_BITS + byte * 8 + k;
    lemma_fundamental_div_mod_converse(bit, 8, blk * 512 + byte, k);
}

/// Splits bit `bit` into the block, the byte inside the block and the bit inside the byte
/// that hold it.
pub fn decomposition(bit: usize) -> (r: (usize, usize, usize))
    ensures
        (r.0 as int, r.1 as int, r.2 as int) == spec_decomposition(bit as int),
        r.1 < BLOCK_SZ,
        r.2 < 8,
{
    let block_pos = bit / BLOCK_BITS;
    let rest = bit % BLOCK_BITS;
    (block_pos, rest / 8, bit % 8)
}

/// Allocation state of single bits over a run of blocks, `BLOCK_BITS` bits per block.
pub struct Bitmap {
    start_block_id: usize,
    blocks: usize,
}

impl Bitmap {
    pub closed spec fn start(&self) -> int {
        self.start_block_id as int
    }

    pub closed spec fn num_blocks(&self) -> int {
        self.blocks as int
    }

    pub open spec fn spec_maximum(&self) -> int {
        self.num_blocks() * BLOCK_BITS
    }

    /// The bitmap fits on a disk of `n` blocks.
    pub open spec fn fits(&self, n: int) -> bool {
        &&& 0 <= self.start()
        &&& 0 <= self.num_blocks()
        &&& self.start() + self.num_blocks() <= n
        &&& self.start() + self.num_blocks() <= usize::MAX
        &&& self.spec_maximum() <= usize::MAX
    }

    /// The bits that are set on `disk`.
    pub open spec fn allocated(&self, disk: Seq<Seq<u8>>) -> Set<int> {
        Set::new(|i: int| 0 <= i < self.spec_maximum() && bit_is_set(disk, self.start(), i))
    }

    /// A bitmap over the `blocks` blocks that start at `start_block_id`.
    pub fn new(start_block_id: usize, blocks: usize) -> (r: Self)
        ensures
            r.start() == start_block_id,
            r.num_blocks() == blocks,
    {
        Bitmap { start_block_id, blocks }
    }

    /// Number of bits the bitmap holds.
    pub fn maximum(&self) -> (r: usize)
        requires
            self.spec_maximum() <= usize::MAX,
        ensures
            r == self.spec_maximum(),
    {
        self.blocks * BLOCK_BITS
    }

    /// Sets the lowest clear bit and returns its index; `None` when every bit is set.
    pub fn allocate<D: BlockDevice>(&self, cache: &mut BlockCacheManager, block_device: &mut D) -> (r: Option<usize>)
        requires
            old(cache).inv(old(block_device)),
            self.fits(old(block_device).blocks().len() as int),
        ensures
            final(cache).inv(final(block_device)),
            final(block_device).blocks().len() == old(block_device).blocks().len(),
            ({
                let disk = old(cache).disk(old(block_device));
                let disk2 = final(cache).disk(final(block_device));
                match r {
                    Some(i) => {
                        let (blk, byte, k) = spec_decomposition(i as int);
                        &&& 0 <= i < self.spec_maximum()
                        &&& 0 <= blk < self.num_blocks()
                        &&& !bit_is_set(disk, self.start(), i as int)
                        &&& forall|j: int| 0 <= j < i ==> bit_is_set(disk, self.start(), j)
                        &&& disk2 == disk.update(
                            self.start() + blk,
                            disk[self.start() + blk].update(
                                byte,
                                disk[self.start() + blk][byte] | (1u8 << (k as u8)),
                            ),
                        )
                        &&& self.allocated(disk2) == self.allocated(disk).insert(i as int)
                    },
                    None => {
                        &&& disk2 == disk
                        &&& forall|j: int| 0 <= j < self.spec_maximum() ==> bit_is_set(disk, self.start(), j)
                    },
                }
            }),
    {
        let ghost disk = cache.disk(block_device);
        proof { cache.lemma_disk_wf(block_device.blocks()); }
        let mut block_id: usize = 0;
        while block_id < self.blocks
            invariant
                block_id <= self.blocks,
                cache.inv(block_device),
                block_device.blocks().len() == disk.len(),
                disk.len() == old(block_device).blocks().len(),
                disk == old(cache).disk(old(block_device)),
                cache.disk(block_device) == disk,
                crate::block_dev::blocks_wf(disk),
                self.fits(disk.len() as int),
                forall|j: int| 0 <= j < block_id * BLOCK_BITS ==> bit_is_set(disk, self.start(), j),
            decreases self.blocks - block_id,
        {
            let mut byte: usize = 0;
            while byte < BLOCK_SZ
                invariant
                    block_id < self.blocks,
                    byte <= BLOCK_SZ,
                    cache.inv(block_device),
                    block_device.blocks().len() == disk.len(),
                    disk.len() == old(block_device).blocks().len(),
                    disk == old(cache).disk(old(block_device)),
                disk == old(cache).disk(old(block_device)),
                    cache.disk(block_device) == disk,
                    crate::block_dev::blocks_wf(disk),
                    self.fits(disk.len() as int),
                    forall|j: int| 0 <= j < block_id * BLOCK_BITS + byte * 8 ==> bit_is_set(disk, self.start(), j),
                decreases BLOCK_SZ - byte,
            {
                let b = cache.read_byte(self.start_block_id + block_id, byte, block_device);
                proof { lemma_byte_bits(disk, self.start(), block_id as int, byte as int); }
                if b != 0xffu8 {
                    let mut k: u8 = 0;
                    while k < 8 && b & (1u8 << k) != 0
                        invariant
                            k <= 8,
                            forall|j: u8| j < k ==> #[trigger] byte_bit(b, j),
                        decreases 8 - k,
                    {
                        k += 1;
                    }
                    proof {
                        if k == 8 {
                            lemma_full_byte(b);
                        }
                    }
                    let nb = b | (1u8 << k);
                    cache.write_byte(self.start_block_id + block_id, byte, nb, block_device);
                    let r = block_id * BLOCK_BITS + byte * 8 + k as usize;
                    proof {
                        let start = self.start();
                        let disk2 = cache.disk(block_device);
                        lemma_compose(block_id as int, byte as int, k as int);
                        assert forall|j: int| 0 <= j < r implies bit_is_set(disk, start, j) by {
                            if j >= block_id * BLOCK_BITS + byte * 8 {
                                let kk = j - (block_id * BLOCK_BITS + byte * 8);
                                assert(bit_is_set(disk, start, block_id * BLOCK_BITS + byte * 8 + kk));
                            }
                        }
                        lemma_byte_change(*self, disk, disk2, block_id as int, byte as int, nb);
                        assert forall|j: int| 0 <= j < self.spec_maximum() implies (bit_is_set(disk2, start, j)
                            <==> (j == r || bit_is_set(disk, start, j))) by {
                            let (jb, jy, jk) = spec_decomposition(j);
                            if jb == block_id && jy == byte {
                                assert(0 <= jk < 8) by {
                                    vstd::arithmetic::div_mod::lemma_mod_bound(j, 8);
                                }
                                lemma_set_bit(b, k, jk as u8);
                                if jk == k {
                                    lemma_decomposition_injective(j, r as int);
                                }
                            }
                        }
                        assert(self.allocated(disk2) =~= self.allocated(disk).insert(r as int));
                        assert(r < self.spec_maximum()) by (nonlinear_arith)
                            requires r == block_id * BLOCK_BITS + byte * 8 + k, byte < BLOCK_SZ, k < 8,
                                block_id < self.num_blocks(), self.spec_maximum() == self.num_blocks() * BLOCK_BITS;
                        assert(!bit_is_set(disk, start, r as int));
                        assert(disk2 == disk.update(
                            self.start() + block_id,
                            disk[self.start() + block_id].update(
                                byte as int,
                                disk[self.start() + block_id][byte as int] | (1u8 << (k as u8)),
                            )));
                    }
                    return Some(r);
                }
                proof {
                    assert(forall|j: u8| j < 8 ==> #[trigger] byte_bit(b, j)) by {
                        assert forall|j: u8| j < 8 implies #[trigger] byte_bit(b, j) by {
                            assert(j < 8 ==> 0xffu8 & (1u8 << j) != 0) by (bit_vector);
                        }
                    }
                    assert forall|j: int| 0 <= j < block_id * BLOCK_BITS + (byte + 1) * 8 implies bit_is_set(disk, self.start(), j) by {
                        if j >= block_id * BLOCK_BITS + byte * 8 {
                            let kk = j - (block_id * BLOCK_BITS + byte * 8);
                            assert(bit_is_set(disk, self.start(), block_id * BLOCK_BITS + byte * 8 + kk));
                            assert(byte_bit(b, kk as u8));
                        }
                    }
                }
                byte += 1;
            }
            block_id += 1;
        }
        None
    }

    /// Clears bit `bit`, which must be set.
    pub fn dealloc<D: BlockDevice>(&self, cache: &mut BlockCacheManager, block_device: &mut D, bit: usize)
        requires
            old(cache).inv(old(block_device)),
            self.fits(old(block_device).blocks().len() as int),
            bit < self.spec_maximum(),
            bit_is_set(old(cache).disk(old(block_device)), self.start(), bit as int),
        ensures
            final(cache).inv(final(block_device)),
            final(block_device).blocks().len() == old(block_device).blocks().len(),
            ({
                let disk = old(cache).disk(old(block_device));
                let disk2 = final(cache).disk(final(block_device));
                let (blk, byte, k) = spec_decomposition(bit as int);
                &&& 0 <= blk < self.num_blocks()
                &&& disk2 == disk.update(
                    self.start() + blk,
                    disk[self.start() + blk].update(byte, (disk[self.start() + blk][byte] - (1u8 << (k as u8))) as u8),
                )
                &&& self.allocated(disk2) == self.allocated(disk).remove(bit as int)
            }),
    {
        let ghost disk = cache.disk(block_device);
        proof { cache.lemma_disk_wf(block_device.blocks()); }
        let (block_pos, byte_pos, inner_pos) = decomposition(bit);
        proof { lemma_block_of_bit(bit as int, self.num_blocks()); }
        let b = cache.read_byte(self.start_block_id + block_pos, byte_pos, block_device);
        let k = inner_pos as u8;
        proof { lemma_clear_bit(b, k, 0); }
        let nb = b - (1u8 << k);
        cache.write_byte(self.start_block_id + block_pos, byte_pos, nb, block_device);
        proof {
            let start = self.start();
            let disk2 = cache.disk(block_device);
            lemma_byte_change(*self, disk, disk2, block_pos as int, byte_pos as int, nb);
            assert forall|j: int| 0 <= j < self.spec_maximum() implies (bit_is_set(disk2, start, j)
                <==> (j != bit && bit_is_set(disk, start, j))) by {
                let (jb, jy, jk) = spec_decomposition(j);
                if jb == block_pos && jy == byte_pos {
                    assert(0 <= jk < 8) by {
                        vstd::arithmetic::div_mod::lemma_mod_bound(j, 8);
                    }
                    lemma_clear_bit(b, k, jk as u8);
                    if jk == k {
                        lemma_decomposition_injective(j, bit as int);
                    }
                }
            }
            assert(self.allocated(disk2) =~= self.allocated(disk).remove(bit as int));
        }
    }

    /// The bits depend only on the bitmap's own blocks.
    pub proof fn lemma_allocated_frame(&self, disk: Seq<Seq<u8>>, disk2: Seq<Seq<u8>>)
        requires
            self.start() >= 0,
            forall|b: int| self.start() <= b < self.start() + self.num_blocks() ==> #[trigger] disk2[b] == disk[b],
        ensures
            self.allocated(disk2) == self.allocated(disk),
    {
        assert forall|i: int| 0 <= i < self.spec_maximum() implies bit_is_set(disk2, self.start(), i) == bit_is_set(disk, self.start(), i) by {
            lemma_block_of_bit(i, self.num_blocks());
            vstd::arithmetic::div_mod::lemma_div_pos_is_pos(i, BLOCK_BITS as int);
        }
        assert(self.allocated(disk2) =~= self.allocated(disk));
    }

    /// A bitmap whose blocks hold only zero bytes has no bit set.
    pub proof fn lemma_zeroed(&self, disk: Seq<Seq<u8>>)
        requires
            self.start() >= 0,
            forall|b: int| self.start() <= b < self.start() + self.num_blocks() ==> #[trigger] disk[b] == Seq::new(BLOCK_SZ as nat, |k: int| 0u8),
        ensures
            self.allocated(disk) == Set::<int>::empty(),
            forall|i: int| 0 <= i < self.spec_maximum() ==> !#[trigger] bit_is_set(disk, self.start(), i),
    {
        assert forall|i: int| 0 <= i < self.spec_maximum() implies !#[trigger] bit_is_set(disk, self.start(), i) by {
            lemma_block_of_bit(i, self.num_blocks());
            vstd::arithmetic::div_mod::lemma_div_pos_is_pos(i, BLOCK_BITS as int);
            vstd::arithmetic::div_mod::lemma_mod_bound(i, BLOCK_BITS as int);
            vstd::arithmetic::div_mod::lemma_div_pos_is_pos(i % (BLOCK_BITS as int), 8);
            vstd::arithmetic::div_mod::lemma_div_is_ordered(i % (BLOCK_BITS as int), BLOCK_BITS as int - 1, 8);
            let k = (i % 8) as u8;
            assert(0u8 & (1u8 << k) == 0) by (bit_vector);
        }
        assert(self.allocated(disk) =~= Set::<int>::empty());
    }
}

} // verus!
