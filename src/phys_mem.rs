use vstd::prelude::*;

verus! {

/// Bytes in one frame of physical memory.
pub const FRAME_BYTES: usize = 4096;

/// A frame of zero bytes.
pub open spec fn zero_frame() -> Seq<u8> {
    Seq::new(FRAME_BYTES as nat, |k: int| 0u8)
}

/// Physical memory: the frames `[base, base + count)`, 4096 bytes each.
pub struct PhysMemory {
    base: u64,
    frames: Vec<Vec<u8>>,
}

impl PhysMemory {
    pub closed spec fn spec_base(&self) -> int {
        self.base as int
    }

    pub closed spec fn spec_count(&self) -> int {
        self.frames@.len() as int
    }

    /// Whether frame `ppn` is part of this memory.
    pub open spec fn holds(&self, ppn: int) -> bool {
        self.spec_base() <= ppn < self.spec_base() + self.spec_count()
    }

    /// The bytes of frame `ppn`.
    pub closed spec fn frame(&self, ppn: int) -> Seq<u8> {
        self.frames@[ppn - self.base]@
    }

    pub closed spec fn wf(&self) -> bool {
        &&& self.base + self.frames@.len() <= u64::MAX
        &&& forall|i: int| 0 <= i < self.frames@.len() ==> (#[trigger] self.frames@[i])@.len() == FRAME_BYTES
    }

    /// `count` zeroed frames from frame `base` on.
    pub fn new(base: u64, count: usize) -> (r: Self)
        requires
            base + count <= u64::MAX,
        ensures
            r.wf(),
            r.spec_base() == base,
            r.spec_count() == count,
            forall|p: int| r.holds(p) ==> #[trigger] r.frame(p) == zero_frame(),
    {
        let mut frames: Vec<Vec<u8>> = Vec::new();
        let mut i: usize = 0;
        while i < count
            invariant
                i <= count,
                frames@.len() == i,
                forall|j: int| 0 <= j < i ==> (#[trigger] frames@[j])@ == zero_frame(),
            decreases count - i,
        {
            frames.push(zeroed_frame());
            i += 1;
        }
        PhysMemory { base, frames }
    }

    /// Byte `offset` of frame `ppn`.
    pub fn read_byte(&self, ppn: u64, offset: usize) -> (r: u8)
        requires
            self.wf(),
            self.holds(ppn as int),
            offset < FRAME_BYTES,
        ensures
            r == self.frame(ppn as int)[offset as int],
    {
        let n = self.frames.len();
        let i = (ppn - self.base) as usize;
        self.frames[i][offset]
    }

    /// Replaces the bytes of frame `ppn` by `bytes`.
    fn set_frame(&mut self, ppn: u64, bytes: Vec<u8>)
        requires
            old(self).wf(),
            old(self).holds(ppn as int),
            bytes@.len() == FRAME_BYTES,
        ensures
            final(self).wf(),
            final(self).spec_base() == old(self).spec_base(),
            final(self).spec_count() == old(self).spec_count(),
            final(self).frame(ppn as int) == bytes@,
            forall|p: int| old(self).holds(p) && p != ppn ==> #[trigger] final(self).frame(p) == old(self).frame(p),
    {
        let n = self.frames.len();
        let i = (ppn - self.base) as usize;
        self.frames.set(i, bytes);
    }

    /// Fills frame `ppn` with zero bytes.
    pub fn zero(&mut self, ppn: u64)
        requires
            old(self).wf(),
            old(self).holds(ppn as int),
        ensures
            final(self).wf(),
            final(self).spec_base() == old(self).spec_base(),
            final(self).spec_count() == old(self).spec_count(),
            final(self).frame(ppn as int) == zero_frame(),
            forall|p: int| old(self).holds(p) && p != ppn ==> #[trigger] final(self).frame(p) == old(self).frame(p),
    {
        self.set_frame(ppn, zeroed_frame());
    }

    /// Copies frame `src` over frame `dst`.
    pub fn copy_frame(&mut self, src: u64, dst: u64)
        requires
            old(self).wf(),
            old(self).holds(src as int),
            old(self).holds(dst as int),
        ensures
            final(self).wf(),
            final(self).spec_base() == old(self).spec_base(),
            final(self).spec_count() == old(self).spec_count(),
            final(self).frame(dst as int) == old(self).frame(src as int),
            forall|p: int| old(self).holds(p) && p != dst ==> #[trigger] final(self).frame(p) == old(self).frame(p),
    {
        let n = self.frames.len();
        let i = (src - self.base) as usize;
        let mut bytes: Vec<u8> = Vec::new();
        let mut k: usize = 0;
        while k < FRAME_BYTES
            invariant
                self.wf(),
                i < self.frames@.len(),
                k <= FRAME_BYTES,
                bytes@ == self.frames@[i as int]@.subrange(0, k as int),
            decreases FRAME_BYTES - k,
        {
            bytes.push(self.frames[i][k]);
            k += 1;
        }
        proof { assert(bytes@ =~= self.frames@[i as int]@); }
        self.set_frame(dst, bytes);
    }

    /// Copies `src` into frame `ppn` from its first byte on, the rest of the frame kept.
    pub fn write_prefix(&mut self, ppn: u64, src: &[u8])
        requires
            old(self).wf(),
            old(self).holds(ppn as int),
            src@.len() <= FRAME_BYTES,
        ensures
            final(self).wf(),
            final(self).spec_base() == old(self).spec_base(),
            final(self).spec_count() == old(self).spec_count(),
            final(self).frame(ppn as int) == src@ + old(self).frame(ppn as int).subrange(src@.len() as int, FRAME_BYTES as int),
            forall|p: int| old(self).holds(p) && p != ppn ==> #[trigger] final(self).frame(p) == old(self).frame(p),
    {
        let nf = self.frames.len();
        let i = (ppn - self.base) as usize;
        let n = src.len();
        let mut bytes: Vec<u8> = Vec::new();
        let mut k: usize = 0;
        while k < FRAME_BYTES
            invariant
                self.wf(),
                i < self.frames@.len(),
                n == src@.len(),
                n <= FRAME_BYTES,
                k <= FRAME_BYTES,
                bytes@.len() == k,
                forall|j: int| 0 <= j < k ==> #[trigger] bytes@[j] == if j < n { src@[j] } else { self.frames@[i as int]@[j] },
            decreases FRAME_BYTES - k,
        {
            if k < n {
                bytes.push(src[k]);
            } else {
                bytes.push(self.frames[i][k]);
            }
            k += 1;
        }
        proof {
            assert(bytes@ =~= src@ + self.frames@[i as int]@.subrange(n as int, FRAME_BYTES as int));
        }
        self.set_frame(ppn, bytes);
    }
}

/// A frame of zero bytes.
fn zeroed_frame() -> (r: Vec<u8>)
    ensures
        r@ == zero_frame(),
{
    let mut v: Vec<u8> = Vec::new();
    let mut k: usize = 0;
    while k < FRAME_BYTES
        invariant
            k <= FRAME_BYTES,
            v@ == Seq::new(k as nat, |j: int| 0u8),
        decreases FRAME_BYTES - k,
    {
        v.push(0u8);
        k += 1;
    }
    v
}

} // verus!
