use vstd::prelude::*;
use crate::frame_allocator::{PhysPageNum, StackFrameAllocator};

verus! {

/// Flag bits of a page-table entry.
pub const PTE_V: u8 = 1;
pub const PTE_R: u8 = 2;
pub const PTE_W: u8 = 4;
pub const PTE_X: u8 = 8;
pub const PTE_U: u8 = 16;
pub const PTE_G: u8 = 32;
pub const PTE_A: u8 = 64;
pub const PTE_D: u8 = 128;

/// Largest physical page number sv39 can hold: 44 bits.
pub const PPN_MASK: u64 = 0xfff_ffff_ffff;

/// An sv39 page-table entry: physical page number in bits 10..54, flags in bits 0..8.
#[derive(PartialEq, Eq, Structural, Clone, Copy, Debug)]
pub struct PageTableEntry {
    pub bits: u64,
}

impl PageTableEntry {
    pub open spec fn spec_ppn(&self) -> u64 {
        (self.bits >> 10u64) & PPN_MASK
    }

    pub open spec fn spec_flags(&self) -> u8 {
        (self.bits & 0xff) as u8
    }

    /// The entry that maps to page `ppn` with `flags`.
    pub fn new(ppn: u64, flags: u8) -> (r: Self)
        requires
            ppn <= PPN_MASK,
        ensures
            r.spec_ppn() == ppn,
            r.spec_flags() == flags,
    {
        let f = flags as u64;
        let bits = (ppn << 10u64) | f;
        assert(((((ppn << 10u64) | f) >> 10u64) & 0xfff_ffff_ffffu64) == ppn) by (bit_vector)
            requires ppn <= 0xfff_ffff_ffffu64, f <= 0xffu64;
        assert((((ppn << 10u64) | f) & 0xffu64) == f) by (bit_vector)
            requires f <= 0xffu64;
        PageTableEntry { bits }
    }

    /// The all-zero entry, which is not valid.
    pub fn empty() -> (r: Self)
        ensures
            r.bits == 0,
            !r.spec_valid(),
    {
        
        let r = PageTableEntry { bits: 0 };
        assert(((0u64 & 0xff) as u8) & 1u8 == 0u8) by (bit_vector);
        r
    }

    /// The physical page the entry maps to.
    pub fn ppn(&self) -> (r: u64)
        ensures
            r == self.spec_ppn(),
    {
        (self.bits >> 10u64) & PPN_MASK
    }

    /// The flag bits.
    pub fn flags(&self) -> (r: u8)
        ensures
            r == self.spec_flags(),
    {
        (self.bits & 0xff) as u8
    }

    pub open spec fn spec_valid(&self) -> bool {
        self.spec_flags() & PTE_V != 0
    }

    /// Whether the entry is valid.
    pub fn is_valid(&self) -> (r: bool)
        ensures
            r == self.spec_valid(),
    {
        self.flags() & PTE_V != 0
    }

    /// Whether the page may be read.
    pub fn readable(&self) -> (r: bool)
        ensures
            r == (self.spec_flags() & PTE_R != 0),
    {
        self.flags() & PTE_R != 0
    }

    /// Whether the page may be written.
    pub fn writable(&self) -> (r: bool)
        ensures
            r == (self.spec_flags() & PTE_W != 0),
    {
        self.flags() & PTE_W != 0
    }

    /// Whether the page may be executed.
    pub fn executable(&self) -> (r: bool)
        ensures
            r == (self.spec_flags() & PTE_X != 0),
    {
        self.flags() & PTE_X != 0
    }
}

/// The three 9-bit indices of virtual page `vpn`, root level first.
pub fn vpn_indexes(vpn: usize) -> (r: (usize, usize, usize))
    ensures
        r.0 == (vpn / 262144) % 512,
        r.1 == (vpn / 512) % 512,
        r.2 == vpn % 512,
{
    let idx2 = vpn % 512;
    let rest = vpn / 512;
    let idx1 = rest % 512;
    let rest2 = rest / 512;
    proof {
        vstd::arithmetic::div_mod::lemma_div_denominator(vpn as int, 512, 512);
    }
    (rest2 % 512, idx1, idx2)
}

/// The `satp` value that turns on sv39 translation with the table rooted at `root_ppn`.
pub fn token(root_ppn: u64) -> (r: u64)
    requires
        root_ppn <= PPN_MASK,
    ensures
        r == (8u64 << 60u64) | root_ppn,
{
    (8u64 << 60u64) | root_ppn
}

/// The root page number that a `satp` value names.
pub fn root_ppn_of_token(satp: u64) -> (r: u64)
    ensures
        r == satp & PPN_MASK,
{
    satp & PPN_MASK
}

/// Building a token from a root page and reading the root back gives that page.
pub proof fn lemma_token_round_trip(root_ppn: u64)
    requires
        root_ppn <= PPN_MASK,
    ensures
        (((8u64 << 60u64) | root_ppn) & PPN_MASK) == root_ppn,
{
    assert(((((8u64 << 60u64) | root_ppn) & 0xfff_ffff_ffffu64) == root_ppn)) by (bit_vector)
        requires root_ppn <= 0xfff_ffff_ffffu64;
}

/// Number of entries of one page-table node.
pub const PTE_PER_NODE: usize = 512;

/// Largest virtual page number of sv39: 27 bits.
pub const VPN_LIMIT: u64 = 0x800_0000;

/// Index into the node of `level` (0 = root) that virtual page `vpn` uses.
pub open spec fn vpn_index(vpn: int, level: int) -> int {
    if level == 0 {
        (vpn / 262144) % 512
    } else if level == 1 {
        (vpn / 512) % 512
    } else {
        vpn % 512
    }
}

/// An sv39 three-level page table. It owns the frames of its nodes; `nodes[j]` holds the
/// entries of frame `frames[j]`, and the root is node 0.
pub struct PageTable {
    root_ppn: u64,
    frames: Vec<u64>,
    nodes: Vec<Vec<u64>>,
    levels: Ghost<Seq<int>>,
}

impl PageTable {
    /// The frame of the root node.
    pub closed spec fn spec_root_ppn(&self) -> u64 {
        self.root_ppn
    }

    pub closed spec fn entry(&self, n: int, e: int) -> PageTableEntry {
        PageTableEntry { bits: self.nodes@[n]@[e] }
    }

    pub closed spec fn has_node(&self, p: u64) -> bool {
        exists|j: int| 0 <= j < self.frames@.len() && #[trigger] self.frames@[j] == p
    }

    pub closed spec fn node_index(&self, p: u64) -> int {
        choose|j: int| 0 <= j < self.frames@.len() && #[trigger] self.frames@[j] == p
    }

    pub closed spec fn level(&self, n: int) -> int {
        self.levels@[n]
    }

    /// A valid entry of a node above the leaves points at a node one level down.
    pub closed spec fn child_ok(&self, n: int, e: int) -> bool {
        self.entry(n, e).spec_valid() ==> {
            &&& self.has_node(self.entry(n, e).spec_ppn())
            &&& self.level(self.node_index(self.entry(n, e).spec_ppn())) == self.level(n) + 1
        }
    }

    pub closed spec fn wf(&self, fa: &StackFrameAllocator) -> bool {
        &&& fa.wf()
        &&& self.shape_ok()
        &&& forall|j: int| 0 <= j < self.frames@.len() ==> fa.is_allocated(#[trigger] self.frames@[j] as int)
    }

    /// The nodes form a tree of three levels under the root.
    pub closed spec fn shape_ok(&self) -> bool {
        &&& self.frames@.len() == self.nodes@.len()
        &&& self.frames@.len() == self.levels@.len()
        &&& self.frames@.len() >= 1
        &&& self.frames@[0] == self.root_ppn
        &&& self.root_ppn <= PPN_MASK
        &&& forall|j: int| 0 <= j < self.frames@.len() ==> (#[trigger] self.nodes@[j])@.len() == PTE_PER_NODE
        &&& forall|j: int| 0 <= j < self.frames@.len() ==> 0 <= #[trigger] self.levels@[j] <= 2
        &&& forall|j: int| 0 <= j < self.frames@.len() ==> (self.levels@[j] == 0 <==> j == 0)
        &&& forall|j: int| 0 <= j < self.frames@.len() ==> #[trigger] self.frames@[j] <= PPN_MASK
        &&& forall|j: int, k: int| 0 <= j < self.frames@.len() && 0 <= k < self.frames@.len() && j != k
            ==> #[trigger] self.frames@[j] != #[trigger] self.frames@[k]
        &&& forall|n: int, e: int| 0 <= n < self.frames@.len() && 0 <= e < PTE_PER_NODE && self.levels@[n] < 2
            ==> #[trigger] self.child_ok(n, e)
        &&& forall|n: int, e: int, m: int, f: int|
            0 <= n < self.frames@.len() && 0 <= e < PTE_PER_NODE && self.levels@[n] < 2
            && 0 <= m < self.frames@.len() && 0 <= f < PTE_PER_NODE && self.levels@[m] < 2
            && #[trigger] self.entry(n, e).spec_valid() && #[trigger] self.entry(m, f).spec_valid()
            && self.entry(n, e).spec_ppn() == self.entry(m, f).spec_ppn()
            ==> n == m && e == f
    }

    /// The entry that translates virtual page `vpn`, if a valid one is reachable.
    pub closed spec fn walk(&self, vpn: int) -> Option<PageTableEntry> {
        let e0 = self.entry(0, vpn_index(vpn, 0));
        if !e0.spec_valid() {
            None
        } else {
            let n1 = self.node_index(e0.spec_ppn());
            let e1 = self.entry(n1, vpn_index(vpn, 1));
            if !e1.spec_valid() {
                None
            } else {
                let n2 = self.node_index(e1.spec_ppn());
                let e2 = self.entry(n2, vpn_index(vpn, 2));
                if e2.spec_valid() { Some(e2) } else { None }
            }
        }
    }

    proof fn lemma_node_index(&self, j: int)
        requires
            self.shape_ok(),
            0 <= j < self.frames@.len(),
        ensures
            self.has_node(self.frames@[j]),
            self.node_index(self.frames@[j]) == j,
    {
        assert(self.frames@[j] == self.frames@[j]);
        let k = self.node_index(self.frames@[j]);
        if k != j {
            assert(self.frames@[k] != self.frames@[j]);
        }
    }

    /// A table with only a root node, all of whose entries are invalid; `None` when no frame
    /// is left.
    pub fn new(fa: &mut StackFrameAllocator) -> (r: Option<Self>)
        requires
            old(fa).wf(),
            forall|p: int| #[trigger] old(fa).free().contains(p) ==> p <= PPN_MASK,
        ensures
            fa_follows(old(fa), final(fa)),
            final(fa).free_count() >= old(fa).free_count() - 1,
            old(fa).free_count() >= 1 ==> r is Some,
            match r {
                Some(t) => t.wf(final(fa)) && forall|v: int| #[trigger] t.walk(v) is None,
                None => true,
            },
    {
        match fa.allocate() {
            None => None,
            Some(frame) => {
                let node = zeroed_node();
                let mut frames: Vec<u64> = Vec::new();
                frames.push(frame.0 as u64);
                let mut nodes: Vec<Vec<u64>> = Vec::new();
                nodes.push(node);
                let ghost lv = seq![0int];
                let t = PageTable { root_ppn: frame.0 as u64, frames, nodes, levels: Ghost(lv) };
                proof {
                    assert(old(fa).free().contains(frame.0 as int));
                    lemma_allocate_follows(*old(fa), *fa, frame.0 as int);
                    lemma_zero_invalid();
                    assert forall|n: int, e: int| 0 <= n < t.frames@.len() && 0 <= e < PTE_PER_NODE implies !#[trigger] t.entry(n, e).spec_valid() by {
                        assert(t.nodes@[n]@[e] == 0u64);
                    }
                    assert forall|n: int, e: int| 0 <= n < t.frames@.len() && 0 <= e < PTE_PER_NODE && t.levels@[n] < 2
                        implies #[trigger] t.child_ok(n, e) by {
                        assert(!t.entry(n, e).spec_valid());
                    }
                    assert forall|v: int| #[trigger] t.walk(v) is None by {
                        vstd::arithmetic::div_mod::lemma_mod_bound(v / 262144, 512);
                        assert(!t.entry(0, vpn_index(v, 0)).spec_valid());
                    }
                    assert(t.wf(fa));
                }
                Some(t)
            },
        }
    }
}

impl PageTable {
    /// The position of the node held in frame `p`.
    fn find_node(&self, p: u64) -> (r: Option<usize>)
        requires
            self.shape_ok(),
        ensures
            match r {
                Some(j) => j < self.frames@.len() && self.frames@[j as int] == p && self.node_index(p) == j,
                None => !self.has_node(p),
            },
    {
        let mut j: usize = 0;
        while j < self.frames.len()
            invariant
                j <= self.frames@.len(),
                self.shape_ok(),
                forall|k: int| 0 <= k < j ==> #[trigger] self.frames@[k] != p,
            decreases self.frames@.len() - j,
        {
            if self.frames[j] == p {
                proof { self.lemma_node_index(j as int); }
                return Some(j);
            }
            j += 1;
        }
        None
    }

    /// The entry that translates virtual page `vpn`; `None` when no valid one is reachable.
    pub fn translate(&self, vpn: u64) -> (r: Option<PageTableEntry>)
        requires
            self.shape_ok(),
        ensures
            r == self.walk(vpn as int),
    {
        let i0 = ((vpn / 262144) % 512) as usize;
        let i1 = ((vpn / 512) % 512) as usize;
        let i2 = (vpn % 512) as usize;
        let e0 = PageTableEntry { bits: self.nodes[0][i0] };
        if !e0.is_valid() {
            return None;
        }
        proof { assert(self.child_ok(0, i0 as int)); }
        let n1 = match self.find_node(e0.ppn()) {
            Some(n) => n,
            None => { return None; },
        };
        let e1 = PageTableEntry { bits: self.nodes[n1][i1] };
        if !e1.is_valid() {
            return None;
        }
        proof { assert(self.child_ok(n1 as int, i1 as int)); }
        let n2 = match self.find_node(e1.ppn()) {
            Some(n) => n,
            None => { return None; },
        };
        let e2 = PageTableEntry { bits: self.nodes[n2][i2] };
        if e2.is_valid() {
            Some(e2)
        } else {
            None
        }
    }

    /// The `satp` value that selects this table.
    pub fn token(&self) -> (r: u64)
        requires
            self.shape_ok(),
        ensures
            r == (8u64 << 60u64) | self.spec_root_ppn(),
    {
        token(self.root_ppn)
    }
}

impl PageTable {
    /// Writes `bits` as entry `idx` of node `n`.
    fn set_entry(&mut self, n: usize, idx: usize, bits: u64)
        requires
            n < old(self).nodes@.len(),
            idx < old(self).nodes@[n as int]@.len(),
        ensures
            final(self).frames@ == old(self).frames@,
            final(self).levels@ == old(self).levels@,
            final(self).root_ppn == old(self).root_ppn,
            final(self).nodes@.len() == old(self).nodes@.len(),
            final(self).nodes@[n as int]@ == old(self).nodes@[n as int]@.update(idx as int, bits),
            forall|m: int| 0 <= m < old(self).nodes@.len() && m != n ==> #[trigger] final(self).nodes@[m] == old(self).nodes@[m],
    {
        let mut row = self.nodes.remove(n);
        row.set(idx, bits);
        self.nodes.insert(n, row);
        proof {
            assert forall|m: int| 0 <= m < old(self).nodes@.len() && m != n implies #[trigger] self.nodes@[m] == old(self).nodes@[m] by {
                if m < n {
                    assert(self.nodes@[m] == old(self).nodes@[m]);
                } else {
                    assert(self.nodes@[m] == old(self).nodes@.remove(n as int)[m - 1]);
                }
            }
        }
    }

    /// The node that entry `idx` of node `n` points at, creating it, zeroed and in a fresh
    /// frame, when the entry is invalid. `None` when no frame is left; nothing changes then.
    #[verifier::rlimit(60)]
    fn ensure_child(&mut self, n: usize, idx: usize, fa: &mut StackFrameAllocator) -> (r: Option<usize>)
        requires
            old(self).wf(old(fa)),
            n < old(self).frames@.len(),
            old(self).level(n as int) < 2,
            idx < PTE_PER_NODE,
            forall|p: int| #[trigger] old(fa).free().contains(p) ==> p <= PPN_MASK,
        ensures
            fa_follows(old(fa), final(fa)),
            final(fa).free().subset_of(old(fa).free()),
            final(fa).free_count() >= old(fa).free_count() - 1,
            old(fa).free_count() >= 1 ==> r is Some,
            final(self).wf(final(fa)),
            final(self).spec_root_ppn() == old(self).spec_root_ppn(),
            forall|v: int| #[trigger] final(self).walk(v) == old(self).walk(v),
            final(self).frames@.len() >= old(self).frames@.len(),
            forall|j: int| 0 <= j < old(self).frames@.len() ==> #[trigger] final(self).frames@[j] == old(self).frames@[j] && final(self).level(j) == old(self).level(j),
            forall|m: int, f: int| 0 <= m < old(self).frames@.len() && 0 <= f < PTE_PER_NODE && !(m == n && f == idx)
                ==> #[trigger] final(self).entry(m, f) == old(self).entry(m, f),
            old(self).entry(n as int, idx as int).spec_valid() ==> final(self).entry(n as int, idx as int) == old(self).entry(n as int, idx as int),
            match r {
                Some(c) => {
                    &&& c < final(self).frames@.len()
                    &&& final(self).entry(n as int, idx as int).spec_valid()
                    &&& final(self).has_node(final(self).entry(n as int, idx as int).spec_ppn())
                    &&& final(self).node_index(final(self).entry(n as int, idx as int).spec_ppn()) == c
                    &&& final(self).level(c as int) == old(self).level(n as int) + 1
                },
                None => true,
            },
    {
        let e = PageTableEntry { bits: self.nodes[n][idx] };
        if e.is_valid() {
            proof { assert(self.child_ok(n as int, idx as int)); }
            return self.find_node(e.ppn());
        }
        let frame = match fa.allocate() {
            None => { return None; },
            Some(f) => f,
        };
        let ghost old_t = *self;
        let ghost old_fa = *old(fa);
        proof {
            lemma_allocate_follows(old_fa, *fa, frame.0 as int);
            assert forall|j: int| 0 <= j < old_t.frames@.len() implies #[trigger] old_t.frames@[j] != frame.0 as u64 by {
                assert(old_fa.is_allocated(old_t.frames@[j] as int));
            }
        }
        let p = frame.0 as u64;
        let pte = PageTableEntry::new(p, PTE_V);
        proof { assert((1u8 & 1u8) != 0u8) by (bit_vector); }
        self.set_entry(n, idx, pte.bits);
        self.frames.push(p);
        self.nodes.push(zeroed_node());
        let ghost lv = self.levels@.push(old_t.levels@[n as int] + 1);
        self.levels = Ghost(lv);
        let c = self.frames.len() - 1;
        proof {
            let t = *self;
            lemma_zero_invalid();
            assert(t.frames@[c as int] == p);
            assert forall|j: int| 0 <= j < old_t.frames@.len() implies #[trigger] t.frames@[j] == old_t.frames@[j] && t.level(j) == old_t.level(j) by {
            }
            assert forall|m: int, f: int| 0 <= m < old_t.frames@.len() && 0 <= f < PTE_PER_NODE && !(m == n && f == idx)
                implies #[trigger] t.entry(m, f) == old_t.entry(m, f) by {
                if m == n {
                    assert(t.nodes@[m]@[f] == old_t.nodes@[m]@[f]);
                } else {
                    assert(t.nodes@[m] == old_t.nodes@[m]);
                }
            }
            assert forall|f: int| 0 <= f < PTE_PER_NODE implies !#[trigger] t.entry(c as int, f).spec_valid() by {
                assert(t.nodes@[c as int]@[f] == 0u64);
            }
            // old frames keep their positions
            assert forall|j: int| 0 <= j < old_t.frames@.len() implies t.has_node(old_t.frames@[j]) && t.node_index(old_t.frames@[j]) == j by {
                let k = t.node_index(old_t.frames@[j]);
                assert(t.frames@[j] == old_t.frames@[j]);
                if k != j {
                    if k == c {
                        assert(old_t.frames@[j] != p);
                    } else {
                        assert(old_t.frames@[k] != old_t.frames@[j]);
                    }
                }
            }
            assert(t.has_node(p));
            assert(t.node_index(p) == c) by {
                let k = t.node_index(p);
                if k != c {
                    assert(old_t.frames@[k] != p);
                }
            }
            assert forall|a: int, b: int| 0 <= a < t.frames@.len() && 0 <= b < t.frames@.len() && a != b
                implies #[trigger] t.frames@[a] != #[trigger] t.frames@[b] by {
                if a < old_t.frames@.len() && b < old_t.frames@.len() {
                    assert(old_t.frames@[a] != old_t.frames@[b]);
                }
            }
            // every valid entry above the leaves points at a node one level down
            assert forall|m: int, f: int| 0 <= m < t.frames@.len() && 0 <= f < PTE_PER_NODE && t.levels@[m] < 2
                implies #[trigger] t.child_ok(m, f) by {
                if m < old_t.frames@.len() && !(m == n && f == idx) {
                    assert(old_t.child_ok(m, f));
                    if old_t.entry(m, f).spec_valid() {
                        let q = old_t.entry(m, f).spec_ppn();
                        let k = old_t.node_index(q);
                        assert(old_t.frames@[k] == q);
                    }
                }
            }
            // distinct entries above the leaves point at distinct nodes
            assert forall|m1: int, f1: int, m2: int, f2: int|
                0 <= m1 < t.frames@.len() && 0 <= f1 < PTE_PER_NODE && t.levels@[m1] < 2
                && 0 <= m2 < t.frames@.len() && 0 <= f2 < PTE_PER_NODE && t.levels@[m2] < 2
                && #[trigger] t.entry(m1, f1).spec_valid() && #[trigger] t.entry(m2, f2).spec_valid()
                && t.entry(m1, f1).spec_ppn() == t.entry(m2, f2).spec_ppn()
                implies m1 == m2 && f1 == f2 by {
                let new1 = m1 == n && f1 == idx;
                let new2 = m2 == n && f2 == idx;
                if !new1 && !new2 {
                    assert(old_t.entry(m1, f1).spec_valid() && old_t.entry(m2, f2).spec_valid());
                } else if new1 && !new2 {
                    assert(old_t.child_ok(m2, f2));
                    let k = old_t.node_index(old_t.entry(m2, f2).spec_ppn());
                    assert(old_t.frames@[k] != p);
                } else if !new1 && new2 {
                    assert(old_t.child_ok(m1, f1));
                    let k = old_t.node_index(old_t.entry(m1, f1).spec_ppn());
                    assert(old_t.frames@[k] != p);
                }
            }
            assert forall|j: int| 0 <= j < t.frames@.len() implies fa.is_allocated(#[trigger] t.frames@[j] as int) by {
                if j < old_t.frames@.len() {
                    assert(old_fa.is_allocated(old_t.frames@[j] as int));
                }
            }
            assert forall|j: int| 0 <= j < t.frames@.len() implies #[trigger] t.frames@[j] <= PPN_MASK by {
                if j == c {
                    assert(old_fa.free().contains(frame.0 as int));
                }
            }
            assert(t.shape_ok());
            // the walk of every page is as it was
            assert forall|v: int| #[trigger] t.walk(v) == old_t.walk(v) by {
                let i0 = vpn_index(v, 0);
                let i1 = vpn_index(v, 1);
                let i2 = vpn_index(v, 2);
                vstd::arithmetic::div_mod::lemma_mod_bound(v / 262144, 512);
                vstd::arithmetic::div_mod::lemma_mod_bound(v / 512, 512);
                vstd::arithmetic::div_mod::lemma_mod_bound(v, 512);
                if n == 0 && i0 == idx {
                    assert(!old_t.entry(0, i0).spec_valid());
                } else {
                    assert(t.entry(0, i0) == old_t.entry(0, i0));
                    let e0 = old_t.entry(0, i0);
                    if e0.spec_valid() {
                        assert(old_t.child_ok(0, i0));
                        let n1 = old_t.node_index(e0.spec_ppn());
                        assert(t.node_index(e0.spec_ppn()) == n1);
                        if n1 == n && i1 == idx {
                            assert(!old_t.entry(n1, i1).spec_valid());
                        } else {
                            assert(t.entry(n1, i1) == old_t.entry(n1, i1));
                            let e1 = old_t.entry(n1, i1);
                            if e1.spec_valid() {
                                assert(old_t.child_ok(n1, i1));
                                let n2 = old_t.node_index(e1.spec_ppn());
                                assert(t.node_index(e1.spec_ppn()) == n2);
                                assert(old_t.levels@[n2] == 2);
                                assert(t.entry(n2, i2) == old_t.entry(n2, i2));
                            }
                        }
                    }
                }
            }
        }
        Some(c)
    }
}

proof fn lemma_vpn_from_indexes(v: int, w: int)
    requires
        0 <= v < VPN_LIMIT,
        0 <= w < VPN_LIMIT,
        vpn_index(v, 0) == vpn_index(w, 0),
        vpn_index(v, 1) == vpn_index(w, 1),
        vpn_index(v, 2) == vpn_index(w, 2),
    ensures
        v == w,
{
    vstd::arithmetic::div_mod::lemma_fundamental_div_mod(v, 512);
    vstd::arithmetic::div_mod::lemma_fundamental_div_mod(w, 512);
    vstd::arithmetic::div_mod::lemma_fundamental_div_mod(v / 512, 512);
    vstd::arithmetic::div_mod::lemma_fundamental_div_mod(w / 512, 512);
    vstd::arithmetic::div_mod::lemma_div_denominator(v, 512, 512);
    vstd::arithmetic::div_mod::lemma_div_denominator(w, 512, 512);
    vstd::arithmetic::div_mod::lemma_div_by_multiple_is_strongly_ordered(v, VPN_LIMIT as int, 512, 262144);
    vstd::arithmetic::div_mod::lemma_div_pos_is_pos(v, 262144);
    vstd::arithmetic::div_mod::lemma_div_pos_is_pos(w, 262144);
    assert(v / 262144 < 512) by {
        vstd::arithmetic::div_mod::lemma_div_is_ordered(v, VPN_LIMIT as int - 1, 262144);
    }
    assert(w / 262144 < 512) by {
        vstd::arithmetic::div_mod::lemma_div_is_ordered(w, VPN_LIMIT as int - 1, 262144);
    }
    vstd::arithmetic::div_mod::lemma_small_mod((v / 262144) as nat, 512);
    vstd::arithmetic::div_mod::lemma_small_mod((w / 262144) as nat, 512);
}

impl PageTable {
    /// Writing a leaf entry changes the walk of the one page whose path ends there.
    proof fn lemma_leaf_write(old_t: PageTable, t: PageTable, vpn: int, n2: int, bits: u64)
        requires
            old_t.shape_ok(),
            0 <= vpn < VPN_LIMIT,
            0 <= n2 < old_t.frames@.len(),
            old_t.level(n2) == 2,
            old_t.entry(0, vpn_index(vpn, 0)).spec_valid(),
            old_t.entry(old_t.node_index(old_t.entry(0, vpn_index(vpn, 0)).spec_ppn()), vpn_index(vpn, 1)).spec_valid(),
            old_t.node_index(old_t.entry(old_t.node_index(old_t.entry(0, vpn_index(vpn, 0)).spec_ppn()), vpn_index(vpn, 1)).spec_ppn()) == n2,
            t.frames@ == old_t.frames@,
            t.levels@ == old_t.levels@,
            t.root_ppn == old_t.root_ppn,
            t.nodes@.len() == old_t.nodes@.len(),
            t.nodes@[n2]@ == old_t.nodes@[n2]@.update(vpn_index(vpn, 2), bits),
            forall|m: int| 0 <= m < old_t.nodes@.len() && m != n2 ==> #[trigger] t.nodes@[m] == old_t.nodes@[m],
        ensures
            t.shape_ok(),
            t.walk(vpn) == (if (PageTableEntry { bits }).spec_valid() { Some(PageTableEntry { bits }) } else { None }),
            forall|v: int| 0 <= v < VPN_LIMIT && v != vpn ==> #[trigger] t.walk(v) == old_t.walk(v),
    {
        let i2 = vpn_index(vpn, 2);
        vstd::arithmetic::div_mod::lemma_mod_bound(vpn, 512);
        assert forall|m: int, f: int| 0 <= m < t.frames@.len() && 0 <= f < PTE_PER_NODE && m != n2
            implies #[trigger] t.entry(m, f) == old_t.entry(m, f) by {
            assert(t.nodes@[m] == old_t.nodes@[m]);
        }
        assert forall|f: int| 0 <= f < PTE_PER_NODE && f != i2 implies #[trigger] t.entry(n2, f) == old_t.entry(n2, f) by {
        }
        assert(t.node_index(t.frames@[0]) == old_t.node_index(old_t.frames@[0]));
        assert forall|p: u64| #[trigger] t.node_index(p) == old_t.node_index(p) && t.has_node(p) == old_t.has_node(p) by {
        }
        assert forall|m: int, f: int| 0 <= m < t.frames@.len() && 0 <= f < PTE_PER_NODE && t.levels@[m] < 2
            implies #[trigger] t.child_ok(m, f) by {
            assert(old_t.child_ok(m, f));
        }
        assert forall|m1: int, f1: int, m2: int, f2: int|
            0 <= m1 < t.frames@.len() && 0 <= f1 < PTE_PER_NODE && t.levels@[m1] < 2
            && 0 <= m2 < t.frames@.len() && 0 <= f2 < PTE_PER_NODE && t.levels@[m2] < 2
            && #[trigger] t.entry(m1, f1).spec_valid() && #[trigger] t.entry(m2, f2).spec_valid()
            && t.entry(m1, f1).spec_ppn() == t.entry(m2, f2).spec_ppn()
            implies m1 == m2 && f1 == f2 by {
            assert(old_t.entry(m1, f1).spec_valid() && old_t.entry(m2, f2).spec_valid());
        }
        assert forall|j: int| 0 <= j < t.frames@.len() implies (#[trigger] t.nodes@[j])@.len() == PTE_PER_NODE by {
            assert(old_t.nodes@[j]@.len() == PTE_PER_NODE);
        }
        assert(t.shape_ok());
        let e0 = old_t.entry(0, vpn_index(vpn, 0));
        let n1 = old_t.node_index(e0.spec_ppn());
        vstd::arithmetic::div_mod::lemma_mod_bound(vpn / 262144, 512);
        vstd::arithmetic::div_mod::lemma_mod_bound(vpn / 512, 512);
        assert(old_t.child_ok(0, vpn_index(vpn, 0)));
        assert(old_t.levels@[n1] == 1);
        assert(t.entry(0, vpn_index(vpn, 0)) == e0);
        assert(t.entry(n1, vpn_index(vpn, 1)) == old_t.entry(n1, vpn_index(vpn, 1)));
        assert(t.entry(n2, i2) == PageTableEntry { bits });
        assert forall|v: int| 0 <= v < VPN_LIMIT && v != vpn implies #[trigger] t.walk(v) == old_t.walk(v) by {
            vstd::arithmetic::div_mod::lemma_mod_bound(v / 262144, 512);
            vstd::arithmetic::div_mod::lemma_mod_bound(v / 512, 512);
            vstd::arithmetic::div_mod::lemma_mod_bound(v, 512);
            let f0 = old_t.entry(0, vpn_index(v, 0));
            assert(t.entry(0, vpn_index(v, 0)) == f0);
            if f0.spec_valid() {
                assert(old_t.child_ok(0, vpn_index(v, 0)));
                let m1 = old_t.node_index(f0.spec_ppn());
                assert(old_t.levels@[m1] == 1);
                let f1 = old_t.entry(m1, vpn_index(v, 1));
                assert(t.entry(m1, vpn_index(v, 1)) == f1);
                if f1.spec_valid() {
                    assert(old_t.child_ok(m1, vpn_index(v, 1)));
                    let m2 = old_t.node_index(f1.spec_ppn());
                    if m2 == n2 && vpn_index(v, 2) == i2 {
                        let g1 = old_t.entry(n1, vpn_index(vpn, 1));
                        assert(old_t.child_ok(n1, vpn_index(vpn, 1)));
                        assert(old_t.frames@[m2] == f1.spec_ppn());
                        assert(old_t.frames@[n2] == g1.spec_ppn());
                        assert(m1 == n1 && vpn_index(v, 1) == vpn_index(vpn, 1));
                        assert(old_t.frames@[m1] == f0.spec_ppn());
                        assert(old_t.frames@[n1] == e0.spec_ppn());
                        assert(vpn_index(v, 0) == vpn_index(vpn, 0));
                        lemma_vpn_from_indexes(v, vpn);
                    }
                    if m2 != n2 {
                        assert(t.entry(m2, vpn_index(v, 2)) == old_t.entry(m2, vpn_index(v, 2)));
                    }
                }
            }
        }
    }

    /// Maps virtual page `vpn` to physical page `ppn` with `flags` (made valid), creating the
    /// index nodes on the way in fresh frames. `vpn` must not be mapped. It takes at most two
    /// frames, and succeeds whenever two are free; otherwise it may return `false`, with
    /// every mapping as it was.
    pub fn map(&mut self, vpn: u64, ppn: u64, flags: u8, fa: &mut StackFrameAllocator) -> (r: bool)
        requires
            old(self).wf(old(fa)),
            vpn < VPN_LIMIT,
            ppn <= PPN_MASK,
            old(self).walk(vpn as int) is None,
            forall|p: int| #[trigger] old(fa).free().contains(p) ==> p <= PPN_MASK,
        ensures
            fa_follows(old(fa), final(fa)),
            forall|p: int| #[trigger] final(fa).free().contains(p) ==> p <= PPN_MASK,
            final(fa).free_count() >= old(fa).free_count() - 2,
            old(fa).free_count() >= 2 ==> r,
            final(self).wf(final(fa)),
            r ==> (final(self).walk(vpn as int) matches Some(e) && e.spec_ppn() == ppn && e.spec_flags() == (flags | PTE_V)),
            !r ==> final(self).walk(vpn as int) is None,
            forall|v: int| 0 <= v < VPN_LIMIT && v != vpn ==> #[trigger] final(self).walk(v) == old(self).walk(v),
    {
        let i0 = ((vpn / 262144) % 512) as usize;
        let i1 = ((vpn / 512) % 512) as usize;
        let i2 = (vpn % 512) as usize;
        proof {
            assert(self.levels@[0] == 0);
        }
        let n1 = match self.ensure_child(0, i0, fa) {
            None => { return false; },
            Some(c) => c,
        };
        let ghost t1 = *self;
        let n2 = match self.ensure_child(n1, i1, fa) {
            None => { return false; },
            Some(c) => c,
        };
        let ghost t2 = *self;
        proof {
            assert(t2.entry(0, i0 as int) == t1.entry(0, i0 as int));
            assert(t2.frames@[n1 as int] == t1.frames@[n1 as int]);
            t1.lemma_node_index(n1 as int);
            t2.lemma_node_index(n1 as int);
            assert((flags | PTE_V) & PTE_V != 0) by (bit_vector);
        }
        let pte = PageTableEntry::new(ppn, flags | PTE_V);
        self.set_entry(n2, i2, pte.bits);
        proof {
            Self::lemma_leaf_write(t2, *self, vpn as int, n2 as int, pte.bits);
            assert forall|j: int| 0 <= j < self.frames@.len() implies fa.is_allocated(#[trigger] self.frames@[j] as int) by {
                assert(t2.wf(fa));
            }
        }
        true
    }

    /// Removes the mapping of virtual page `vpn`, which must be mapped.
    pub fn unmap(&mut self, vpn: u64)
        requires
            old(self).shape_ok(),
            vpn < VPN_LIMIT,
            old(self).walk(vpn as int) is Some,
        ensures
            final(self).shape_ok(),
            final(self).walk(vpn as int) is None,
            forall|v: int| 0 <= v < VPN_LIMIT && v != vpn ==> #[trigger] final(self).walk(v) == old(self).walk(v),
            forall|fa: StackFrameAllocator| #[trigger] old(self).wf(&fa) ==> final(self).wf(&fa),
    {
        let i0 = ((vpn / 262144) % 512) as usize;
        let i1 = ((vpn / 512) % 512) as usize;
        let i2 = (vpn % 512) as usize;
        let e0 = PageTableEntry { bits: self.nodes[0][i0] };
        proof { assert(self.child_ok(0, i0 as int)); }
        let n1 = self.find_node(e0.ppn()).unwrap();
        let e1 = PageTableEntry { bits: self.nodes[n1][i1] };
        proof {
            assert(self.levels@[n1 as int] == 1);
            assert(self.child_ok(n1 as int, i1 as int));
        }
        let n2 = self.find_node(e1.ppn()).unwrap();
        let ghost t0 = *self;
        proof { lemma_zero_invalid(); }
        self.set_entry(n2, i2, 0);
        proof {
            Self::lemma_leaf_write(t0, *self, vpn as int, n2 as int, 0);
            assert forall|fa: StackFrameAllocator| #[trigger] t0.wf(&fa) implies self.wf(&fa) by {
                assert forall|j: int| 0 <= j < self.frames@.len() implies fa.is_allocated(#[trigger] self.frames@[j] as int) by {
                    assert(t0.frames@[j] == self.frames@[j]);
                }
            }
        }
    }
}

impl PageTable {
    /// A sound table has a sound shape.
    pub proof fn lemma_wf_shape(&self, fa: &StackFrameAllocator)
        requires
            self.wf(fa),
        ensures
            self.shape_ok(),
    {
    }

    /// The table stays sound when the allocator moves on without taking back its frames.
    pub proof fn lemma_wf_follows(&self, a: &StackFrameAllocator, b: &StackFrameAllocator)
        requires
            self.wf(a),
            b.wf(),
            forall|x: int| #[trigger] a.is_allocated(x) ==> b.is_allocated(x),
        ensures
            self.wf(b),
    {
        assert forall|j: int| 0 <= j < self.frames@.len() implies b.is_allocated(#[trigger] self.frames@[j] as int) by {
            assert(a.is_allocated(self.frames@[j] as int));
        }
    }
}

/// The physical address of virtual address `va` under `walk`: the frame of its page plus
/// its offset in the page.
pub open spec fn spec_translate_va(t: PageTable, va: int) -> Option<int> {
    match t.walk((va % 0x80_0000_0000) / 4096) {
        Some(e) => Some(e.spec_ppn() * 4096 + va % 4096),
        None => None,
    }
}

impl PageTable {
    /// The physical address that virtual address `va` translates to.
    pub fn translate_va(&self, va: u64) -> (r: Option<u64>)
        requires
            self.shape_ok(),
        ensures
            match r {
                Some(pa) => spec_translate_va(*self, va as int) == Some(pa as int),
                None => spec_translate_va(*self, va as int) is None,
            },
    {
        let vpn = (va % 0x80_0000_0000) / 4096;
        proof {
            vstd::arithmetic::div_mod::lemma_mod_bound(va as int, 0x80_0000_0000);
        }
        match self.translate(vpn) {
            Some(e) => {
                let ppn = e.ppn();
                let ghost b = e.bits;
                proof {
                    assert(ppn <= PPN_MASK) by (bit_vector)
                        requires ppn == (b >> 10u64) & 0xfff_ffff_ffffu64;
                }
                Some(ppn * 4096 + va % 4096)
            },
            None => None,
        }
    }
}

/// Splits the user range `[start, start + len)` at page boundaries: the pieces, in order,
/// as `(virtual start, length)`, each inside one page.
pub fn user_buffer_pieces(start: u64, len: u64) -> (r: Vec<(u64, u64)>)
    requires
        start + len <= u64::MAX,
    ensures
        forall|i: int| 0 <= i < r@.len() ==> {
            &&& (#[trigger] r@[i]).1 > 0
            &&& r@[i].0 % 4096 + r@[i].1 <= 4096
        },
        forall|i: int| 0 <= i && i + 1 < r@.len() ==> (#[trigger] r@[i]).0 + r@[i].1 == r@[i + 1].0,
        r@.len() > 0 ==> r@[0].0 == start && r@.last().0 + r@.last().1 == start + len,
        r@.len() == 0 <==> len == 0,
{
    let end = start + len;
    let mut v: Vec<(u64, u64)> = Vec::new();
    let mut cur = start;
    while cur < end
        invariant
            start <= cur <= end,
            end == start + len,
            forall|i: int| 0 <= i < v@.len() ==> {
                &&& (#[trigger] v@[i]).1 > 0
                &&& v@[i].0 % 4096 + v@[i].1 <= 4096
            },
            forall|i: int| 0 <= i && i + 1 < v@.len() ==> (#[trigger] v@[i]).0 + v@[i].1 == v@[i + 1].0,
            v@.len() > 0 ==> v@[0].0 == start && v@.last().0 + v@.last().1 == cur,
            v@.len() == 0 <==> cur == start,
        decreases end - cur,
    {
        proof {
            vstd::arithmetic::div_mod::lemma_mod_bound(cur as int, 4096);
        }
        let room = 4096 - cur % 4096;
        let piece_end = if room < end - cur { cur + room } else { end };
        let ghost v0 = v@;
        v.push((cur, piece_end - cur));
        proof {
            assert(v@[v@.len() - 1] == (cur, (piece_end - cur) as u64));
            assert forall|i: int| 0 <= i && i + 1 < v@.len() implies (#[trigger] v@[i]).0 + v@[i].1 == v@[i + 1].0 by {
                if i + 1 < v0.len() {
                    assert(v@[i] == v0[i] && v@[i + 1] == v0[i + 1]);
                } else {
                    assert(v@[i] == v0[i]);
                }
            }
            assert forall|i: int| 0 <= i < v@.len() implies {
                &&& (#[trigger] v@[i]).1 > 0
                &&& v@[i].0 % 4096 + v@[i].1 <= 4096
            } by {
                if i < v0.len() {
                    assert(v@[i] == v0[i]);
                }
            }
        }
        cur = piece_end;
    }
    v
}

/// `pieces` cut `[start, start + len)` in order into non-empty runs, each inside one page.
pub open spec fn pieces_cover(pieces: Seq<(u64, u64)>, start: u64, len: u64) -> bool {
    &&& forall|i: int| 0 <= i < pieces.len() ==> (#[trigger] pieces[i]).1 > 0 && pieces[i].0 % 4096 + pieces[i].1 <= 4096
    &&& forall|i: int| 0 <= i && i + 1 < pieces.len() ==> (#[trigger] pieces[i]).0 + pieces[i].1 == pieces[i + 1].0
    &&& pieces.len() > 0 ==> pieces[0].0 == start && pieces.last().0 + pieces.last().1 == start + len
    &&& pieces.len() == 0 <==> len == 0
}

/// The user range `[start, start + len)` as physical pieces, one per page it touches: each
/// piece's physical start is where its virtual start translates. `None` when a page of the
/// range is not mapped.
pub fn translated_byte_buffer(table: &PageTable, start: u64, len: u64) -> (r: Option<Vec<(u64, u64)>>)
    requires
        table.shape_ok(),
        start + len <= u64::MAX,
    ensures
        match r {
            Some(v) => exists|pieces: Seq<(u64, u64)>| #[trigger] pieces_cover(pieces, start, len) && {
                &&& pieces.len() == v@.len()
                &&& forall|i: int| 0 <= i < v@.len() ==> spec_translate_va(*table, (#[trigger] pieces[i]).0 as int) == Some(v@[i].0 as int)
                    && v@[i].1 == pieces[i].1
            },
            None => exists|a: int| start <= a < start + len && #[trigger] spec_translate_va(*table, a) is None,
        },
{
    let pieces = user_buffer_pieces(start, len);
    let mut v: Vec<(u64, u64)> = Vec::new();
    let mut i: usize = 0;
    while i < pieces.len()
        invariant
            i <= pieces@.len(),
            table.shape_ok(),
            v@.len() == i,
            start + len <= u64::MAX,
            forall|j: int| 0 <= j < pieces@.len() ==> (#[trigger] pieces@[j]).1 > 0 && pieces@[j].0 % 4096 + pieces@[j].1 <= 4096,
            forall|j: int| 0 <= j && j + 1 < pieces@.len() ==> (#[trigger] pieces@[j]).0 + pieces@[j].1 == pieces@[j + 1].0,
            pieces@.len() > 0 ==> pieces@[0].0 == start && pieces@.last().0 + pieces@.last().1 == start + len,
            pieces@.len() == 0 <==> len == 0,
            forall|j: int| 0 <= j < i ==> spec_translate_va(*table, (#[trigger] pieces@[j]).0 as int) == Some(v@[j].0 as int)
                && v@[j].1 == pieces@[j].1,
        decreases pieces@.len() - i,
    {
        let (va, n) = pieces[i];
        match table.translate_va(va) {
            Some(pa) => {
                let ghost v0 = v@;
                v.push((pa, n));
                proof {
                    assert forall|j: int| 0 <= j < i + 1 implies spec_translate_va(*table, (#[trigger] pieces@[j]).0 as int) == Some(v@[j].0 as int)
                        && v@[j].1 == pieces@[j].1 by {
                        if j < i {
                            assert(v@[j] == v0[j]);
                        }
                    }
                }
            },
            None => {
                proof {
                    lemma_piece_in_range(pieces@, i as int, start, len);
                    assert(spec_translate_va(*table, va as int) is None);
                }
                return None;
            },
        }
        i += 1;
    }
    assert(pieces_cover(pieces@, start, len));
    Some(v)
}

/// Each piece starts inside the range it was cut from.
proof fn lemma_piece_in_range(pieces: Seq<(u64, u64)>, i: int, start: u64, len: u64)
    requires
        0 <= i < pieces.len(),
        forall|j: int| 0 <= j < pieces.len() ==> (#[trigger] pieces[j]).1 > 0,
        forall|j: int| 0 <= j && j + 1 < pieces.len() ==> (#[trigger] pieces[j]).0 + pieces[j].1 == pieces[j + 1].0,
        pieces[0].0 == start,
        pieces.last().0 + pieces.last().1 == start + len,
    ensures
        start <= pieces[i].0 < start + len,
    decreases pieces.len() - i,
{
    if i + 1 < pieces.len() {
        lemma_piece_in_range(pieces, i + 1, start, len);
        lemma_piece_lower(pieces, i, start);
    } else {
        lemma_piece_lower(pieces, i, start);
    }
}

proof fn lemma_piece_lower(pieces: Seq<(u64, u64)>, i: int, start: u64)
    requires
        0 <= i < pieces.len(),
        forall|j: int| 0 <= j < pieces.len() ==> (#[trigger] pieces[j]).1 > 0,
        forall|j: int| 0 <= j && j + 1 < pieces.len() ==> (#[trigger] pieces[j]).0 + pieces[j].1 == pieces[j + 1].0,
        pieces[0].0 == start,
    ensures
        start <= pieces[i].0,
    decreases i,
{
    if i > 0 {
        lemma_piece_lower(pieces, i - 1, start);
    }
}

/// The allocator afterwards keeps everything handed out before handed out.
pub open spec fn fa_follows(a: &StackFrameAllocator, b: &StackFrameAllocator) -> bool {
    &&& b.wf()
    &&& b.free().subset_of(a.free())
    &&& forall|x: int| #[trigger] a.is_allocated(x) ==> b.is_allocated(x)
}

proof fn lemma_allocate_follows(a: StackFrameAllocator, b: StackFrameAllocator, p: int)
    requires
        a.wf(),
        b.wf(),
        a.free().contains(p),
        b.free() == a.free().remove(p),
        b.spec_current() >= a.spec_current(),
    ensures
        fa_follows(&a, &b),
        !a.is_allocated(p),
{
    assert forall|x: int| #[trigger] a.is_allocated(x) implies b.is_allocated(x) by {
        a.lemma_allocated_iff_not_free(x);
        b.lemma_allocated_iff_not_free(x);
    }
    if p < a.spec_current() && p >= 0 {
        a.lemma_allocated_iff_not_free(p);
    }
}

proof fn lemma_zero_invalid()
    ensures
        !(PageTableEntry { bits: 0u64 }).spec_valid(),
{
    assert(((0u64 & 0xff) as u8) & 1u8 == 0u8) by (bit_vector);
}

/// A node of zero entries.
fn zeroed_node() -> (r: Vec<u64>)
    ensures
        r@.len() == PTE_PER_NODE,
        forall|e: int| 0 <= e < PTE_PER_NODE ==> #[trigger] r@[e] == 0u64,
{
    let mut v: Vec<u64> = Vec::new();
    let mut k: usize = 0;
    while k < PTE_PER_NODE
        invariant
            k <= PTE_PER_NODE,
            v@.len() == k,
            forall|e: int| 0 <= e < k ==> #[trigger] v@[e] == 0u64,
        decreases PTE_PER_NODE - k,
    {
        v.push(0u64);
        k += 1;
    }
    v
}

} // verus!
