use vstd::prelude::*;

verus! {

/// A physical page number.
#[derive(PartialEq, Eq, Structural, Clone, Copy, Debug)]
pub struct PhysPageNum(pub usize);

/// Hands out physical page numbers from `[current, end)`, reusing freed ones first, the
/// most recently freed first.
pub struct StackFrameAllocator {
    current: usize,
    end: usize,
    recycled: Vec<usize>,
}

/// The page numbers that a `(current, end, recycled)` state can hand out.
pub open spec fn free_set(current: int, end: int, recycled: Seq<usize>) -> Set<int> {
    Set::new(|p: int| (current <= p < end) || exists|i: int| 0 <= i < recycled.len() && #[trigger] recycled[i] == p)
}

impl StackFrameAllocator {
    pub closed spec fn spec_current(&self) -> int {
        self.current as int
    }

    pub closed spec fn spec_end(&self) -> int {
        self.end as int
    }

    pub closed spec fn spec_recycled(&self) -> Seq<usize> {
        self.recycled@
    }

    /// The page numbers that can be handed out.
    pub open spec fn free(&self) -> Set<int> {
        free_set(self.spec_current(), self.spec_end(), self.spec_recycled())
    }

    /// Number of pages that can be handed out.
    pub open spec fn free_count(&self) -> int {
        (self.spec_end() - self.spec_current()) + self.spec_recycled().len()
    }

    /// Freed pages were handed out before, and each is held once.
    pub open spec fn wf(&self) -> bool {
        &&& self.spec_current() <= self.spec_end()
        &&& self.spec_recycled().no_duplicates()
        &&& forall|i: int| 0 <= i < self.spec_recycled().len() ==> #[trigger] self.spec_recycled()[i] < self.spec_current()
    }

    /// Whether `ppn` is handed out now.
    pub open spec fn is_allocated(&self, ppn: int) -> bool {
        0 <= ppn < self.spec_current() && !self.spec_recycled().contains(ppn as usize)
    }

    /// An allocator with nothing to hand out.
    pub fn new() -> (r: Self)
        ensures
            r.wf(),
            r.spec_current() == 0,
            r.spec_end() == 0,
            r.spec_recycled() == Seq::<usize>::empty(),
    {
        StackFrameAllocator { current: 0, end: 0, recycled: Vec::new() }
    }

    /// Makes `[l, r)` the range to hand out.
    pub fn init(&mut self, l: PhysPageNum, r: PhysPageNum)
        requires
            l.0 <= r.0,
        ensures
            final(self).spec_current() == l.0,
            final(self).spec_end() == r.0,
            final(self).spec_recycled() == old(self).spec_recycled(),
    {
        self.current = l.0;
        self.end = r.0;
    }

    /// Hands out a page: the most recently freed one if any, else the lowest never handed
    /// out; `None` when none is left.
    pub fn allocate(&mut self) -> (r: Option<PhysPageNum>)
        requires
            old(self).wf(),
        ensures
            final(self).wf(),
            final(self).spec_end() == old(self).spec_end(),
            r is None <==> old(self).free_count() == 0,
            r is Some ==> final(self).free_count() == old(self).free_count() - 1,
            match r {
                Some(p) => {
                    &&& old(self).free().contains(p.0 as int)
                    &&& final(self).free() == old(self).free().remove(p.0 as int)
                    &&& final(self).is_allocated(p.0 as int)
                    &&& if old(self).spec_recycled().len() > 0 {
                        &&& p.0 == old(self).spec_recycled().last()
                        &&& final(self).spec_recycled() == old(self).spec_recycled().drop_last()
                        &&& final(self).spec_current() == old(self).spec_current()
                    } else {
                        &&& p.0 == old(self).spec_current()
                        &&& final(self).spec_recycled() == old(self).spec_recycled()
                        &&& final(self).spec_current() == old(self).spec_current() + 1
                    }
                },
                None => {
                    &&& old(self).free() == Set::<int>::empty()
                    &&& final(self).spec_current() == old(self).spec_current()
                    &&& final(self).spec_recycled() == old(self).spec_recycled()
                },
            },
    {
        let ghost f0 = self.free();
        let ghost rec = self.recycled@;
        if let Some(ppn) = self.recycled.pop() {
            proof {
                assert(rec.drop_last() == self.recycled@);
                assert(rec[rec.len() - 1] == ppn);
                assert forall|i: int| 0 <= i < self.recycled@.len() implies #[trigger] self.recycled@[i] < self.current by {
                    assert(rec[i] == self.recycled@[i]);
                }
                assert forall|i: int| 0 <= i < self.recycled@.len() implies #[trigger] self.recycled@[i] != ppn by {
                    assert(rec[i] == self.recycled@[i]);
                    assert(rec[i] != rec[rec.len() - 1]);
                }
                assert forall|p: int| #[trigger] self.free().contains(p) == f0.remove(ppn as int).contains(p) by {
                    if exists|i: int| 0 <= i < rec.len() && #[trigger] rec[i] == p {
                        let i = choose|i: int| 0 <= i < rec.len() && #[trigger] rec[i] == p;
                        if p != ppn {
                            assert(i != rec.len() - 1);
                            assert(self.recycled@[i] == p);
                        }
                    }
                    if exists|i: int| 0 <= i < self.recycled@.len() && #[trigger] self.recycled@[i] == p {
                        let i = choose|i: int| 0 <= i < self.recycled@.len() && #[trigger] self.recycled@[i] == p;
                        assert(rec[i] == p);
                    }
                }
                assert(self.free() =~= f0.remove(ppn as int));
                assert(f0.contains(ppn as int));
                assert forall|i: int, j: int| 0 <= i < j < self.recycled@.len() implies self.recycled@[i] != self.recycled@[j] by {
                    assert(rec[i] != rec[j]);
                }
                assert(self.wf());
                assert(!self.recycled@.contains(ppn));
            }
            Some(PhysPageNum(ppn))
        } else if self.current == self.end {
            proof {
                assert(self.recycled@ =~= Seq::<usize>::empty());
                assert(self.free() =~= Set::<int>::empty());
            }
            None
        } else {
            self.current += 1;
            proof {
                assert(f0.contains(self.current - 1));
                assert forall|p: int| #[trigger] self.free().contains(p) == f0.remove(self.current - 1).contains(p) by {
                }
                assert(self.free() =~= f0.remove(self.current - 1));
                assert(self.recycled@ == rec);
                assert(rec.len() == 0);
                assert(!self.recycled@.contains((self.current - 1) as usize));
                assert(self.wf());
            }
            Some(PhysPageNum(self.current - 1))
        }
    }

    /// Takes back page `ppn`, which must be handed out now.
    pub fn dealloc(&mut self, ppn: PhysPageNum)
        requires
            old(self).wf(),
            old(self).is_allocated(ppn.0 as int),
        ensures
            final(self).wf(),
            final(self).spec_end() == old(self).spec_end(),
            final(self).spec_current() == old(self).spec_current(),
            final(self).spec_recycled() == old(self).spec_recycled().push(ppn.0),
            final(self).free() == old(self).free().insert(ppn.0 as int),
            final(self).free_count() == old(self).free_count() + 1,
            !final(self).is_allocated(ppn.0 as int),
    {
        let ghost f0 = self.free();
        let ghost rec = self.recycled@;
        let ppn = ppn.0;
        self.recycled.push(ppn);
        proof {
            assert(self.recycled@[rec.len() as int] == ppn);
            assert forall|i: int| 0 <= i < self.recycled@.len() implies #[trigger] self.recycled@[i] < self.current by {
                if i < rec.len() {
                    assert(self.recycled@[i] == rec[i]);
                }
            }
            assert forall|i: int, j: int| 0 <= i < j < self.recycled@.len() implies self.recycled@[i] != self.recycled@[j] by {
                if j < rec.len() {
                    assert(rec[i] != rec[j]);
                } else {
                    assert(self.recycled@[i] == rec[i]);
                    assert(rec.contains(rec[i]));
                }
            }
            assert forall|p: int| #[trigger] self.free().contains(p) == f0.insert(ppn as int).contains(p) by {
                if exists|i: int| 0 <= i < rec.len() && #[trigger] rec[i] == p {
                    let i = choose|i: int| 0 <= i < rec.len() && #[trigger] rec[i] == p;
                    assert(self.recycled@[i] == p);
                }
                if exists|i: int| 0 <= i < self.recycled@.len() && #[trigger] self.recycled@[i] == p {
                    let i = choose|i: int| 0 <= i < self.recycled@.len() && #[trigger] self.recycled@[i] == p;
                    if i < rec.len() {
                        assert(rec[i] == p);
                    }
                }
            }
            assert(self.free() =~= f0.insert(ppn as int));
            assert(self.recycled@.contains(ppn));
        }
    }
}

impl StackFrameAllocator {
    /// Below `current`, a page is handed out exactly when it is not free.
    pub proof fn lemma_allocated_iff_not_free(&self, x: int)
        requires
            self.wf(),
            0 <= x < self.spec_current(),
        ensures
            self.is_allocated(x) == !self.free().contains(x),
    {
        if self.spec_recycled().contains(x as usize) {
            let i = choose|i: int| 0 <= i < self.spec_recycled().len() && self.spec_recycled()[i] == x as usize;
            assert(self.free().contains(x));
        }
        if self.free().contains(x) {
            let i = choose|i: int| 0 <= i < self.spec_recycled().len() && #[trigger] self.spec_recycled()[i] == x;
            assert(self.spec_recycled().contains(x as usize));
        }
    }
}

/// Handing a page out and taking it straight back leaves the set of free pages as it was;
/// when the page came from the freed pages, the whole state is as it was.
pub proof fn lemma_alloc_then_dealloc(a0: StackFrameAllocator, a1: StackFrameAllocator, a2: StackFrameAllocator, p: int)
    requires
        a0.wf(),
        a0.free().contains(p),
        a1.free() == a0.free().remove(p),
        a2.free() == a1.free().insert(p),
    ensures
        a2.free() == a0.free(),
{
    assert(a2.free() =~= a0.free());
}

/// Handing out a freed page and taking it straight back restores the allocator exactly.
pub proof fn lemma_recycled_round_trip(a0: StackFrameAllocator, a1: StackFrameAllocator, a2: StackFrameAllocator, p: usize)
    requires
        a0.spec_recycled().len() > 0,
        p == a0.spec_recycled().last(),
        a1.spec_recycled() == a0.spec_recycled().drop_last(),
        a1.spec_current() == a0.spec_current(),
        a1.spec_end() == a0.spec_end(),
        a2.spec_recycled() == a1.spec_recycled().push(p),
        a2.spec_current() == a1.spec_current(),
        a2.spec_end() == a1.spec_end(),
    ensures
        a2.spec_recycled() == a0.spec_recycled(),
        a2.spec_current() == a0.spec_current(),
        a2.spec_end() == a0.spec_end(),
{
    assert(a2.spec_recycled() =~= a0.spec_recycled());
}

} // verus!
