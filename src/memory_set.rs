use vstd::prelude::*;
use crate::frame_allocator::StackFrameAllocator;
use crate::phys_mem::{zero_frame, PhysMemory, FRAME_BYTES};
use crate::page_table::{fa_follows, PageTable, PageTableEntry, PPN_MASK, PTE_V, VPN_LIMIT};

verus! {

/// Page size, in bytes, as a 64-bit address quantity.
pub const PAGE: u64 = 4096;

/// Highest page of the 64-bit address space: the trampoline.
pub const TRAMPOLINE_VA: u64 = 0xffff_ffff_ffff_f000;

/// The page below the trampoline: the trap frame.
pub const TRAP_CONTEXT_VA: u64 = 0xffff_ffff_ffff_e000;

/// Size of every user stack in bytes.
pub const USER_STACK_BYTES: u64 = 8192;

/// Permission bits of a segment: the page-table flags it maps with.
pub const MAP_R: u8 = 2;
pub const MAP_W: u8 = 4;
pub const MAP_X: u8 = 8;
pub const MAP_U: u8 = 16;

/// ELF program-header flag bits.
pub const ELF_FLAG_X: u32 = 1;
pub const ELF_FLAG_W: u32 = 2;
pub const ELF_FLAG_R: u32 = 4;

/// How a segment's pages find their frames.
#[derive(PartialEq, Eq, Structural, Clone, Copy, Debug)]
pub enum MapType {
    /// Page `n` maps to frame `n`.
    Identical,
    /// Each page gets a fresh frame of its own.
    Framed,
}

/// sv39 translates the low 39 bits of an address.
pub const VA_MASK: u64 = 0x7f_ffff_ffff;

/// The page that holds address `va`.
pub open spec fn floor_page(va: int) -> int {
    va / PAGE as int
}

/// The first page at or above address `va`.
pub open spec fn ceil_page(va: int) -> int {
    (va + PAGE - 1) / PAGE as int
}

/// A run of virtual pages `[start_vpn, end_vpn)` mapped in one way with one set of permissions.
#[derive(PartialEq, Eq, Structural, Clone, Copy, Debug)]
pub struct MapArea {
    pub start_vpn: u64,
    pub end_vpn: u64,
    pub map_type: MapType,
    pub map_perm: u8,
}

/// The segment that covers addresses `[start_va, end_va)`, widened to whole pages.
pub open spec fn spec_area(start_va: int, end_va: int, map_type: MapType, map_perm: u8) -> MapArea {
    MapArea {
        start_vpn: floor_page((start_va as u64 & VA_MASK) as int) as u64,
        end_vpn: ceil_page((end_va as u64 & VA_MASK) as int) as u64,
        map_type,
        map_perm,
    }
}

impl MapArea {
    /// The segment that covers addresses `[start_va, end_va)`, widened to whole pages.
    pub fn new(start_va: u64, end_va: u64, map_type: MapType, map_perm: u8) -> (r: Self)
        ensures
            r == spec_area(start_va as int, end_va as int, map_type, map_perm),
            r.start_vpn < VPN_LIMIT,
            r.end_vpn <= VPN_LIMIT,
    {
        let sva = start_va & VA_MASK;
        let eva = end_va & VA_MASK;
        assert(sva <= 0x7f_ffff_ffffu64 && eva <= 0x7f_ffff_ffffu64) by (bit_vector)
            requires sva == start_va & 0x7f_ffff_ffffu64, eva == end_va & 0x7f_ffff_ffffu64;
        let start_vpn = sva / PAGE;
        let end_vpn = eva / PAGE + if eva % PAGE != 0 { 1 } else { 0 };
        proof {
            let e = eva as int;
            vstd::arithmetic::div_mod::lemma_fundamental_div_mod(e, 4096);
            vstd::arithmetic::div_mod::lemma_mod_bound(e, 4096);
            if e % 4096 != 0 {
                vstd::arithmetic::div_mod::lemma_fundamental_div_mod_converse(e + 4095, 4096, e / 4096 + 1, e % 4096 - 1);
            } else {
                vstd::arithmetic::div_mod::lemma_fundamental_div_mod_converse(e + 4095, 4096, e / 4096, 4095);
            }
            vstd::arithmetic::div_mod::lemma_div_is_ordered(sva as int, 0x7f_ffff_ffffint, 4096);
            vstd::arithmetic::div_mod::lemma_div_is_ordered(e + 4095, 0x7f_ffff_ffffint + 4095, 4096);
        }
        MapArea { start_vpn, end_vpn, map_type, map_perm }
    }

    /// A segment over the same pages with the same mapping and permissions.
    pub fn from_another(another: &MapArea) -> (r: Self)
        ensures
            r == *another,
    {
        MapArea {
            start_vpn: another.start_vpn,
            end_vpn: another.end_vpn,
            map_type: another.map_type,
            map_perm: another.map_perm,
        }
    }
}

/// One program header of an ELF file, as the loader reads it.
#[derive(PartialEq, Eq, Structural, Clone, Copy, Debug)]
pub struct ElfSegment {
    pub is_load: bool,
    pub vaddr: u64,
    pub mem_size: u64,
    pub offset: u64,
    pub file_size: u64,
    pub flags: u32,
}

/// Permissions of a loaded segment: user access, plus what the ELF flags grant.
pub open spec fn elf_perm(flags: u32) -> u8 {
    (MAP_U | (if flags & ELF_FLAG_R != 0 { MAP_R } else { 0u8 }) | (if flags & ELF_FLAG_W != 0 {
        MAP_W
    } else {
        0u8
    }) | (if flags & ELF_FLAG_X != 0 { MAP_X } else { 0u8 })) as u8
}

/// A loaded segment fits the address space and the file.
pub open spec fn segment_ok(s: ElfSegment, elf_len: int) -> bool {
    &&& s.vaddr + s.mem_size <= u64::MAX
    &&& s.offset + s.file_size <= elf_len
    &&& s.file_size <= s.mem_size
}

/// Picks the loadable program headers.
pub open spec fn load_pred() -> spec_fn(ElfSegment) -> bool {
    |s: ElfSegment| s.is_load
}

/// The segment that loads `s`.
pub open spec fn load_area(s: ElfSegment) -> MapArea {
    spec_area(s.vaddr as int, s.vaddr + s.mem_size, MapType::Framed, elf_perm(s.flags))
}

/// The highest page end over the segments that load `loads`, 0 when there are none.
pub open spec fn max_end(loads: Seq<ElfSegment>) -> int
    decreases loads.len(),
{
    if loads.len() == 0 {
        0
    } else {
        let m = max_end(loads.drop_last());
        let e = load_area(loads.last()).end_vpn as int;
        if e > m { e } else { m }
    }
}

/// Where the user stack begins for a program whose highest loaded segment ends at page
/// `end_vpn`: one unmapped guard page above it.
pub open spec fn stack_bottom(end_vpn: int) -> int {
    end_vpn * PAGE + PAGE
}

/// The address space an ELF program gets.
pub struct ElfLayout {
    /// The segments, in the order they are mapped.
    pub areas: Vec<MapArea>,
    /// For each loaded segment, in order, the range of file bytes copied into it.
    pub data: Vec<(u64, u64)>,
    /// Initial user stack pointer: the top of the user stack.
    pub user_sp: u64,
    /// Entry point of the program.
    pub entry_point: u64,
}

/// Lays out the address space of a program from its program headers: one framed user
/// segment per loadable header, then, above the highest of them, a guard page, the user
/// stack, an empty segment at the stack top, and the trap-frame page. `None` when a loadable header does not fit the
/// address space or the file, or the stack does not fit below the trap frame.
pub fn from_elf(segments: &Vec<ElfSegment>, elf_len: u64, entry: u64) -> (r: Option<ElfLayout>)
    ensures
        ({
            let loads = segments@.filter(load_pred());
            let last_end = max_end(loads);
            let fits = (forall|i: int| 0 <= i < loads.len() ==> #[trigger] segment_ok(loads[i], elf_len as int))
                && stack_bottom(last_end) + USER_STACK_BYTES <= TRAP_CONTEXT_VA;
            match r {
                Some(l) => {
                    &&& fits
                    &&& l.areas@.len() == loads.len() + 3
                    &&& l.data@.len() == loads.len()
                    &&& forall|i: int| 0 <= i < loads.len() ==> l.areas@[i] == load_area(#[trigger] loads[i])
                    &&& forall|i: int| 0 <= i < loads.len() ==> l.data@[i] == (#[trigger] loads[i].offset, (loads[i].offset + loads[i].file_size) as u64)
                    &&& l.areas@[loads.len() as int] == spec_area(stack_bottom(last_end), stack_bottom(last_end) + USER_STACK_BYTES, MapType::Framed, MAP_R | MAP_W | MAP_U)
                    &&& l.areas@[loads.len() as int + 1] == spec_area(stack_bottom(last_end) + USER_STACK_BYTES, stack_bottom(last_end) + USER_STACK_BYTES, MapType::Framed, MAP_R | MAP_W | MAP_U)
                    &&& l.areas@[loads.len() as int + 2] == spec_area(TRAP_CONTEXT_VA as int, TRAMPOLINE_VA as int, MapType::Framed, MAP_R | MAP_W)
                    &&& l.user_sp == stack_bottom(last_end) + USER_STACK_BYTES
                    &&& l.entry_point == entry
                },
                None => !fits,
            }
        }),
{
    let mut areas: Vec<MapArea> = Vec::new();
    let mut data: Vec<(u64, u64)> = Vec::new();
    let mut max_end_vpn: u64 = 0;
    let ghost pred = load_pred();
    let mut i: usize = 0;
    while i < segments.len()
        invariant
            i <= segments@.len(),
            pred == load_pred(),
            ({
                let loads = segments@.subrange(0, i as int).filter(pred);
                &&& areas@.len() == loads.len()
                &&& data@.len() == loads.len()
                &&& forall|j: int| 0 <= j < loads.len() ==> #[trigger] segment_ok(loads[j], elf_len as int)
                &&& forall|j: int| 0 <= j < loads.len() ==> areas@[j] == load_area(#[trigger] loads[j])
                &&& forall|j: int| 0 <= j < loads.len() ==> data@[j] == (#[trigger] loads[j].offset, (loads[j].offset + loads[j].file_size) as u64)
                &&& max_end_vpn == max_end(loads)
            }),
        decreases segments@.len() - i,
    {
        let ghost before = segments@.subrange(0, i as int);
        let ph = segments[i];
        proof {
            reveal(Seq::filter);
            assert(segments@.subrange(0, i + 1).drop_last() =~= before);
            assert(segments@.subrange(0, i + 1).last() == ph);
        }
        if ph.is_load {
            if ph.mem_size > u64::MAX - ph.vaddr || ph.file_size > ph.mem_size || ph.file_size > elf_len || ph.offset > elf_len - ph.file_size {
                proof {
                    lemma_filter_all_loads(segments@, i as int, pred);
                    let all = segments@.filter(pred);
                    let k = before.filter(pred).len() as int;
                    assert(all[k] == ph);
                    assert(!segment_ok(all[k], elf_len as int));
                }
                return None;
            }
            let mut map_perm: u8 = MAP_U;
            if ph.flags & ELF_FLAG_R != 0 {
                map_perm = map_perm | MAP_R;
            }
            if ph.flags & ELF_FLAG_W != 0 {
                map_perm = map_perm | MAP_W;
            }
            if ph.flags & ELF_FLAG_X != 0 {
                map_perm = map_perm | MAP_X;
            }
            proof {
                assert(forall|x: u8| #[trigger] (x | 0u8) == x) by (bit_vector);
                assert(map_perm == elf_perm(ph.flags));
            }
            let map_area = MapArea::new(ph.vaddr, ph.vaddr + ph.mem_size, MapType::Framed, map_perm);
            if map_area.end_vpn > max_end_vpn {
                max_end_vpn = map_area.end_vpn;
            }
            areas.push(map_area);
            data.push((ph.offset, ph.offset + ph.file_size));
        }
        i += 1;
        proof {
            let old_loads = before.filter(pred);
            let loads = segments@.subrange(0, i as int).filter(pred);
            assert(loads == if ph.is_load { old_loads.push(ph) } else { old_loads });
            if ph.is_load {
                assert(loads[old_loads.len() as int] == ph);
                assert(loads.drop_last() =~= old_loads);
                assert(loads.last() == ph);
                assert forall|j: int| 0 <= j < old_loads.len() implies loads[j] == old_loads[j] by {
                }
                assert forall|j: int| 0 <= j < loads.len() implies #[trigger] segment_ok(loads[j], elf_len as int) by {
                    if j < old_loads.len() {
                        assert(loads[j] == old_loads[j]);
                    }
                }
                assert forall|j: int| 0 <= j < loads.len() implies areas@[j] == load_area(#[trigger] loads[j]) by {
                    if j < old_loads.len() {
                        assert(loads[j] == old_loads[j]);
                    }
                }
                assert forall|j: int| 0 <= j < loads.len() implies data@[j] == (#[trigger] loads[j].offset, (loads[j].offset + loads[j].file_size) as u64) by {
                    if j < old_loads.len() {
                        assert(loads[j] == old_loads[j]);
                    }
                }
            }
        }
    }
    proof {
        assert(segments@.subrange(0, segments@.len() as int) =~= segments@);
    }
    if max_end_vpn > (TRAP_CONTEXT_VA - PAGE - USER_STACK_BYTES) / PAGE {
        return None;
    }
    let user_stack_bottom = max_end_vpn * PAGE + PAGE;
    let user_stack_top = user_stack_bottom + USER_STACK_BYTES;
    areas.push(MapArea::new(user_stack_bottom, user_stack_top, MapType::Framed, MAP_R | MAP_W | MAP_U));
    areas.push(MapArea::new(user_stack_top, user_stack_top, MapType::Framed, MAP_R | MAP_W | MAP_U));
    areas.push(MapArea::new(TRAP_CONTEXT_VA, TRAMPOLINE_VA, MapType::Framed, MAP_R | MAP_W));
    Some(ElfLayout { areas, data, user_sp: user_stack_top, entry_point: entry })
}

/// The filtered prefix is a prefix of the filtered whole.
proof fn lemma_filter_all_loads(segs: Seq<ElfSegment>, i: int, pred: spec_fn(ElfSegment) -> bool)
    requires
        0 <= i < segs.len(),
        pred(segs[i]),
    ensures
        segs.subrange(0, i).filter(pred).len() < segs.filter(pred).len(),
        segs.filter(pred)[segs.subrange(0, i).filter(pred).len() as int] == segs[i],
{
    let a = segs.subrange(0, i + 1);
    let b = segs.subrange(i + 1, segs.len() as int);
    assert(segs =~= a + b);
    Seq::filter_distributes_over_add(a, b, pred);
    reveal(Seq::filter);
    assert(a.drop_last() =~= segs.subrange(0, i));
}

/// End of physical memory.
pub const MEMORY_END_PA: u64 = 0x8800_0000;

/// Memory-mapped device ranges: start and length.
pub const MMIO_0_START: u64 = 0x0010_0000;
pub const MMIO_0_LEN: u64 = 0x2000;
pub const MMIO_1_START: u64 = 0x1000_1000;
pub const MMIO_1_LEN: u64 = 0x1000;

/// Where the linker put the kernel's sections.
#[derive(PartialEq, Eq, Structural, Clone, Copy, Debug)]
pub struct KernelSections {
    pub stext: u64,
    pub etext: u64,
    pub srodata: u64,
    pub erodata: u64,
    pub sdata: u64,
    pub edata: u64,
    pub sbss_with_stack: u64,
    pub ebss: u64,
    pub ekernel: u64,
    pub strampoline: u64,
}

/// The kernel's address space: identity-mapped segments, and the trampoline page, mapped
/// on its own at the top of the address space.
pub struct KernelLayout {
    pub areas: Vec<MapArea>,
    pub trampoline_vpn: u64,
    pub trampoline_ppn: u64,
    pub trampoline_perm: u8,
}

/// Lays out the kernel's address space: text R+X, read-only data R, data R+W, bss R+W,
/// the rest of physical memory R+W, and the device ranges R+W, all identity-mapped, in
/// that order.
pub fn new_kernel(s: KernelSections) -> (r: KernelLayout)
    ensures
        r.areas@.len() == 7,
        r.areas@[0] == spec_area(s.stext as int, s.etext as int, MapType::Identical, MAP_R | MAP_X),
        r.areas@[1] == spec_area(s.srodata as int, s.erodata as int, MapType::Identical, MAP_R),
        r.areas@[2] == spec_area(s.sdata as int, s.edata as int, MapType::Identical, MAP_R | MAP_W),
        r.areas@[3] == spec_area(s.sbss_with_stack as int, s.ebss as int, MapType::Identical, MAP_R | MAP_W),
        r.areas@[4] == spec_area(s.ekernel as int, MEMORY_END_PA as int, MapType::Identical, MAP_R | MAP_W),
        r.areas@[5] == spec_area(MMIO_0_START as int, MMIO_0_START + MMIO_0_LEN, MapType::Identical, MAP_R | MAP_W),
        r.areas@[6] == spec_area(MMIO_1_START as int, MMIO_1_START + MMIO_1_LEN, MapType::Identical, MAP_R | MAP_W),
        r.trampoline_vpn == (TRAMPOLINE_VA & VA_MASK) / PAGE,
        r.trampoline_ppn == s.strampoline / PAGE,
        r.trampoline_perm == MAP_R | MAP_X,
{
    let mut areas: Vec<MapArea> = Vec::new();
    areas.push(MapArea::new(s.stext, s.etext, MapType::Identical, MAP_R | MAP_X));
    areas.push(MapArea::new(s.srodata, s.erodata, MapType::Identical, MAP_R));
    areas.push(MapArea::new(s.sdata, s.edata, MapType::Identical, MAP_R | MAP_W));
    areas.push(MapArea::new(s.sbss_with_stack, s.ebss, MapType::Identical, MAP_R | MAP_W));
    areas.push(MapArea::new(s.ekernel, MEMORY_END_PA, MapType::Identical, MAP_R | MAP_W));
    areas.push(MapArea::new(MMIO_0_START, MMIO_0_START + MMIO_0_LEN, MapType::Identical, MAP_R | MAP_W));
    areas.push(MapArea::new(MMIO_1_START, MMIO_1_START + MMIO_1_LEN, MapType::Identical, MAP_R | MAP_W));
    KernelLayout {
        areas,
        trampoline_vpn: (TRAMPOLINE_VA & VA_MASK) / PAGE,
        trampoline_ppn: s.strampoline / PAGE,
        trampoline_perm: MAP_R | MAP_X,
    }
}

impl MapArea {
    /// Unmaps the pages `[from, to)` of the segment, every one of which must be mapped, and
    /// returns, in page order, the frames that framed pages were mapped to, for the caller to
    /// give back to the frame allocator. Other pages keep their mappings.
    pub fn unmap_range(&self, page_table: &mut PageTable, from: u64, to: u64) -> (r: Vec<u64>)
        requires
            old(page_table).shape_ok(),
            from <= to <= VPN_LIMIT,
            forall|v: int| from <= v < to ==> #[trigger] old(page_table).walk(v) is Some,
        ensures
            final(page_table).shape_ok(),
            forall|v: int| from <= v < to ==> #[trigger] final(page_table).walk(v) is None,
            forall|v: int| 0 <= v < VPN_LIMIT && !(from <= v < to) ==> #[trigger] final(page_table).walk(v) == old(page_table).walk(v),
            forall|fa: StackFrameAllocator| #[trigger] old(page_table).wf(&fa) ==> final(page_table).wf(&fa),
            self.map_type == MapType::Framed ==> r@.len() == to - from
                && forall|i: int| 0 <= i < r@.len() ==> (old(page_table).walk(from + i) matches Some(e) && #[trigger] r@[i] == e.spec_ppn()),
            self.map_type == MapType::Identical ==> r@.len() == 0,
    {
        let mut freed: Vec<u64> = Vec::new();
        let mut vpn = from;
        while vpn < to
            invariant
                from <= vpn <= to <= VPN_LIMIT,
                page_table.shape_ok(),
                forall|v: int| from <= v < vpn ==> #[trigger] page_table.walk(v) is None,
                forall|v: int| 0 <= v < VPN_LIMIT && !(from <= v < vpn) ==> #[trigger] page_table.walk(v) == old(page_table).walk(v),
                forall|v: int| from <= v < to ==> #[trigger] old(page_table).walk(v) is Some,
                forall|fa: StackFrameAllocator| #[trigger] old(page_table).wf(&fa) ==> page_table.wf(&fa),
                self.map_type == MapType::Framed ==> freed@.len() == vpn - from
                    && forall|i: int| 0 <= i < freed@.len() ==> (old(page_table).walk(from + i) matches Some(e) && #[trigger] freed@[i] == e.spec_ppn()),
                self.map_type == MapType::Identical ==> freed@.len() == 0,
            decreases to - vpn,
        {
            let ghost before = *page_table;
            if self.map_type == MapType::Framed {
                let e = page_table.translate(vpn).unwrap();
                let ghost f0 = freed@;
                freed.push(e.ppn());
                proof {
                    assert forall|i: int| 0 <= i < freed@.len() implies (old(page_table).walk(from + i) matches Some(e) && #[trigger] freed@[i] == e.spec_ppn()) by {
                        if i < f0.len() {
                            assert(freed@[i] == f0[i]);
                        }
                    }
                }
            }
            page_table.unmap(vpn);
            proof {
                assert forall|fa: StackFrameAllocator| #[trigger] old(page_table).wf(&fa) implies page_table.wf(&fa) by {
                    assert(before.wf(&fa));
                }
            }
            vpn = vpn + 1;
        }
        freed
    }

    /// Unmaps every page of the segment, all of which must be mapped; returns the frames of
    /// framed pages, in page order, for the frame allocator.
    pub fn unmap(&self, page_table: &mut PageTable) -> (r: Vec<u64>)
        requires
            old(page_table).shape_ok(),
            self.start_vpn <= self.end_vpn <= VPN_LIMIT,
            forall|v: int| self.start_vpn <= v < self.end_vpn ==> #[trigger] old(page_table).walk(v) is Some,
        ensures
            final(page_table).shape_ok(),
            forall|v: int| self.start_vpn <= v < self.end_vpn ==> #[trigger] final(page_table).walk(v) is None,
            forall|v: int| 0 <= v < VPN_LIMIT && !(self.start_vpn <= v < self.end_vpn) ==> #[trigger] final(page_table).walk(v) == old(page_table).walk(v),
            forall|fa: StackFrameAllocator| #[trigger] old(page_table).wf(&fa) ==> final(page_table).wf(&fa),
            self.map_type == MapType::Framed ==> r@.len() == self.end_vpn - self.start_vpn,
    {
        self.unmap_range(page_table, self.start_vpn, self.end_vpn)
    }

    /// Shrinks the segment to end at `new_end`, unmapping the pages past it, which must be
    /// mapped; returns the frames of framed pages removed.
    pub fn shrink_to(&mut self, page_table: &mut PageTable, new_end: u64) -> (r: Vec<u64>)
        requires
            old(page_table).shape_ok(),
            old(self).start_vpn <= new_end <= old(self).end_vpn <= VPN_LIMIT,
            forall|v: int| new_end <= v < old(self).end_vpn ==> #[trigger] old(page_table).walk(v) is Some,
        ensures
            *final(self) == (MapArea { end_vpn: new_end, ..*old(self) }),
            final(page_table).shape_ok(),
            forall|v: int| new_end <= v < old(self).end_vpn ==> #[trigger] final(page_table).walk(v) is None,
            forall|v: int| 0 <= v < VPN_LIMIT && !(new_end <= v < old(self).end_vpn) ==> #[trigger] final(page_table).walk(v) == old(page_table).walk(v),
            forall|fa: StackFrameAllocator| #[trigger] old(page_table).wf(&fa) ==> final(page_table).wf(&fa),
    {
        let r = self.unmap_range(page_table, new_end, self.end_vpn);
        self.end_vpn = new_end;
        r
    }

    /// Grows the segment to end at `new_end`, mapping the new pages as the segment maps its
    /// pages; they must be unmapped. Returns `false` when frames run out, the segment then
    /// keeping its old end; with three frames free per new page it succeeds.
    pub fn append_to(&mut self, page_table: &mut PageTable, new_end: u64, fa: &mut StackFrameAllocator) -> (r: bool)
        requires
            old(fa).wf(),
            old(page_table).wf(old(fa)),
            old(self).start_vpn <= old(self).end_vpn <= new_end <= VPN_LIMIT,
            old(self).map_type == MapType::Identical ==> new_end <= PPN_MASK + 1,
            forall|v: int| old(self).end_vpn <= v < new_end ==> #[trigger] old(page_table).walk(v) is None,
            forall|p: int| #[trigger] old(fa).free().contains(p) ==> p <= PPN_MASK,
        ensures
            fa_follows(old(fa), final(fa)),
            final(page_table).wf(final(fa)),
            old(fa).free_count() >= 3 * (new_end - old(self).end_vpn) ==> r,
            r ==> *final(self) == (MapArea { end_vpn: new_end, ..*old(self) }),
            !r ==> *final(self) == *old(self),
            forall|v: int| 0 <= v < VPN_LIMIT && !(old(self).end_vpn <= v < new_end) ==> #[trigger] final(page_table).walk(v) == old(page_table).walk(v),
            r ==> forall|v: int| old(self).end_vpn <= v < new_end ==> (#[trigger] final(page_table).walk(v) matches Some(e)
                && e.spec_flags() == (old(self).map_perm | PTE_V)
                && (old(self).map_type == MapType::Identical ==> e.spec_ppn() == v)),
    {
        let delta = MapArea { start_vpn: self.end_vpn, end_vpn: new_end, map_type: self.map_type, map_perm: self.map_perm };
        let ok = delta.map(page_table, fa);
        if ok {
            self.end_vpn = new_end;
        }
        ok
    }
}

impl MapArea {
    /// Maps every page of the segment into `page_table`: page `n` to frame `n` when
    /// identity-mapped, else to a fresh frame. Every page must be unmapped. Each page takes at
    /// most three frames (two index nodes and its own); with that many free it succeeds,
    /// otherwise it may return `false`. Pages outside the segment keep their mappings either
    /// way.
    pub fn map(&self, page_table: &mut PageTable, fa: &mut StackFrameAllocator) -> (r: bool)
        requires
            old(fa).wf(),
            old(page_table).wf(old(fa)),
            self.start_vpn <= self.end_vpn <= VPN_LIMIT,
            self.map_type == MapType::Identical ==> self.end_vpn <= PPN_MASK + 1,
            forall|v: int| self.start_vpn <= v < self.end_vpn ==> #[trigger] old(page_table).walk(v) is None,
            forall|p: int| #[trigger] old(fa).free().contains(p) ==> p <= PPN_MASK,
        ensures
            fa_follows(old(fa), final(fa)),
            forall|p: int| #[trigger] final(fa).free().contains(p) ==> p <= PPN_MASK,
            final(fa).free_count() >= old(fa).free_count() - 3 * (self.end_vpn - self.start_vpn),
            old(fa).free_count() >= 3 * (self.end_vpn - self.start_vpn) ==> r,
            final(page_table).wf(final(fa)),
            forall|v: int| 0 <= v < VPN_LIMIT && !(self.start_vpn <= v < self.end_vpn)
                ==> #[trigger] final(page_table).walk(v) == old(page_table).walk(v),
            r ==> forall|v: int| self.start_vpn <= v < self.end_vpn ==> (#[trigger] final(page_table).walk(v) matches Some(e)
                && e.spec_flags() == (self.map_perm | PTE_V)
                && (self.map_type == MapType::Identical ==> e.spec_ppn() == v)
                && (self.map_type == MapType::Framed ==> old(fa).free().contains(e.spec_ppn() as int))),
            r && self.map_type == MapType::Framed ==> forall|v1: int, v2: int|
                self.start_vpn <= v1 < self.end_vpn && self.start_vpn <= v2 < self.end_vpn && v1 != v2
                ==> #[trigger] final(page_table).walk(v1)->Some_0.spec_ppn() != #[trigger] final(page_table).walk(v2)->Some_0.spec_ppn(),
    {
        let mut vpn = self.start_vpn;
        while vpn < self.end_vpn
            invariant
                self.start_vpn <= vpn <= self.end_vpn <= VPN_LIMIT,
                self.map_type == MapType::Identical ==> self.end_vpn <= PPN_MASK + 1,
                fa.wf(),
                page_table.wf(fa),
                fa_follows(old(fa), fa),
                fa.free_count() >= old(fa).free_count() - 3 * (vpn - self.start_vpn),
                forall|p: int| #[trigger] fa.free().contains(p) ==> p <= PPN_MASK,
                forall|v: int| 0 <= v < VPN_LIMIT && !(self.start_vpn <= v < vpn)
                    ==> #[trigger] page_table.walk(v) == old(page_table).walk(v),
                forall|v: int| self.start_vpn <= v < vpn ==> (#[trigger] page_table.walk(v) matches Some(e)
                    && e.spec_flags() == (self.map_perm | PTE_V)
                    && (self.map_type == MapType::Identical ==> e.spec_ppn() == v)
                    && (self.map_type == MapType::Framed ==> old(fa).free().contains(e.spec_ppn() as int))),
                forall|v: int| self.start_vpn <= v < self.end_vpn ==> #[trigger] old(page_table).walk(v) is None,
                self.map_type == MapType::Framed ==> forall|v: int| self.start_vpn <= v < vpn
                    ==> fa.is_allocated(#[trigger] page_table.walk(v)->Some_0.spec_ppn() as int),
                self.map_type == MapType::Framed ==> forall|v1: int, v2: int|
                    self.start_vpn <= v1 < vpn && self.start_vpn <= v2 < vpn && v1 != v2
                    ==> #[trigger] page_table.walk(v1)->Some_0.spec_ppn() != #[trigger] page_table.walk(v2)->Some_0.spec_ppn(),
            decreases self.end_vpn - vpn,
        {
            let ghost fa0 = *fa;
            let ppn = match self.map_type {
                MapType::Identical => vpn,
                MapType::Framed => match fa.allocate() {
                    Some(frame) => {
                        proof { assert(fa0.free().contains(frame.0 as int)); }
                        frame.0 as u64
                    },
                    None => {
                        proof {
                            assert forall|x: int| #[trigger] fa0.is_allocated(x) implies fa.is_allocated(x) by {
                            }
                            page_table.lemma_wf_follows(&fa0, fa);
                            assert(fa.free() =~= fa0.free());
                        }
                        return false;
                    },
                },
            };
            let ghost fa1 = *fa;
            proof {
                if self.map_type == MapType::Framed {
                    assert forall|x: int| #[trigger] fa0.is_allocated(x) implies fa1.is_allocated(x) by {
                        fa0.lemma_allocated_iff_not_free(x);
                        fa1.lemma_allocated_iff_not_free(x);
                    }
                    assert forall|x: int| #[trigger] old(fa).is_allocated(x) implies fa1.is_allocated(x) by {
                        assert(fa0.is_allocated(x));
                    }
                    assert(fa1.free().subset_of(old(fa).free()));
                    page_table.lemma_wf_follows(&fa0, &fa1);
                }
            }
            let ghost pt1 = *page_table;
            let ghost fa2 = *fa;
            let ok = page_table.map(vpn, ppn, self.map_perm, fa);
            if !ok {
                return false;
            }
            proof {
                if self.map_type == MapType::Framed {
                    assert forall|v: int| self.start_vpn <= v < vpn implies #[trigger] page_table.walk(v) == pt1.walk(v) by {}
                    assert forall|v: int| self.start_vpn <= v < vpn + 1
                        implies fa.is_allocated(#[trigger] page_table.walk(v)->Some_0.spec_ppn() as int) by {
                        if v < vpn {
                            assert(fa0.is_allocated(pt1.walk(v)->Some_0.spec_ppn() as int));
                        }
                    }
                    assert forall|v1: int, v2: int|
                        self.start_vpn <= v1 < vpn + 1 && self.start_vpn <= v2 < vpn + 1 && v1 != v2
                        implies #[trigger] page_table.walk(v1)->Some_0.spec_ppn() != #[trigger] page_table.walk(v2)->Some_0.spec_ppn() by {
                        if v1 < vpn && v2 < vpn {
                        } else if v1 < vpn {
                            assert(fa0.is_allocated(pt1.walk(v1)->Some_0.spec_ppn() as int));
                            fa0.lemma_allocated_iff_not_free(pt1.walk(v1)->Some_0.spec_ppn() as int);
                        } else {
                            assert(fa0.is_allocated(pt1.walk(v2)->Some_0.spec_ppn() as int));
                            fa0.lemma_allocated_iff_not_free(pt1.walk(v2)->Some_0.spec_ppn() as int);
                        }
                    }
                }
            }
            vpn = vpn + 1;
        }
        true
    }
}

/// An address space: a page table and the segments mapped into it.
pub struct MemorySet {
    page_table: PageTable,
    areas: Vec<MapArea>,
}

impl MemorySet {
    pub closed spec fn table(&self) -> PageTable {
        self.page_table
    }

    /// The segments, in the order they were added.
    pub closed spec fn area_list(&self) -> Seq<MapArea> {
        self.areas@
    }

    /// An address space with no mapping; `None` when no frame is left for the root.
    pub fn new_bare(fa: &mut StackFrameAllocator) -> (r: Option<Self>)
        requires
            old(fa).wf(),
            forall|p: int| #[trigger] old(fa).free().contains(p) ==> p <= PPN_MASK,
        ensures
            fa_follows(old(fa), final(fa)),
            final(fa).free_count() >= old(fa).free_count() - 1,
            old(fa).free_count() >= 1 ==> r is Some,
            match r {
                Some(m) => {
                    &&& m.table().wf(final(fa))
                    &&& m.area_list() == Seq::<MapArea>::empty()
                    &&& forall|v: int| #[trigger] m.table().walk(v) is None
                },
                None => true,
            },
    {
        match PageTable::new(fa) {
            Some(page_table) => Some(MemorySet { page_table, areas: Vec::new() }),
            None => None,
        }
    }

    /// Maps `map_area` and records it. Its pages must be unmapped. Returns `false` when
    /// frames run out; the segment is then not recorded.
    pub fn push(&mut self, map_area: MapArea, fa: &mut StackFrameAllocator) -> (r: bool)
        requires
            old(fa).wf(),
            old(self).table().wf(old(fa)),
            map_area.start_vpn <= map_area.end_vpn <= VPN_LIMIT,
            map_area.map_type == MapType::Identical ==> map_area.end_vpn <= PPN_MASK + 1,
            forall|v: int| map_area.start_vpn <= v < map_area.end_vpn ==> #[trigger] old(self).table().walk(v) is None,
            forall|p: int| #[trigger] old(fa).free().contains(p) ==> p <= PPN_MASK,
        ensures
            fa_follows(old(fa), final(fa)),
            final(fa).free_count() >= old(fa).free_count() - 3 * (map_area.end_vpn - map_area.start_vpn),
            old(fa).free_count() >= 3 * (map_area.end_vpn - map_area.start_vpn) ==> r,
            forall|p: int| #[trigger] final(fa).free().contains(p) ==> p <= PPN_MASK,
            final(self).table().wf(final(fa)),
            forall|v: int| 0 <= v < VPN_LIMIT && !(map_area.start_vpn <= v < map_area.end_vpn)
                ==> #[trigger] final(self).table().walk(v) == old(self).table().walk(v),
            r ==> final(self).area_list() == old(self).area_list().push(map_area),
            !r ==> final(self).area_list() == old(self).area_list(),
            r ==> forall|v: int| map_area.start_vpn <= v < map_area.end_vpn ==> (#[trigger] final(self).table().walk(v) matches Some(e)
                && e.spec_flags() == (map_area.map_perm | PTE_V)
                && (map_area.map_type == MapType::Identical ==> e.spec_ppn() == v)
                && (map_area.map_type == MapType::Framed ==> old(fa).free().contains(e.spec_ppn() as int))),
    {
        let ok = map_area.map(&mut self.page_table, fa);
        if ok {
            self.areas.push(map_area);
        }
        ok
    }

    /// Maps and records a framed segment over `[start_va, end_va)` with permissions `perm`,
    /// as kernel stacks are added. Its pages must be unmapped.
    pub fn insert_framed_area(&mut self, start_va: u64, end_va: u64, perm: u8, fa: &mut StackFrameAllocator) -> (r: bool)
        requires
            old(fa).wf(),
            old(self).table().wf(old(fa)),
            spec_area(start_va as int, end_va as int, MapType::Framed, perm).start_vpn <= spec_area(start_va as int, end_va as int, MapType::Framed, perm).end_vpn,
            forall|v: int| spec_area(start_va as int, end_va as int, MapType::Framed, perm).start_vpn <= v
                < spec_area(start_va as int, end_va as int, MapType::Framed, perm).end_vpn ==> #[trigger] old(self).table().walk(v) is None,
            forall|p: int| #[trigger] old(fa).free().contains(p) ==> p <= PPN_MASK,
        ensures
            fa_follows(old(fa), final(fa)),
            final(fa).free_count() >= old(fa).free_count() - 3 * (spec_area(start_va as int, end_va as int, MapType::Framed, perm).end_vpn - spec_area(start_va as int, end_va as int, MapType::Framed, perm).start_vpn),
            old(fa).free_count() >= 3 * (spec_area(start_va as int, end_va as int, MapType::Framed, perm).end_vpn - spec_area(start_va as int, end_va as int, MapType::Framed, perm).start_vpn) ==> r,
            final(self).table().wf(final(fa)),
            ({
                let a = spec_area(start_va as int, end_va as int, MapType::Framed, perm);
                &&& forall|v: int| 0 <= v < VPN_LIMIT && !(a.start_vpn <= v < a.end_vpn)
                    ==> #[trigger] final(self).table().walk(v) == old(self).table().walk(v)
                &&& r ==> final(self).area_list() == old(self).area_list().push(a)
                &&& r ==> forall|v: int| a.start_vpn <= v < a.end_vpn ==> (#[trigger] final(self).table().walk(v) matches Some(e)
                    && e.spec_flags() == (perm | PTE_V) && old(fa).free().contains(e.spec_ppn() as int))
            }),
    {
        let area = MapArea::new(start_va, end_va, MapType::Framed, perm);
        self.push(area, fa)
    }

    /// The entry that translates virtual page `vpn`.
    pub fn translate(&self, vpn: u64) -> (r: Option<PageTableEntry>)
        requires
            exists|fa: StackFrameAllocator| self.table().wf(&fa),
        ensures
            r == self.table().walk(vpn as int),
    {
        proof {
            let fa = choose|fa: StackFrameAllocator| self.table().wf(&fa);
            self.page_table.lemma_wf_shape(&fa);
        }
        self.page_table.translate(vpn)
    }

    /// The entry that translates virtual page `vpn`, with `fa` the allocator the table is
    /// sound against.
    pub fn translate_in(&self, fa: &StackFrameAllocator, vpn: u64) -> (r: Option<PageTableEntry>)
        requires
            self.table().wf(fa),
        ensures
            r == self.table().walk(vpn as int),
    {
        proof { self.page_table.lemma_wf_shape(fa); }
        self.page_table.translate(vpn)
    }

    /// Removes the segment that starts at page `start_vpn`, if any, unmapping its pages, and
    /// returns the frames of its framed pages for the frame allocator; `None`, with nothing
    /// changed, when no segment starts there. The segments' pages must be mapped.
    pub fn remove_area_with_start_vpn(&mut self, start_vpn: u64) -> (r: Option<Vec<u64>>)
        requires
            old(self).table().shape_ok(),
            forall|i: int| 0 <= i < old(self).area_list().len() ==> (#[trigger] old(self).area_list()[i]).start_vpn <= old(self).area_list()[i].end_vpn <= VPN_LIMIT,
            forall|i: int, v: int| #![trigger old(self).area_list()[i], old(self).table().walk(v)]
                0 <= i < old(self).area_list().len() && old(self).area_list()[i].start_vpn <= v < old(self).area_list()[i].end_vpn
                ==> old(self).table().walk(v) is Some,
        ensures
            final(self).table().shape_ok(),
            forall|fa: StackFrameAllocator| #[trigger] old(self).table().wf(&fa) ==> final(self).table().wf(&fa),
            match r {
                Some(_) => exists|i: int| {
                    &&& 0 <= i < old(self).area_list().len()
                    &&& (#[trigger] old(self).area_list()[i]).start_vpn == start_vpn
                    &&& forall|j: int| 0 <= j < i ==> (#[trigger] old(self).area_list()[j]).start_vpn != start_vpn
                    &&& final(self).area_list() == old(self).area_list().remove(i)
                    &&& forall|v: int| old(self).area_list()[i].start_vpn <= v < old(self).area_list()[i].end_vpn ==> #[trigger] final(self).table().walk(v) is None
                    &&& forall|v: int| 0 <= v < VPN_LIMIT && !(old(self).area_list()[i].start_vpn <= v < old(self).area_list()[i].end_vpn)
                        ==> #[trigger] final(self).table().walk(v) == old(self).table().walk(v)
                },
                None => {
                    &&& forall|i: int| 0 <= i < old(self).area_list().len() ==> (#[trigger] old(self).area_list()[i]).start_vpn != start_vpn
                    &&& final(self).area_list() == old(self).area_list()
                    &&& final(self).table() == old(self).table()
                },
            },
    {
        let mut idx: usize = 0;
        while idx < self.areas.len()
            invariant
                idx <= self.areas@.len(),
                *self == *old(self),
                old(self).table().shape_ok(),
                forall|i: int| 0 <= i < old(self).area_list().len() ==> (#[trigger] old(self).area_list()[i]).start_vpn <= old(self).area_list()[i].end_vpn <= VPN_LIMIT,
                forall|i: int, v: int| #![trigger old(self).area_list()[i], old(self).table().walk(v)]
                    0 <= i < old(self).area_list().len() && old(self).area_list()[i].start_vpn <= v < old(self).area_list()[i].end_vpn
                    ==> old(self).table().walk(v) is Some,
                forall|j: int| 0 <= j < idx ==> (#[trigger] self.areas@[j]).start_vpn != start_vpn,
            decreases self.areas@.len() - idx,
        {
            if self.areas[idx].start_vpn == start_vpn {
                let area = self.areas[idx];
                proof {
                    assert(old(self).area_list()[idx as int] == area);
                    assert forall|v: int| area.start_vpn <= v < area.end_vpn implies #[trigger] self.page_table.walk(v) is Some by {
                        assert(old(self).table().walk(v) is Some);
                    }
                }
                let freed = area.unmap(&mut self.page_table);
                self.areas.remove(idx);
                return Some(freed);
            }
            idx += 1;
        }
        None
    }

    /// The page table of the address space.
    pub fn page_table(&self) -> (r: &PageTable)
        ensures
            *r == self.table(),
    {
        &self.page_table
    }

    /// The `satp` value that selects this address space.
    pub fn token(&self) -> (r: u64)
        requires
            exists|fa: StackFrameAllocator| self.table().wf(&fa),
        ensures
            r == (8u64 << 60u64) | self.table().spec_root_ppn(),
    {
        proof {
            let fa = choose|fa: StackFrameAllocator| self.table().wf(&fa);
            self.page_table.lemma_wf_shape(&fa);
        }
        self.page_table.token()
    }

    /// Unmaps and forgets every segment, as a task does on exit before it is reaped, and
    /// returns the frames of its framed pages for the frame allocator. The segments must be
    /// mapped and must not overlap; pages outside them keep their mappings.
    pub fn recycle_data_pages(&mut self) -> (r: Vec<u64>)
        requires
            old(self).table().shape_ok(),
            areas_disjoint(old(self).area_list()),
            forall|i: int, v: int| #![trigger old(self).area_list()[i], old(self).table().walk(v)]
                0 <= i < old(self).area_list().len() && old(self).area_list()[i].start_vpn <= v < old(self).area_list()[i].end_vpn
                ==> old(self).table().walk(v) is Some,
        ensures
            final(self).area_list() == Seq::<MapArea>::empty(),
            final(self).table().shape_ok(),
            forall|fa: StackFrameAllocator| #[trigger] old(self).table().wf(&fa) ==> final(self).table().wf(&fa),
            forall|v: int| 0 <= v < VPN_LIMIT && in_areas(old(self).area_list(), v) ==> #[trigger] final(self).table().walk(v) is None,
            forall|v: int| 0 <= v < VPN_LIMIT && !in_areas(old(self).area_list(), v) ==> #[trigger] final(self).table().walk(v) == old(self).table().walk(v),
    {
        let ghost all = self.areas@;
        let mut freed: Vec<u64> = Vec::new();
        while self.areas.len() > 0
            invariant
                all == old(self).areas@,
                areas_disjoint(all),
                self.areas@.len() <= all.len(),
                self.areas@ == all.subrange(0, self.areas@.len() as int),
                self.page_table.shape_ok(),
                forall|fa: StackFrameAllocator| #[trigger] old(self).table().wf(&fa) ==> self.page_table.wf(&fa),
                forall|i: int, v: int| #![trigger all[i], self.page_table.walk(v)]
                    0 <= i < self.areas@.len() && all[i].start_vpn <= v < all[i].end_vpn ==> self.page_table.walk(v) is Some,
                forall|v: int| 0 <= v < VPN_LIMIT && in_areas(all, v) && !in_areas(self.areas@, v) ==> #[trigger] self.page_table.walk(v) is None,
                forall|v: int| 0 <= v < VPN_LIMIT && !in_areas(all, v) ==> #[trigger] self.page_table.walk(v) == old(self).page_table.walk(v),
            decreases self.areas@.len(),
        {
            let ghost n = self.areas@.len() as int;
            let ghost a0 = self.areas@;
            let ghost before = self.page_table;
            proof { assert(a0[n - 1] == all[n - 1]); }
            let area = self.areas.pop().unwrap();
            proof {
                assert(area == a0.last());
                assert(all[n - 1] == area);
                assert forall|v: int| area.start_vpn <= v < area.end_vpn implies #[trigger] self.page_table.walk(v) is Some by {
                    assert(all[n - 1].start_vpn <= v < all[n - 1].end_vpn);
                    assert(before.walk(v) is Some);
                }
            }
            let mut f = area.unmap(&mut self.page_table);
            freed.append(&mut f);
            proof {
                assert(self.areas@ =~= all.subrange(0, n - 1));
                assert forall|fa: StackFrameAllocator| #[trigger] old(self).table().wf(&fa) implies self.page_table.wf(&fa) by {
                    assert(before.wf(&fa));
                }
                assert forall|i: int, v: int| #![trigger all[i], self.page_table.walk(v)]
                    0 <= i < self.areas@.len() && all[i].start_vpn <= v < all[i].end_vpn implies self.page_table.walk(v) is Some by {
                    assert(all[i].end_vpn <= all[n - 1].start_vpn || all[n - 1].end_vpn <= all[i].start_vpn);
                    assert(v < VPN_LIMIT);
                    assert(before.walk(v) is Some);
                }
                assert forall|v: int| 0 <= v < VPN_LIMIT && in_areas(all, v) && !in_areas(self.areas@, v) implies #[trigger] self.page_table.walk(v) is None by {
                    if !(area.start_vpn <= v < area.end_vpn) {
                        if in_areas(all.subrange(0, n), v) {
                            let j = choose|j: int| 0 <= j < all.subrange(0, n).len() && (#[trigger] all.subrange(0, n)[j]).start_vpn <= v < all.subrange(0, n)[j].end_vpn;
                            if j < n - 1 {
                                assert(self.areas@[j] == all[j]);
                            }
                        }
                        assert(before.walk(v) is None);
                    }
                }
                assert forall|v: int| 0 <= v < VPN_LIMIT && !in_areas(all, v) implies #[trigger] self.page_table.walk(v) == old(self).page_table.walk(v) by {
                    assert(!(all[n - 1].start_vpn <= v < all[n - 1].end_vpn));
                }
            }
        }
        proof {
            assert(all.subrange(0, all.len() as int) =~= all);
        }
        freed
    }
}

/// Page of the trampoline in the page table: the highest page sv39 translates.
pub const TRAMPOLINE_VPN: u64 = 0x7ff_ffff;

/// The segments lie below the trampoline and do not overlap.
pub open spec fn areas_disjoint(areas: Seq<MapArea>) -> bool {
    &&& forall|i: int| 0 <= i < areas.len() ==> (#[trigger] areas[i]).start_vpn <= areas[i].end_vpn <= TRAMPOLINE_VPN
    &&& forall|i: int| 0 <= i < areas.len() ==> (#[trigger] areas[i]).map_type == MapType::Identical ==> areas[i].end_vpn <= PPN_MASK + 1
    &&& forall|i: int, j: int| 0 <= i < areas.len() && 0 <= j < areas.len() && i != j
        ==> (#[trigger] areas[i]).end_vpn <= (#[trigger] areas[j]).start_vpn || areas[j].end_vpn <= areas[i].start_vpn
}

/// Number of pages that `areas` cover.
pub open spec fn pages_of(areas: Seq<MapArea>) -> int
    decreases areas.len(),
{
    if areas.len() == 0 {
        0
    } else {
        pages_of(areas.drop_last()) + (areas.last().end_vpn - areas.last().start_vpn)
    }
}

/// The prefix sums of `pages_of` grow along the sequence.
pub proof fn lemma_pages_of_prefix(areas: Seq<MapArea>, j: int, k: int)
    requires
        0 <= j <= k <= areas.len(),
        forall|i: int| 0 <= i < areas.len() ==> (#[trigger] areas[i]).start_vpn <= areas[i].end_vpn,
    ensures
        0 <= pages_of(areas.subrange(0, j)) <= pages_of(areas.subrange(0, k)),
        k == areas.len() ==> areas.subrange(0, k) == areas,
    decreases k,
{
    if k == areas.len() {
        assert(areas.subrange(0, k) =~= areas);
    }
    if k > 0 {
        let p = areas.subrange(0, k);
        assert(p.drop_last() =~= areas.subrange(0, k - 1));
        assert(p.last() == areas[k - 1]);
        if j < k {
            lemma_pages_of_prefix(areas, j, k - 1);
        } else {
            lemma_pages_of_prefix(areas, k - 1, k - 1);
        }
    } else {
        assert(areas.subrange(0, 0).len() == 0);
    }
}

/// `m` is the address space built from `areas` with the trampoline at `strampoline_ppn`,
/// taking frames from the allocator that was `fa0` and is now `fa`.
pub open spec fn built_from(m: MemorySet, areas: Seq<MapArea>, strampoline_ppn: u64, fa0: StackFrameAllocator, fa: StackFrameAllocator) -> bool {
    &&& m.table().wf(&fa)
    &&& m.area_list() == areas
    &&& m.table().walk(TRAMPOLINE_VPN as int) matches Some(e) && e.spec_ppn() == strampoline_ppn
        && e.spec_flags() == (MAP_R | MAP_X | PTE_V)
    &&& forall|i: int, v: int| 0 <= i < areas.len() && areas[i].start_vpn <= v < areas[i].end_vpn
        ==> (#[trigger] m.table().walk(v) matches Some(e)
        && e.spec_flags() == ((#[trigger] areas[i]).map_perm | PTE_V)
        && (areas[i].map_type == MapType::Identical ==> e.spec_ppn() == v)
        && (areas[i].map_type == MapType::Framed ==> fa0.free().contains(e.spec_ppn() as int)))
    &&& forall|v: int| 0 <= v < TRAMPOLINE_VPN && !in_areas(areas, v) ==> #[trigger] m.table().walk(v) is None
}

/// Whether page `v` lies in one of `areas`.
pub open spec fn in_areas(areas: Seq<MapArea>, v: int) -> bool {
    exists|i: int| 0 <= i < areas.len() && (#[trigger] areas[i]).start_vpn <= v < areas[i].end_vpn
}

impl MemorySet {
    /// Maps the trampoline page to frame `strampoline_ppn`, readable and executable, outside
    /// any segment. Returns `false` when frames run out.
    pub fn map_trampoline(&mut self, strampoline_ppn: u64, fa: &mut StackFrameAllocator) -> (r: bool)
        requires
            old(fa).wf(),
            old(self).table().wf(old(fa)),
            strampoline_ppn <= PPN_MASK,
            old(self).table().walk(TRAMPOLINE_VPN as int) is None,
            forall|p: int| #[trigger] old(fa).free().contains(p) ==> p <= PPN_MASK,
        ensures
            fa_follows(old(fa), final(fa)),
            final(fa).free_count() >= old(fa).free_count() - 2,
            old(fa).free_count() >= 2 ==> r,
            forall|p: int| #[trigger] final(fa).free().contains(p) ==> p <= PPN_MASK,
            final(self).table().wf(final(fa)),
            final(self).area_list() == old(self).area_list(),
            forall|v: int| 0 <= v < VPN_LIMIT && v != TRAMPOLINE_VPN ==> #[trigger] final(self).table().walk(v) == old(self).table().walk(v),
            r ==> (final(self).table().walk(TRAMPOLINE_VPN as int) matches Some(e) && e.spec_ppn() == strampoline_ppn
                && e.spec_flags() == (MAP_R | MAP_X | PTE_V)),
    {
        self.page_table.map(TRAMPOLINE_VPN, strampoline_ppn, MAP_R | MAP_X, fa)
    }

    /// An address space holding the trampoline, mapped to frame `strampoline_ppn`, then each
    /// of `areas` in order, over the same pages with the same mapping and permissions. Framed
    /// pages get frames of their own, all free before the call. It takes at most three frames
    /// for the trampoline and root and three per page, and succeeds whenever that many are
    /// free.
    pub fn from_areas(areas: &Vec<MapArea>, strampoline_ppn: u64, fa: &mut StackFrameAllocator) -> (r: Option<MemorySet>)
        requires
            old(fa).wf(),
            strampoline_ppn <= PPN_MASK,
            areas_disjoint(areas@),
            forall|p: int| #[trigger] old(fa).free().contains(p) ==> p <= PPN_MASK,
        ensures
            fa_follows(old(fa), final(fa)),
            final(fa).free_count() >= old(fa).free_count() - 3 - 3 * pages_of(areas@),
            old(fa).free_count() >= 3 + 3 * pages_of(areas@) ==> r is Some,
            match r {
                Some(m) => built_from(m, areas@, strampoline_ppn, *old(fa), *final(fa)),
                None => true,
            },
    {
        let ghost fa0 = *old(fa);
        proof { lemma_pages_of_prefix(areas@, 0, areas@.len() as int); }
        let mut memory_set = match MemorySet::new_bare(fa) {
            Some(m) => m,
            None => { return None; },
        };
        if !memory_set.map_trampoline(strampoline_ppn, fa) {
            return None;
        }
        let ghost all = areas@;
        let mut i: usize = 0;
        while i < areas.len()
            invariant
                i <= all.len(),
                all == areas@,
                areas_disjoint(all),
                fa.wf(),
                memory_set.table().wf(fa),
                fa_follows(&fa0, fa),
                fa0 == *old(fa),
                fa.free_count() >= fa0.free_count() - 3 - 3 * pages_of(all.subrange(0, i as int)),
                0 <= pages_of(all.subrange(0, i as int)) <= pages_of(all),
                forall|p: int| #[trigger] fa.free().contains(p) ==> p <= PPN_MASK,
                memory_set.area_list() == all.subrange(0, i as int),
                memory_set.table().walk(TRAMPOLINE_VPN as int) matches Some(e) && e.spec_ppn() == strampoline_ppn
                    && e.spec_flags() == (MAP_R | MAP_X | PTE_V),
                forall|j: int, v: int| 0 <= j < i && all[j].start_vpn <= v < all[j].end_vpn
                    ==> (#[trigger] memory_set.table().walk(v) matches Some(e)
                    && e.spec_flags() == ((#[trigger] all[j]).map_perm | PTE_V)
                    && (all[j].map_type == MapType::Identical ==> e.spec_ppn() == v)
                    && (all[j].map_type == MapType::Framed ==> fa0.free().contains(e.spec_ppn() as int))),
                forall|v: int| 0 <= v < TRAMPOLINE_VPN && !in_areas(all.subrange(0, i as int), v) ==> #[trigger] memory_set.table().walk(v) is None,
            decreases all.len() - i,
        {
            let area = MapArea::from_another(&areas[i]);
            let ghost before = memory_set;
            let ghost fa1 = *fa;
            proof {
                assert(all[i as int] == area);
                lemma_pages_of_prefix(all, i as int + 1, all.len() as int);
                assert(all.subrange(0, i + 1).drop_last() =~= all.subrange(0, i as int));
                assert(pages_of(all.subrange(0, i + 1)) == pages_of(all.subrange(0, i as int)) + (area.end_vpn - area.start_vpn));
                assert forall|v: int| area.start_vpn <= v < area.end_vpn implies #[trigger] memory_set.table().walk(v) is None by {
                    assert(v < TRAMPOLINE_VPN);
                    if in_areas(all.subrange(0, i as int), v) {
                        let j = choose|j: int| 0 <= j < all.subrange(0, i as int).len() && (#[trigger] all.subrange(0, i as int)[j]).start_vpn <= v < all.subrange(0, i as int)[j].end_vpn;
                        assert(all.subrange(0, i as int)[j] == all[j]);
                        assert(all[j].end_vpn <= all[i as int].start_vpn || all[i as int].end_vpn <= all[j].start_vpn);
                    }
                }
            }
            if !memory_set.push(area, fa) {
                return None;
            }
            proof {
                assert(memory_set.area_list() =~= all.subrange(0, i + 1));
                assert forall|j: int, v: int| 0 <= j < i + 1 && all[j].start_vpn <= v < all[j].end_vpn
                    implies (#[trigger] memory_set.table().walk(v) matches Some(e)
                    && e.spec_flags() == ((#[trigger] all[j]).map_perm | PTE_V)
                    && (all[j].map_type == MapType::Identical ==> e.spec_ppn() == v)
                    && (all[j].map_type == MapType::Framed ==> fa0.free().contains(e.spec_ppn() as int))) by {
                    if j < i {
                        assert(all[j].end_vpn <= all[i as int].start_vpn || all[i as int].end_vpn <= all[j].start_vpn);
                        assert(memory_set.table().walk(v) == before.table().walk(v));
                    } else {
                        if area.map_type == MapType::Framed {
                            let e = memory_set.table().walk(v)->Some_0;
                            assert(fa1.free().contains(e.spec_ppn() as int));
                        }
                    }
                }
                assert forall|v: int| 0 <= v < TRAMPOLINE_VPN && !in_areas(all.subrange(0, i + 1), v) implies #[trigger] memory_set.table().walk(v) is None by {
                    assert(all.subrange(0, i + 1)[i as int] == area);
                    assert(!(area.start_vpn <= v < area.end_vpn));
                    if in_areas(all.subrange(0, i as int), v) {
                        let j = choose|j: int| 0 <= j < all.subrange(0, i as int).len() && (#[trigger] all.subrange(0, i as int)[j]).start_vpn <= v < all.subrange(0, i as int)[j].end_vpn;
                        assert(all.subrange(0, i + 1)[j] == all.subrange(0, i as int)[j]);
                    }
                    assert(memory_set.table().walk(v) == before.table().walk(v));
                }
                assert(memory_set.table().walk(TRAMPOLINE_VPN as int) == before.table().walk(TRAMPOLINE_VPN as int));
            }
            i += 1;
        }
        proof {
            assert(all.subrange(0, all.len() as int) =~= all);
        }
        Some(memory_set)
    }

    /// A copy of the layout of `user_space` for a forked task, as `from_areas` builds it:
    /// every framed page gets a frame of its own that was free before the copy, so the two
    /// spaces share no framed frame.
    pub fn from_existed_user(user_space: &MemorySet, strampoline_ppn: u64, fa: &mut StackFrameAllocator) -> (r: Option<MemorySet>)
        requires
            old(fa).wf(),
            strampoline_ppn <= PPN_MASK,
            areas_disjoint(user_space.area_list()),
            forall|p: int| #[trigger] old(fa).free().contains(p) ==> p <= PPN_MASK,
        ensures
            fa_follows(old(fa), final(fa)),
            final(fa).free_count() >= old(fa).free_count() - 3 - 3 * pages_of(user_space.area_list()),
            old(fa).free_count() >= 3 + 3 * pages_of(user_space.area_list()) ==> r is Some,
            match r {
                Some(m) => built_from(m, user_space.area_list(), strampoline_ppn, *old(fa), *final(fa)),
                None => true,
            },
    {
        Self::from_areas(&user_space.areas, strampoline_ppn, fa)
    }
}

/// A forked space shares no framed frame with any frame in use when the copy began: each
/// framed page of the copy maps to a frame that was free then, and a free frame is none of
/// the frames handed out (such as those behind the parent's pages).
pub proof fn lemma_fork_frames_disjoint(fa: StackFrameAllocator, child_ppn: int, parent_ppn: int)
    requires
        fa.wf(),
        fa.free().contains(child_ppn),
        fa.is_allocated(parent_ppn),
    ensures
        child_ppn != parent_ppn,
{
    fa.lemma_allocated_iff_not_free(parent_ppn);
}

/// Whether `areas` lie below the trampoline and do not overlap, as `areas_disjoint` says.
pub fn check_areas_disjoint(areas: &Vec<MapArea>) -> (r: bool)
    ensures
        r == areas_disjoint(areas@),
{
    let n = areas.len();
    let mut i: usize = 0;
    while i < n
        invariant
            n == areas@.len(),
            i <= n,
            forall|a: int| 0 <= a < i ==> (#[trigger] areas@[a]).start_vpn <= areas@[a].end_vpn <= TRAMPOLINE_VPN,
            forall|a: int| 0 <= a < i ==> (#[trigger] areas@[a]).map_type == MapType::Identical ==> areas@[a].end_vpn <= PPN_MASK + 1,
            forall|a: int, b: int| 0 <= a < i && 0 <= b < n && a != b
                ==> (#[trigger] areas@[a]).end_vpn <= (#[trigger] areas@[b]).start_vpn || areas@[b].end_vpn <= areas@[a].start_vpn,
        decreases n - i,
    {
        let x = areas[i];
        if !(x.start_vpn <= x.end_vpn && x.end_vpn <= TRAMPOLINE_VPN) {
            return false;
        }
        if x.map_type == MapType::Identical && x.end_vpn > PPN_MASK + 1 {
            return false;
        }
        let mut j: usize = 0;
        while j < n
            invariant
                n == areas@.len(),
                i < n,
                j <= n,
                x == areas@[i as int],
                forall|b: int| 0 <= b < j && b != i
                    ==> x.end_vpn <= (#[trigger] areas@[b]).start_vpn || areas@[b].end_vpn <= x.start_vpn,
            decreases n - j,
        {
            if j != i {
                let y = areas[j];
                if !(x.end_vpn <= y.start_vpn || y.end_vpn <= x.start_vpn) {
                    return false;
                }
            }
            j += 1;
        }
        i += 1;
    }
    true
}

impl MemorySet {
    /// The kernel's address space from the layout `new_kernel` gives: its identity-mapped
    /// segments and the trampoline. `None` when the segments overlap or reach the
    /// trampoline; otherwise it succeeds whenever three frames per page, plus three, are free.
    pub fn from_kernel_layout(layout: &KernelLayout, fa: &mut StackFrameAllocator) -> (r: Option<MemorySet>)
        requires
            old(fa).wf(),
            forall|p: int| #[trigger] old(fa).free().contains(p) ==> p <= PPN_MASK,
        ensures
            fa_follows(old(fa), final(fa)),
            r is None && !(areas_disjoint(layout.areas@) && layout.trampoline_ppn <= PPN_MASK) ==> *final(fa) == *old(fa),
            areas_disjoint(layout.areas@) && layout.trampoline_ppn <= PPN_MASK
                && old(fa).free_count() >= 3 + 3 * pages_of(layout.areas@) ==> r is Some,
            match r {
                Some(m) => built_from(m, layout.areas@, layout.trampoline_ppn, *old(fa), *final(fa)),
                None => true,
            },
    {
        if !check_areas_disjoint(&layout.areas) || layout.trampoline_ppn > PPN_MASK {
            proof { assert(fa_follows(old(fa), fa)); }
            return None;
        }
        MemorySet::from_areas(&layout.areas, layout.trampoline_ppn, fa)
    }

    /// A program's address space from the layout `from_elf` gives: its segments, the user
    /// stack and trap-frame page, and the trampoline at frame `strampoline_ppn`. `None` when
    /// the segments overlap or reach the trampoline; otherwise it succeeds whenever three
    /// frames per page, plus three, are free. The file bytes of each loaded segment (the
    /// ranges in the layout) are copied into its frames by whoever holds physical memory.
    pub fn from_elf_layout(layout: &ElfLayout, strampoline_ppn: u64, fa: &mut StackFrameAllocator) -> (r: Option<MemorySet>)
        requires
            old(fa).wf(),
            strampoline_ppn <= PPN_MASK,
            forall|p: int| #[trigger] old(fa).free().contains(p) ==> p <= PPN_MASK,
        ensures
            fa_follows(old(fa), final(fa)),
            areas_disjoint(layout.areas@) && old(fa).free_count() >= 3 + 3 * pages_of(layout.areas@) ==> r is Some,
            !areas_disjoint(layout.areas@) ==> r is None,
            match r {
                Some(m) => built_from(m, layout.areas@, strampoline_ppn, *old(fa), *final(fa)),
                None => true,
            },
    {
        if !check_areas_disjoint(&layout.areas) {
            proof { assert(fa_follows(old(fa), fa)); }
            return None;
        }
        MemorySet::from_areas(&layout.areas, strampoline_ppn, fa)
    }
}

/// The frame that page `v` maps to in `table`.
pub open spec fn ppn_of(table: PageTable, v: int) -> int {
    table.walk(v)->Some_0.spec_ppn() as int
}

/// Every page of `area` is mapped in `table`, to a frame `mem` holds, and no two pages share
/// a frame.
pub open spec fn area_frames_ok(area: MapArea, table: PageTable, mem: PhysMemory) -> bool {
    &&& forall|v: int| area.start_vpn <= v < area.end_vpn ==> #[trigger] table.walk(v) is Some
    &&& forall|v: int| area.start_vpn <= v < area.end_vpn ==> mem.holds(#[trigger] ppn_of(table, v))
    &&& forall|v1: int, v2: int| area.start_vpn <= v1 < area.end_vpn && area.start_vpn <= v2 < area.end_vpn && v1 != v2
        ==> #[trigger] ppn_of(table, v1) != #[trigger] ppn_of(table, v2)
}

/// Whether frame `p` backs a page of `area` in `table`.
pub open spec fn backs(area: MapArea, table: PageTable, p: int) -> bool {
    exists|v: int| area.start_vpn <= v < area.end_vpn && #[trigger] ppn_of(table, v) == p
}

/// Part `i` of `data` cut in frame-sized chunks (shorter or empty at the end).
pub open spec fn chunk(data: Seq<u8>, i: int) -> Seq<u8> {
    let lo = if i * 4096 < data.len() { i * 4096 } else { data.len() as int };
    let hi = if (i + 1) * 4096 < data.len() { (i + 1) * 4096 } else { data.len() as int };
    data.subrange(lo, hi)
}

impl MapArea {
    /// Zeroes the frame of every page of the segment.
    pub fn zero_frames(&self, table: &PageTable, mem: &mut PhysMemory)
        requires
            table.shape_ok(),
            old(mem).wf(),
            self.start_vpn <= self.end_vpn,
            area_frames_ok(*self, *table, *old(mem)),
        ensures
            final(mem).wf(),
            final(mem).spec_base() == old(mem).spec_base(),
            final(mem).spec_count() == old(mem).spec_count(),
            forall|v: int| self.start_vpn <= v < self.end_vpn ==> #[trigger] final(mem).frame(ppn_of(*table, v)) == zero_frame(),
            forall|p: int| old(mem).holds(p) && !backs(*self, *table, p) ==> #[trigger] final(mem).frame(p) == old(mem).frame(p),
    {
        let mut vpn = self.start_vpn;
        while vpn < self.end_vpn
            invariant
                table.shape_ok(),
                mem.wf(),
                self.start_vpn <= vpn <= self.end_vpn,
                mem.spec_base() == old(mem).spec_base(),
                mem.spec_count() == old(mem).spec_count(),
                area_frames_ok(*self, *table, *old(mem)),
                forall|v: int| self.start_vpn <= v < vpn ==> #[trigger] mem.frame(ppn_of(*table, v)) == zero_frame(),
                forall|p: int| old(mem).holds(p) && !(exists|v: int| self.start_vpn <= v < vpn && #[trigger] ppn_of(*table, v) == p)
                    ==> #[trigger] mem.frame(p) == old(mem).frame(p),
            decreases self.end_vpn - vpn,
        {
            let ppn = table.translate(vpn).unwrap().ppn();
            proof { assert(ppn == ppn_of(*table, vpn as int)); }
            mem.zero(ppn);
            proof {
                assert forall|v: int| self.start_vpn <= v < vpn + 1 implies #[trigger] mem.frame(ppn_of(*table, v)) == zero_frame() by {
                    if v < vpn {
                        assert(ppn_of(*table, v) != ppn_of(*table, vpn as int));
                    }
                }
                assert forall|p: int| old(mem).holds(p) && !(exists|v: int| self.start_vpn <= v < vpn + 1 && #[trigger] ppn_of(*table, v) == p)
                    implies #[trigger] mem.frame(p) == old(mem).frame(p) by {
                    assert(ppn_of(*table, vpn as int) != p);
                }
            }
            vpn = vpn + 1;
        }
    }

    /// Copies `data` into the frames of the segment, page by page from its first page: page
    /// `i` receives chunk `i` of `data` at its start, the rest of its frame kept.
    pub fn copy_data(&self, table: &PageTable, mem: &mut PhysMemory, data: &[u8])
        requires
            table.shape_ok(),
            old(mem).wf(),
            self.map_type == MapType::Framed,
            self.start_vpn <= self.end_vpn,
            data@.len() <= (self.end_vpn - self.start_vpn) * 4096,
            area_frames_ok(*self, *table, *old(mem)),
        ensures
            final(mem).wf(),
            final(mem).spec_base() == old(mem).spec_base(),
            final(mem).spec_count() == old(mem).spec_count(),
            forall|v: int| self.start_vpn <= v < self.end_vpn ==> #[trigger] final(mem).frame(ppn_of(*table, v))
                == chunk(data@, v - self.start_vpn) + old(mem).frame(ppn_of(*table, v)).subrange(chunk(data@, v - self.start_vpn).len() as int, 4096),
            forall|p: int| old(mem).holds(p) && !backs(*self, *table, p) ==> #[trigger] final(mem).frame(p) == old(mem).frame(p),
    {
        let len = data.len();
        let mut vpn = self.start_vpn;
        let mut start: usize = 0;
        while vpn < self.end_vpn
            invariant
                table.shape_ok(),
                mem.wf(),
                self.start_vpn <= vpn <= self.end_vpn,
                len == data@.len(),
                len <= (self.end_vpn - self.start_vpn) * 4096,
                start == (vpn - self.start_vpn) * 4096 || (start >= len && start == len),
                start <= len,
                (vpn - self.start_vpn) * 4096 >= start,
                mem.spec_base() == old(mem).spec_base(),
                mem.spec_count() == old(mem).spec_count(),
                area_frames_ok(*self, *table, *old(mem)),
                forall|v: int| self.start_vpn <= v < vpn ==> #[trigger] mem.frame(ppn_of(*table, v))
                    == chunk(data@, v - self.start_vpn) + old(mem).frame(ppn_of(*table, v)).subrange(chunk(data@, v - self.start_vpn).len() as int, 4096),
                forall|p: int| old(mem).holds(p) && !(exists|v: int| self.start_vpn <= v < vpn && #[trigger] ppn_of(*table, v) == p)
                    ==> #[trigger] mem.frame(p) == old(mem).frame(p),
            decreases self.end_vpn - vpn,
        {
            let ppn = table.translate(vpn).unwrap().ppn();
            proof { assert(ppn == ppn_of(*table, vpn as int)); }
            let ghost i = (vpn - self.start_vpn) as int;
            let end = if len - start < FRAME_BYTES { len } else { start + FRAME_BYTES };
            proof {
                if start < len {
                    assert(start == i * 4096);
                    assert(chunk(data@, i) =~= data@.subrange(start as int, end as int));
                } else {
                    assert(i * 4096 >= len);
                    assert(chunk(data@, i) =~= data@.subrange(start as int, end as int));
                }
                assert(end - start <= 4096);
            }
            mem.write_prefix(ppn, &data[start..end]);
            proof {
                assert forall|v: int| self.start_vpn <= v < vpn + 1 implies #[trigger] mem.frame(ppn_of(*table, v))
                    == chunk(data@, v - self.start_vpn) + old(mem).frame(ppn_of(*table, v)).subrange(chunk(data@, v - self.start_vpn).len() as int, 4096) by {
                    if v < vpn {
                        assert(ppn_of(*table, v) != ppn_of(*table, vpn as int));
                    }
                }
                assert forall|p: int| old(mem).holds(p) && !(exists|v: int| self.start_vpn <= v < vpn + 1 && #[trigger] ppn_of(*table, v) == p)
                    implies #[trigger] mem.frame(p) == old(mem).frame(p) by {
                    assert(ppn_of(*table, vpn as int) != p);
                }
            }
            start = end;
            vpn = vpn + 1;
            proof {
                assert((vpn - self.start_vpn) * 4096 == i * 4096 + 4096);
            }
        }
    }

    /// Copies, page by page, the frames that `src` maps the segment's pages to into the
    /// frames that `dst` maps them to, as a fork copies a parent's memory. The destination
    /// frames are distinct and none is a source frame; afterwards each destination frame
    /// holds its page's source bytes, and every other frame is as it was.
    pub fn copy_pages(&self, src: &PageTable, dst: &PageTable, mem: &mut PhysMemory)
        requires
            src.shape_ok(),
            dst.shape_ok(),
            old(mem).wf(),
            self.start_vpn <= self.end_vpn,
            area_frames_ok(*self, *dst, *old(mem)),
            forall|v: int| self.start_vpn <= v < self.end_vpn ==> #[trigger] src.walk(v) is Some,
            forall|v: int| self.start_vpn <= v < self.end_vpn ==> old(mem).holds(#[trigger] ppn_of(*src, v)),
            forall|v1: int, v2: int| self.start_vpn <= v1 < self.end_vpn && self.start_vpn <= v2 < self.end_vpn
                ==> #[trigger] ppn_of(*dst, v1) != #[trigger] ppn_of(*src, v2),
        ensures
            final(mem).wf(),
            final(mem).spec_base() == old(mem).spec_base(),
            final(mem).spec_count() == old(mem).spec_count(),
            forall|v: int| self.start_vpn <= v < self.end_vpn ==> #[trigger] final(mem).frame(ppn_of(*dst, v)) == old(mem).frame(ppn_of(*src, v)),
            forall|p: int| old(mem).holds(p) && !backs(*self, *dst, p) ==> #[trigger] final(mem).frame(p) == old(mem).frame(p),
    {
        let mut vpn = self.start_vpn;
        while vpn < self.end_vpn
            invariant
                src.shape_ok(),
                dst.shape_ok(),
                mem.wf(),
                self.start_vpn <= vpn <= self.end_vpn,
                mem.spec_base() == old(mem).spec_base(),
                mem.spec_count() == old(mem).spec_count(),
                area_frames_ok(*self, *dst, *old(mem)),
                forall|v: int| self.start_vpn <= v < self.end_vpn ==> #[trigger] src.walk(v) is Some,
                forall|v: int| self.start_vpn <= v < self.end_vpn ==> old(mem).holds(#[trigger] ppn_of(*src, v)),
                forall|v1: int, v2: int| self.start_vpn <= v1 < self.end_vpn && self.start_vpn <= v2 < self.end_vpn
                    ==> #[trigger] ppn_of(*dst, v1) != #[trigger] ppn_of(*src, v2),
                forall|v: int| self.start_vpn <= v < vpn ==> #[trigger] mem.frame(ppn_of(*dst, v)) == old(mem).frame(ppn_of(*src, v)),
                forall|p: int| old(mem).holds(p) && !(exists|v: int| self.start_vpn <= v < vpn && #[trigger] ppn_of(*dst, v) == p)
                    ==> #[trigger] mem.frame(p) == old(mem).frame(p),
            decreases self.end_vpn - vpn,
        {
            let s = src.translate(vpn).unwrap().ppn();
            let d = dst.translate(vpn).unwrap().ppn();
            proof {
                assert(s == ppn_of(*src, vpn as int));
                assert(d == ppn_of(*dst, vpn as int));
                assert(ppn_of(*dst, vpn as int) != ppn_of(*src, vpn as int));
                assert(mem.frame(s as int) == old(mem).frame(s as int)) by {
                    if exists|v: int| self.start_vpn <= v < vpn && #[trigger] ppn_of(*dst, v) == s as int {
                        let v = choose|v: int| self.start_vpn <= v < vpn && #[trigger] ppn_of(*dst, v) == s as int;
                        assert(ppn_of(*dst, v) != ppn_of(*src, vpn as int));
                    }
                }
            }
            mem.copy_frame(s, d);
            proof {
                assert forall|v: int| self.start_vpn <= v < vpn + 1 implies #[trigger] mem.frame(ppn_of(*dst, v)) == old(mem).frame(ppn_of(*src, v)) by {
                    if v < vpn {
                        assert(ppn_of(*dst, v) != ppn_of(*dst, vpn as int));
                    }
                }
                assert forall|p: int| old(mem).holds(p) && !(exists|v: int| self.start_vpn <= v < vpn + 1 && #[trigger] ppn_of(*dst, v) == p)
                    implies #[trigger] mem.frame(p) == old(mem).frame(p) by {
                    assert(ppn_of(*dst, vpn as int) != p);
                }
            }
            vpn = vpn + 1;
        }
    }
}

} // verus!
