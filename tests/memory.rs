use easy_os::memory_set::{
    from_elf, new_kernel, ElfSegment, KernelSections, MapArea, MapType, MAP_R, MAP_U, MAP_W, MAP_X,
};
use easy_os::page_table::{root_ppn_of_token, token, vpn_indexes, PageTableEntry, PTE_R, PTE_V, PTE_W};

#[test]
fn map_area_widens_to_whole_pages() {
    let a = MapArea::new(0x1234, 0x3001, MapType::Framed, MAP_R);
    assert_eq!(a.start_vpn, 1);
    assert_eq!(a.end_vpn, 4);
    let b = MapArea::new(0x1000, 0x3000, MapType::Identical, MAP_R);
    assert_eq!((b.start_vpn, b.end_vpn), (1, 3));
    assert_eq!(MapArea::from_another(&a), a);
}

#[test]
fn elf_layout_places_stack_above_guard_page() {
    let segs = vec![
        ElfSegment { is_load: true, vaddr: 0x10000, mem_size: 0x1800, offset: 0x1000, file_size: 0x1800, flags: 4 | 1 },
        ElfSegment { is_load: false, vaddr: 0, mem_size: 0, offset: 0, file_size: 0, flags: 0 },
        ElfSegment { is_load: true, vaddr: 0x12000, mem_size: 0x2000, offset: 0x2800, file_size: 0x100, flags: 4 | 2 },
    ];
    let l = from_elf(&segs, 0x3000, 0x10000).unwrap();
    assert_eq!(l.areas.len(), 5);
    assert_eq!(l.areas[0], MapArea { start_vpn: 0x10, end_vpn: 0x12, map_type: MapType::Framed, map_perm: MAP_U | MAP_R | MAP_X });
    assert_eq!(l.areas[1], MapArea { start_vpn: 0x12, end_vpn: 0x14, map_type: MapType::Framed, map_perm: MAP_U | MAP_R | MAP_W });
    assert_eq!(l.data, vec![(0x1000, 0x2800), (0x2800, 0x2900)]);
    assert_eq!(l.areas[2], MapArea { start_vpn: 0x15, end_vpn: 0x17, map_type: MapType::Framed, map_perm: MAP_R | MAP_W | MAP_U });
    assert_eq!(l.user_sp, 0x17000);
    assert_eq!(l.areas[3].start_vpn, 0x17);
    assert_eq!(l.areas[3].end_vpn, 0x17);
    assert_eq!(l.areas[4].start_vpn, 0x7ff_fffe);
    assert_eq!(l.areas[4].end_vpn, 0x7ff_ffff);
    assert_eq!(l.areas[4].map_perm, MAP_R | MAP_W);
    assert_eq!(l.entry_point, 0x10000);
}

#[test]
fn elf_layout_rejects_segment_past_file_end() {
    let segs = vec![ElfSegment { is_load: true, vaddr: 0x10000, mem_size: 0x100, offset: 0x80, file_size: 0x100, flags: 4 }];
    assert!(from_elf(&segs, 0x100, 0).is_none());
    let short = vec![ElfSegment { is_load: true, vaddr: 0x10000, mem_size: 0x10, offset: 0, file_size: 0x20, flags: 4 }];
    assert!(from_elf(&short, 0x100, 0).is_none());
}

#[test]
fn kernel_layout_maps_sections_identically() {
    let s = KernelSections {
        stext: 0x8020_0000,
        etext: 0x8020_5000,
        srodata: 0x8020_5000,
        erodata: 0x8020_6800,
        sdata: 0x8020_7000,
        edata: 0x8020_8000,
        sbss_with_stack: 0x8020_8000,
        ebss: 0x8022_0000,
        ekernel: 0x8022_0000,
        strampoline: 0x8020_4000,
    };
    let k = new_kernel(s);
    assert_eq!(k.areas.len(), 7);
    assert_eq!(k.areas[0], MapArea { start_vpn: 0x80200, end_vpn: 0x80205, map_type: MapType::Identical, map_perm: MAP_R | MAP_X });
    assert_eq!(k.areas[1].end_vpn, 0x80207);
    assert_eq!(k.areas[4].end_vpn, 0x88000);
    assert_eq!(k.areas[5], MapArea { start_vpn: 0x100, end_vpn: 0x102, map_type: MapType::Identical, map_perm: MAP_R | MAP_W });
    assert_eq!(k.trampoline_vpn, 0x7ff_ffff);
    assert_eq!(k.trampoline_ppn, 0x80204);
}

#[test]
fn page_table_entry_round_trip() {
    let e = PageTableEntry::new(0x8_0123, PTE_V | PTE_R | PTE_W);
    assert_eq!(e.ppn(), 0x8_0123);
    assert_eq!(e.flags(), PTE_V | PTE_R | PTE_W);
    assert!(e.is_valid());
    assert!(e.readable());
    assert!(e.writable());
    assert!(!e.executable());
    assert_eq!(e.bits, (0x8_0123 << 10) | 7);
    assert!(!PageTableEntry::empty().is_valid());
}

#[test]
fn sv39_indexes_and_token() {
    let vpn = (3 << 18) | (5 << 9) | 7;
    assert_eq!(vpn_indexes(vpn), (3, 5, 7));
    let t = token(0x80400);
    assert_eq!(t, (8u64 << 60) | 0x80400);
    assert_eq!(root_ppn_of_token(t), 0x80400);
}

use easy_os::frame_allocator::{PhysPageNum, StackFrameAllocator};
use easy_os::page_table::{PageTable, PTE_X};

#[test]
fn page_table_translates_what_was_mapped() {
    let mut fa = StackFrameAllocator::new();
    fa.init(PhysPageNum(0x80000), PhysPageNum(0x80100));
    let mut pt = PageTable::new(&mut fa).unwrap();
    assert!(pt.translate(0x10).is_none());
    assert!(pt.map(0x10, 0x1234, PTE_R | PTE_W, &mut fa));
    let e = pt.translate(0x10).unwrap();
    assert_eq!(e.ppn(), 0x1234);
    assert_eq!(e.flags(), PTE_R | PTE_W | PTE_V);
    assert!(pt.translate(0x11).is_none());
    assert!(pt.map(0x7ff_ffff, 0x99, PTE_R | PTE_X, &mut fa));
    assert!(pt.map(0x11, 0x55, PTE_R, &mut fa));
    assert_eq!(pt.translate(0x11).unwrap().ppn(), 0x55);
    assert_eq!(pt.translate(0x7ff_ffff).unwrap().ppn(), 0x99);
    pt.unmap(0x10);
    assert!(pt.translate(0x10).is_none());
    assert_eq!(pt.translate(0x11).unwrap().ppn(), 0x55);
    assert!(pt.map(0x10, 0x77, PTE_R, &mut fa));
    assert_eq!(pt.translate(0x10).unwrap().ppn(), 0x77);
    // root, then two index nodes for each of the two distinct paths
    assert_eq!(fa.allocate(), Some(PhysPageNum(0x80005)));
    assert_eq!(pt.token(), (8u64 << 60) | 0x80000);
}

#[test]
fn page_table_map_fails_cleanly_without_frames() {
    let mut fa = StackFrameAllocator::new();
    fa.init(PhysPageNum(0x80000), PhysPageNum(0x80002));
    let mut pt = PageTable::new(&mut fa).unwrap();
    assert!(!pt.map(0x10, 0x1234, PTE_R, &mut fa));
    assert!(pt.translate(0x10).is_none());
}

use easy_os::memory_set::MemorySet;

#[test]
fn memory_set_maps_identical_and_framed_segments() {
    let mut fa = StackFrameAllocator::new();
    fa.init(PhysPageNum(0x80000), PhysPageNum(0x80100));
    let mut ms = MemorySet::new_bare(&mut fa).unwrap();
    let text = MapArea::new(0x8020_0000, 0x8020_2000, MapType::Identical, MAP_R | MAP_X);
    assert!(ms.push(text, &mut fa));
    let e = ms.translate(0x80201).unwrap();
    assert_eq!(e.ppn(), 0x80201);
    assert_eq!(e.flags(), MAP_R | MAP_X | PTE_V);
    let stack = MapArea::new(0x1000, 0x3000, MapType::Framed, MAP_R | MAP_W | MAP_U);
    assert!(ms.push(stack, &mut fa));
    let a = ms.translate(1).unwrap().ppn();
    let b = ms.translate(2).unwrap().ppn();
    assert_ne!(a, b);
    assert!(ms.translate(3).is_none());
    assert_eq!(ms.token() >> 60, 8);
    let freed = ms.recycle_data_pages();
    assert_eq!(freed, vec![a, b]);
    assert!(ms.translate(1).is_none());
    assert!(ms.translate(0x80201).is_none());
    for f in freed {
        fa.dealloc(PhysPageNum(f as usize));
    }
}

#[test]
fn forked_space_has_same_layout_and_own_frames() {
    let mut fa = StackFrameAllocator::new();
    fa.init(PhysPageNum(0x80000), PhysPageNum(0x80100));
    let mut parent = MemorySet::new_bare(&mut fa).unwrap();
    assert!(parent.map_trampoline(0x80400, &mut fa));
    assert!(parent.push(MapArea::new(0x10000, 0x12000, MapType::Framed, MAP_R | MAP_W | MAP_U), &mut fa));
    let child = MemorySet::from_existed_user(&parent, 0x80400, &mut fa).unwrap();
    for vpn in 0x10..0x12 {
        let p = parent.translate(vpn).unwrap();
        let c = child.translate(vpn).unwrap();
        assert_eq!(p.flags(), c.flags());
        assert_ne!(p.ppn(), c.ppn());
    }
    assert_eq!(child.translate(0x7ff_ffff).unwrap().ppn(), 0x80400);
    assert!(child.translate(0x12).is_none());
}

use easy_os::page_table::user_buffer_pieces;

#[test]
fn virtual_address_translation_keeps_offset() {
    let mut fa = StackFrameAllocator::new();
    fa.init(PhysPageNum(0x80000), PhysPageNum(0x80100));
    let mut pt = PageTable::new(&mut fa).unwrap();
    assert!(pt.map(0x10, 0x1234, PTE_R, &mut fa));
    assert_eq!(pt.translate_va(0x10_abc), Some(0x1234_abc));
    assert_eq!(pt.translate_va(0x11_000), None);
}

#[test]
fn user_buffers_split_at_page_boundaries() {
    assert_eq!(user_buffer_pieces(0x1ff0, 0x20), vec![(0x1ff0, 0x10), (0x2000, 0x10)]);
    assert_eq!(user_buffer_pieces(0x3000, 0x2000), vec![(0x3000, 0x1000), (0x4000, 0x1000)]);
    assert_eq!(user_buffer_pieces(0x3000, 0), vec![]);
    assert_eq!(user_buffer_pieces(5, 3), vec![(5, 3)]);
}

#[test]
fn kernel_stack_area_is_framed_and_writable() {
    let mut fa = StackFrameAllocator::new();
    fa.init(PhysPageNum(0x80000), PhysPageNum(0x80100));
    let mut ms = MemorySet::new_bare(&mut fa).unwrap();
    assert!(ms.insert_framed_area(0x7f_ffff_d000 - 0x2000, 0x7f_ffff_d000, MAP_R | MAP_W, &mut fa));
    let e = ms.translate(0x7ff_fffb).unwrap();
    assert_eq!(e.flags(), MAP_R | MAP_W | PTE_V);
    assert!(ms.translate(0x7ff_fffd).is_none());
}

#[test]
fn elf_stack_goes_above_highest_segment_even_when_listed_first() {
    let segs = vec![
        ElfSegment { is_load: true, vaddr: 0x40000, mem_size: 0x1000, offset: 0, file_size: 0x100, flags: 4 },
        ElfSegment { is_load: true, vaddr: 0x10000, mem_size: 0x1000, offset: 0, file_size: 0x100, flags: 4 },
    ];
    let l = from_elf(&segs, 0x1000, 0x10000).unwrap();
    assert_eq!(l.areas[2].start_vpn, 0x42);
    assert_eq!(l.user_sp, 0x44000);
}

use easy_os::page_table::translated_byte_buffer;

#[test]
fn program_address_space_maps_segments_stack_and_trampoline() {
    let segs = vec![ElfSegment { is_load: true, vaddr: 0x10000, mem_size: 0x1800, offset: 0, file_size: 0x100, flags: 4 | 1 }];
    let layout = from_elf(&segs, 0x1000, 0x10000).unwrap();
    let mut fa = StackFrameAllocator::new();
    fa.init(PhysPageNum(0x80000), PhysPageNum(0x80100));
    let ms = MemorySet::from_elf_layout(&layout, 0x80400, &mut fa).unwrap();
    assert_eq!(ms.translate(0x10).unwrap().flags(), MAP_U | MAP_R | MAP_X | PTE_V);
    assert!(ms.translate(0x12).is_none());
    assert_eq!(ms.translate(0x13).unwrap().flags(), MAP_R | MAP_W | MAP_U | PTE_V);
    assert_eq!(ms.translate(0x7ff_fffe).unwrap().flags(), MAP_R | MAP_W | PTE_V);
    assert_eq!(ms.translate(0x7ff_ffff).unwrap().ppn(), 0x80400);
}

#[test]
fn kernel_address_space_is_identity_mapped() {
    let s = KernelSections {
        stext: 0x8020_0000,
        etext: 0x8020_2000,
        srodata: 0x8020_2000,
        erodata: 0x8020_3000,
        sdata: 0x8020_3000,
        edata: 0x8020_4000,
        sbss_with_stack: 0x8020_4000,
        ebss: 0x8020_5000,
        ekernel: 0x87ff_e000,
        strampoline: 0x8020_1000,
    };
    let layout = new_kernel(s);
    let mut fa = StackFrameAllocator::new();
    fa.init(PhysPageNum(0x90000), PhysPageNum(0x90100));
    let ms = MemorySet::from_kernel_layout(&layout, &mut fa).unwrap();
    assert_eq!(ms.translate(0x80201).unwrap().ppn(), 0x80201);
    assert_eq!(ms.translate(0x100).unwrap().ppn(), 0x100);
    assert_eq!(ms.translate(0x7ff_ffff).unwrap().ppn(), 0x80201);
}

#[test]
fn user_buffer_translates_page_by_page() {
    let mut fa = StackFrameAllocator::new();
    fa.init(PhysPageNum(0x80000), PhysPageNum(0x80100));
    let mut pt = PageTable::new(&mut fa).unwrap();
    assert!(pt.map(0x10, 0x500, PTE_R, &mut fa));
    assert!(pt.map(0x11, 0x900, PTE_R, &mut fa));
    assert_eq!(translated_byte_buffer(&pt, 0x10ff0, 0x20), Some(vec![(0x500ff0, 0x10), (0x900000, 0x10)]));
    assert_eq!(translated_byte_buffer(&pt, 0x11ff0, 0x20), None);
}

#[test]
fn segments_grow_shrink_and_go_away() {
    let mut fa = StackFrameAllocator::new();
    fa.init(PhysPageNum(0x80000), PhysPageNum(0x80100));
    let mut pt = PageTable::new(&mut fa).unwrap();
    let mut area = MapArea::new(0x10000, 0x12000, MapType::Framed, MAP_R | MAP_W);
    assert!(area.map(&mut pt, &mut fa));
    assert!(area.append_to(&mut pt, 0x14, &mut fa));
    assert_eq!(area.end_vpn, 0x14);
    assert!(pt.translate(0x13).is_some());
    let freed = area.shrink_to(&mut pt, 0x11);
    assert_eq!(freed.len(), 3);
    assert_eq!(area.end_vpn, 0x11);
    assert!(pt.translate(0x11).is_none());
    assert!(pt.translate(0x10).is_some());
    let rest = area.unmap(&mut pt);
    assert_eq!(rest.len(), 1);
    assert!(pt.translate(0x10).is_none());

    let mut ms = MemorySet::new_bare(&mut fa).unwrap();
    assert!(ms.insert_framed_area(0x20000, 0x22000, MAP_R, &mut fa));
    assert!(ms.remove_area_with_start_vpn(0x21).is_none());
    assert_eq!(ms.remove_area_with_start_vpn(0x20).unwrap().len(), 2);
    assert!(ms.translate(0x20).is_none());
}

use easy_os::phys_mem::PhysMemory;

#[test]
fn segment_bytes_are_copied_and_the_tail_is_zero() {
    let mut fa = StackFrameAllocator::new();
    fa.init(PhysPageNum(0x80000), PhysPageNum(0x80100));
    let mut mem = PhysMemory::new(0x80000, 0x100);
    let mut pt = PageTable::new(&mut fa).unwrap();
    let area = MapArea::new(0x10000, 0x12000, MapType::Framed, MAP_R | MAP_U);
    assert!(area.map(&mut pt, &mut fa));
    mem.write_prefix(pt.translate(0x11).unwrap().ppn(), &[9u8; 10]);
    area.zero_frames(&pt, &mut mem);
    let data: Vec<u8> = (0..5000).map(|i| (i % 200 + 1) as u8).collect();
    area.copy_data(&pt, &mut mem, &data);
    let p0 = pt.translate(0x10).unwrap().ppn();
    let p1 = pt.translate(0x11).unwrap().ppn();
    assert_eq!(mem.read_byte(p0, 0), data[0]);
    assert_eq!(mem.read_byte(p0, 4095), data[4095]);
    assert_eq!(mem.read_byte(p1, 903), data[4999]);
    assert_eq!(mem.read_byte(p1, 904), 0);
    assert_eq!(mem.read_byte(p1, 4095), 0);
}

#[test]
fn fork_copies_bytes_into_separate_frames() {
    let mut fa = StackFrameAllocator::new();
    fa.init(PhysPageNum(0x80000), PhysPageNum(0x80100));
    let mut mem = PhysMemory::new(0x80000, 0x100);
    let mut parent = MemorySet::new_bare(&mut fa).unwrap();
    assert!(parent.map_trampoline(0x80400, &mut fa));
    let area = MapArea::new(0x10000, 0x12000, MapType::Framed, MAP_R | MAP_W | MAP_U);
    assert!(parent.push(area, &mut fa));
    let pp = parent.translate(0x10).unwrap().ppn();
    mem.write_prefix(pp, &[1, 2, 3]);
    let child = MemorySet::from_existed_user(&parent, 0x80400, &mut fa).unwrap();
    area.copy_pages(parent.page_table(), child.page_table(), &mut mem);
    let cp = child.translate(0x10).unwrap().ppn();
    assert_ne!(pp, cp);
    assert_eq!(mem.read_byte(cp, 2), 3);
    mem.write_prefix(pp, &[7]);
    assert_eq!(mem.read_byte(cp, 0), 1);
}
