use rcore_os::address::{PhysAddr, PhysPageNum, SimpleRange, SimpleRangeIterator, StepByOne, VirtAddr, VirtPageNum};
use rcore_os::config::{kernel_stack_position, TRAMPOLINE};
use rcore_os::frame_allocator::{frame_alloc, frame_dealloc, init_frame_allocator, StackFrameAllocator};
use rcore_os::memory_set::{
    translated_byte_buffer,
    segment_perm_of, KernelLayout, MapArea, MapPermission, MapType, MemorySet, PERM_R, PERM_U, PERM_W, PERM_X,
    TRAMPOLINE_VPN,
};
use rcore_os::page_table::{PTEFlags, PageTable, PageTableEntry, PTE_R, PTE_V, PTE_W, PTE_X};

fn allocator(l: u64, r: u64) -> StackFrameAllocator {
    let mut a = StackFrameAllocator::new();
    a.init(PhysPageNum(l), PhysPageNum(r));
    a
}

#[test]
fn address_floor_ceil_offset() {
    assert_eq!(VirtAddr(0x1234).floor().0, 1);
    assert_eq!(VirtAddr(0x1234).ceil().0, 2);
    assert_eq!(VirtAddr(0x2000).ceil().0, 2);
    assert_eq!(VirtAddr(0).ceil().0, 0);
    assert_eq!(VirtAddr(0x1234).page_offset(), 0x234);
    assert!(VirtAddr(0x3000).is_aligned());
    assert!(!VirtAddr(0x3001).is_aligned());
    assert_eq!(PhysAddr(0x8020_0fff).floor().0, 0x80200);
    assert_eq!(PhysAddr(0x8020_0001).ceil().0, 0x80201);
    assert_eq!(PhysAddr(0x10).page_offset(), 0x10);
    assert!(PhysAddr(0x8000_0000).is_aligned());
    assert_eq!(VirtAddr::from_vpn(VirtPageNum(0x10)).0, 0x10000);
}

#[test]
fn ceil_at_the_top_does_not_overflow() {
    assert_eq!(VirtAddr(u64::MAX).ceil().0, 0x10_0000_0000_0000);
    assert_eq!(VirtAddr(TRAMPOLINE).ceil().0, TRAMPOLINE_VPN);
    assert_eq!(VirtAddr(TRAMPOLINE).floor().0, TRAMPOLINE_VPN);
}

#[test]
fn vpn_indexes() {
    let v = VirtPageNum((3 << 18) | (5 << 9) | 7);
    assert_eq!(v.indexes(), [3, 5, 7]);
    assert_eq!(VirtPageNum(TRAMPOLINE_VPN).indexes(), [511, 511, 511]);
}

#[test]
fn simple_range_iterates_in_order() {
    let r = SimpleRange::new(VirtPageNum(4), VirtPageNum(7));
    assert_eq!(r.get_start().0, 4);
    assert_eq!(r.get_end().0, 7);
    let mut it = r.iter();
    let mut seen = Vec::new();
    while let Some(v) = it.next() {
        seen.push(v.0);
    }
    assert_eq!(seen, vec![4, 5, 6]);
    let mut empty = SimpleRangeIterator::new(VirtPageNum(9), VirtPageNum(9));
    assert!(empty.next().is_none());
    let mut v = VirtPageNum(9);
    v.step();
    assert_eq!(v.0, 10);
}

#[test]
fn frame_allocator_hands_out_in_order_and_runs_out() {
    let mut a = allocator(10, 13);
    assert_eq!(a.free_count(), 3);
    assert_eq!(a.allocate().unwrap().0, 10);
    assert_eq!(a.allocate().unwrap().0, 11);
    assert_eq!(a.allocate().unwrap().0, 12);
    assert!(a.allocate().is_none());
    assert_eq!(a.free_count(), 0);
}

#[test]
fn frame_allocator_is_last_in_first_out() {
    let mut a = allocator(10, 20);
    let p = a.allocate().unwrap();
    let q = a.allocate().unwrap();
    a.deallocate(p);
    a.deallocate(q);
    assert_eq!(a.allocate().unwrap().0, q.0);
    assert_eq!(a.allocate().unwrap().0, p.0);
    assert_eq!(a.allocate().unwrap().0, 12);
}

#[test]
fn alloc_dealloc_alloc_gives_the_same_frame() {
    let mut a = allocator(100, 200);
    let f = frame_alloc(&mut a).unwrap();
    let p = f.ppn.0;
    frame_dealloc(&mut a, f);
    assert_eq!(frame_alloc(&mut a).unwrap().ppn.0, p);
}

#[test]
fn frame_allocator_test() {
    let mut a = allocator(0x80220, 0x80800);
    let mut v = Vec::new();
    for _ in 0..5 {
        v.push(frame_alloc(&mut a).unwrap());
    }
    let first: Vec<u64> = v.iter().map(|f| f.ppn.0).collect();
    assert_eq!(first, vec![0x80220, 0x80221, 0x80222, 0x80223, 0x80224]);
    while let Some(f) = v.pop() {
        frame_dealloc(&mut a, f);
    }
    for _ in 0..5 {
        v.push(frame_alloc(&mut a).unwrap());
    }
    let second: Vec<u64> = v.iter().map(|f| f.ppn.0).collect();
    assert_eq!(second, first);
}

#[test]
fn init_frame_allocator_rounds_the_kernel_end_up() {
    let mut a = StackFrameAllocator::new();
    init_frame_allocator(&mut a, 0x8022_0001);
    assert_eq!(a.allocate().unwrap().0, 0x80221);
    assert_eq!(a.free_count(), 0x80800 - 0x80222);
}

#[test]
fn page_table_entry_fields() {
    let e = PageTableEntry::new(PhysPageNum(0x80400), PTEFlags::from_bits(PTE_V | PTE_R | PTE_W));
    assert_eq!(e.bits, (0x80400 << 10) | 0x7);
    assert_eq!(e.ppn().0, 0x80400);
    assert_eq!(e.flags().bits, 0x7);
    assert!(e.is_valid() && e.is_readable() && e.is_writable() && !e.is_executable());
    assert!(!PageTableEntry::empty().is_valid());
    assert!(PTEFlags::from_bits(0xf).contains(PTEFlags::from_bits(PTE_X)));
}

#[test]
fn map_then_translate_then_unmap() {
    let mut a = allocator(0x80220, 0x80800);
    let mut t = PageTable::new(&mut a).unwrap();
    let vpn = VirtPageNum(0x12345);
    assert!(t.translate(vpn).is_none());
    assert!(t.map(&mut a, vpn, PhysPageNum(0x80500), PTEFlags::from_bits(PTE_R | PTE_W)));
    let e = t.translate(vpn).unwrap();
    assert_eq!(e.ppn().0, 0x80500);
    assert_eq!(e.flags().bits, PTE_R | PTE_W | PTE_V);
    assert!(t.translate(VirtPageNum(0x12346)).is_none());
    t.unmap(vpn);
    assert!(t.translate(vpn).is_none());
    // the root and the two tables below it
    assert_eq!(a.free_count(), 0x80800 - 0x80220 - 3);
}

#[test]
fn pages_with_the_same_low_bits_are_told_apart() {
    let mut a = allocator(0x80220, 0x80800);
    let mut t = PageTable::new(&mut a).unwrap();
    assert!(t.map(&mut a, VirtPageNum(TRAMPOLINE_VPN), PhysPageNum(0x80200), PTEFlags::from_bits(PTE_R | PTE_X)));
    assert!(t.translate(VirtPageNum(0x7ff_ffff)).is_none());
    assert!(t.translate(VirtPageNum(TRAMPOLINE_VPN)).is_some());
}

#[test]
fn token_holds_mode_and_root() {
    let mut a = allocator(0x80220, 0x80800);
    let t = PageTable::new(&mut a).unwrap();
    assert_eq!(t.token(), (8u64 << 60) | 0x80220);
    assert_eq!(t.root_ppn().0, 0x80220);
}

#[test]
fn every_address_space_maps_the_trampoline() {
    let mut a = allocator(0x80220, 0x80800);
    let m = MemorySet::new_bare(&mut a, PhysPageNum(0x80201)).unwrap();
    let e = m.translate(VirtPageNum(TRAMPOLINE_VPN)).unwrap();
    assert_eq!(e.ppn().0, 0x80201);
    assert_eq!(e.flags().bits, PTE_R | PTE_X | PTE_V);
}

#[test]
fn new_bare_needs_three_frames() {
    let mut a = allocator(10, 12);
    assert!(MemorySet::new_bare(&mut a, PhysPageNum(1)).is_none());
}

#[test]
fn framed_area_pages_translate_to_their_frames() {
    let mut a = allocator(0x80220, 0x80800);
    let mut m = MemorySet::new_bare(&mut a, PhysPageNum(0x80201)).unwrap();
    assert!(m.insert_framed_area(&mut a, VirtAddr(0x1000_0000), VirtAddr(0x1000_3000), MapPermission { bits: PERM_R | PERM_W | PERM_U }));
    for v in 0x10000..0x10003 {
        let e = m.translate(VirtPageNum(v)).unwrap();
        assert_eq!(e.flags().bits, PERM_R | PERM_W | PERM_U | PTE_V);
    }
    let ppn_a = m.translate(VirtPageNum(0x10000)).unwrap().ppn().0;
    let ppn_b = m.translate(VirtPageNum(0x10001)).unwrap().ppn().0;
    assert_ne!(ppn_a, ppn_b);
    assert!(m.translate(VirtPageNum(0x10003)).is_none());
    assert!(!m.is_range_unmapped(VirtPageNum(0x10002), VirtPageNum(0x10004)));
    assert!(m.is_range_unmapped(VirtPageNum(0x10003), VirtPageNum(0x10004)));
}

#[test]
fn removing_an_area_unmaps_it_and_frees_its_frames() {
    let mut a = allocator(0x80220, 0x80800);
    let mut m = MemorySet::new_bare(&mut a, PhysPageNum(0x80201)).unwrap();
    assert!(m.insert_framed_area(&mut a, VirtAddr(0x1000_0000), VirtAddr(0x1000_2000), MapPermission { bits: PERM_R | PERM_U }));
    let free = a.free_count();
    assert!(!m.remove_framed_area(&mut a, VirtAddr(0x1000_0000), VirtAddr(0x1000_1000)));
    assert!(m.remove_framed_area(&mut a, VirtAddr(0x1000_0000), VirtAddr(0x1000_2000)));
    assert!(m.translate(VirtPageNum(0x10000)).is_none());
    assert!(m.translate(VirtPageNum(0x10001)).is_none());
    assert_eq!(a.free_count(), free + 2);
}

#[test]
fn map_area_keeps_its_range() {
    let area = MapArea::new(VirtAddr(0x1800), VirtAddr(0x4001), MapType::Identical, MapPermission::from_bits_truncate(0xff));
    assert_eq!(area.vpn_range().get_start().0, 1);
    assert_eq!(area.vpn_range().get_end().0, 5);
    assert_eq!(area.map_type(), MapType::Identical);
    assert_eq!(area.map_perm().bits, 0x1e);
}

#[test]
fn user_bytes_round_trip() {
    let mut a = allocator(0x80220, 0x80800);
    let mut m = MemorySet::new_bare(&mut a, PhysPageNum(0x80201)).unwrap();
    assert!(m.insert_framed_area(&mut a, VirtAddr(0x2000), VirtAddr(0x4000), MapPermission { bits: PERM_R | PERM_W | PERM_U }));
    assert_eq!(m.read_user_bytes(0x2ffe, 4).unwrap(), vec![0, 0, 0, 0]);
    assert!(m.write_user_bytes(0x2ffe, &[1, 2, 3, 4]));
    assert_eq!(m.read_user_bytes(0x2ffe, 4).unwrap(), vec![1, 2, 3, 4]);
    assert!(m.read_user_bytes(0x3ffe, 4).is_none());
    assert!(!m.write_user_bytes(0x3fff, &[9, 9]));
    assert_eq!(m.read_user_bytes(0x3fff, 1).unwrap(), vec![0]);
}

fn layout() -> KernelLayout {
    KernelLayout {
        stext: 0x8020_0000,
        etext: 0x8020_5123,
        srodata: 0x8020_6000,
        erodata: 0x8020_7800,
        sdata: 0x8020_8000,
        edata: 0x8020_9010,
        sbss_with_stack: 0x8020_a000,
        ebss: 0x8021_f000,
        ekernel: 0x8022_0000,
        strampoline: 0x8020_4000,
    }
}

#[test]
fn remap_test() {
    let l = layout();
    let mut a = StackFrameAllocator::new();
    init_frame_allocator(&mut a, l.ekernel);
    let k = MemorySet::new_kernel(&mut a, &l).unwrap();
    let mid_text = VirtAddr((l.stext + l.etext) / 2).floor();
    let mid_rodata = VirtAddr((l.srodata + l.erodata) / 2).floor();
    let mid_data = VirtAddr((l.sdata + l.edata) / 2).floor();
    assert!(!k.translate(mid_text).unwrap().is_writable());
    assert!(k.translate(mid_text).unwrap().is_executable());
    assert!(!k.translate(mid_rodata).unwrap().is_writable());
    assert!(!k.translate(mid_data).unwrap().is_executable());
    assert!(k.translate(mid_data).unwrap().is_writable());
    // identity: the page is its own frame
    assert_eq!(k.translate(mid_text).unwrap().ppn().0, mid_text.0);
    let last = VirtPageNum(0x807ff);
    assert_eq!(k.translate(last).unwrap().ppn().0, 0x807ff);
    assert!(k.translate(VirtPageNum(0x80800)).is_none());
    let t = k.translate(VirtPageNum(TRAMPOLINE_VPN)).unwrap();
    assert_eq!(t.ppn().0, 0x80204);
    assert_eq!(t.flags().bits, PTE_R | PTE_X | PTE_V);
}

#[test]
fn kernel_stacks_sit_below_the_trampoline_with_guards() {
    assert_eq!(kernel_stack_position(0), (TRAMPOLINE - 0x2000, TRAMPOLINE));
    assert_eq!(kernel_stack_position(1), (TRAMPOLINE - 0x5000, TRAMPOLINE - 0x3000));
}

#[test]
fn segment_rights_follow_the_flags() {
    assert_eq!(segment_perm_of(4 | 1), PERM_U | PERM_R | PERM_X);
    assert_eq!(segment_perm_of(4 | 2), PERM_U | PERM_R | PERM_W);
    assert_eq!(segment_perm_of(0), PERM_U);
}

#[test]
fn translated_byte_buffer_spans_pages() {
    let mut a = allocator(0x80220, 0x80800);
    let mut m = MemorySet::new_bare(&mut a, PhysPageNum(0x80201)).unwrap();
    assert!(m.insert_framed_area(&mut a, VirtAddr(0x2000), VirtAddr(0x4000), MapPermission { bits: PERM_R | PERM_W | PERM_U }));
    assert!(m.write_user_bytes(0x2ff0, b"across a page boundary"));
    assert_eq!(translated_byte_buffer(&m, 0x2ff0, 22).unwrap(), b"across a page boundary".to_vec());
    assert!(translated_byte_buffer(&m, 0x3ff0, 0x20).is_none());
}

