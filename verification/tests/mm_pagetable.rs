use rvos::mm::{PTEFlags, PageTableEntry, HeapAllocator, PageAllocator, PhysMem, init_heap, dealloc_page, PAGE_SIZE, PHYS_END};
use rvos::pagetable::{PageTable, init_kernel_page_table};

fn mem() -> PhysMem {
    PhysMem::init(0x8040_0000)
}

#[test]
fn pte_flags_bits() {
    assert_eq!(PTEFlags::V().bits(), 1);
    assert_eq!(PTEFlags::R().bits(), 2);
    assert_eq!(PTEFlags::W().bits(), 4);
    assert_eq!(PTEFlags::X().bits(), 8);
    assert_eq!(PTEFlags::U().bits(), 16);
    assert_eq!(PTEFlags::G().bits(), 32);
    assert_eq!(PTEFlags::A().bits(), 64);
    assert_eq!(PTEFlags::D().bits(), 128);
    assert_eq!(PTEFlags::empty().bits(), 0);
    let rw = PTEFlags::R().union(PTEFlags::W());
    assert_eq!(rw.bits(), 6);
    assert!(rw.contains(PTEFlags::W()));
    assert!(!rw.contains(PTEFlags::X()));
    assert_eq!(PTEFlags::from_bits_truncate(0x1ff).bits(), 0xff);
}

#[test]
fn pte_fields() {
    let e = PageTableEntry::new(0x80123, PTEFlags::R().union(PTEFlags::V()));
    assert_eq!(e.bits, (0x80123 << 10) | 3);
    assert_eq!(e.ppn(), 0x80123);
    assert_eq!(e.flags().bits(), 3);
    assert!(e.is_valid());
    assert!(!PageTableEntry::empty().is_valid());
    assert_eq!(PageTableEntry::new(5, PTEFlags::W()).is_valid(), false);
}

#[test]
fn heap_allocator_aligns() {
    let mut h = init_heap();
    assert_eq!(h.current, 0x8600_0000);
    assert_eq!(h.end, 0x8700_0000);
    let a = h.alloc_bytes(3, 1);
    assert_eq!(a, 0x8600_0000);
    let b = h.alloc_bytes(16, 16);
    assert_eq!(b, 0x8600_0010);
    assert_eq!(h.current, 0x8600_0020);
    let empty = HeapAllocator::new();
    assert_eq!((empty.current, empty.end), (0, 0));
    let pa = PageAllocator::new();
    assert_eq!((pa.current, pa.end), (0, 0));
}

#[test]
fn physmem_allocates_zeroed_pages_in_order() {
    let mut m = PhysMem::init(0x8040_0123);
    assert_eq!(m.current_addr(), 0x8040_1000);
    let free = m.free_page_count();
    assert_eq!(free, (PHYS_END - 0x8040_1000) / PAGE_SIZE);
    let p = m.alloc_page().unwrap();
    assert_eq!(p, 0x8040_1000);
    let q = m.alloc_pages(3).unwrap();
    assert_eq!(q, 0x8040_2000);
    assert_eq!(m.current_addr(), 0x8040_5000);
    assert_eq!(m.free_page_count(), free - 4);
    assert_eq!(m.read_byte(q + 17), 0);
    m.write_byte(q + 17, 0xab);
    assert_eq!(m.read_byte(q + 17), 0xab);
    assert_eq!(m.read_word(q >> 12, 2), 0xab00);
    m.write_word(p >> 12, 5, 0x1122334455667788);
    assert_eq!(m.read_byte(p + 40), 0x88);
    assert_eq!(m.read_byte(p + 47), 0x11);
    dealloc_page(p);
    assert_eq!(m.current_addr(), 0x8040_5000);
}

#[test]
fn physmem_runs_out() {
    let mut m = PhysMem::init(PHYS_END - 2 * PAGE_SIZE);
    assert_eq!(m.free_page_count(), 2);
    assert!(m.alloc_pages(3).is_none());
    assert!(m.alloc_page().is_some());
    assert!(m.alloc_page().is_some());
    assert!(m.alloc_page().is_none());
}

#[test]
fn map_translate_unmap() {
    let mut m = mem();
    let pt = PageTable::new(&mut m).unwrap();
    assert_eq!(pt.translate(&m, 0x1234_5678), None);
    let frame = m.alloc_page().unwrap();
    let rw = PTEFlags::R().union(PTEFlags::W());
    pt.map(&mut m, 0x1234_5000, frame, rw);
    assert_eq!(pt.translate(&m, 0x1234_5678), Some(frame + 0x678));
    assert_eq!(pt.translate(&m, 0x1234_6000), None);
    let slot = pt.find_pte(&m, 0x12345).unwrap();
    let e = PageTableEntry { bits: m.read_entry(slot.table_ppn, slot.index) };
    assert_eq!(e.flags().bits(), 6 | 0xc1);
    assert_eq!(e.ppn(), frame >> 12);
    pt.unmap(&mut m, 0x1234_5000);
    assert_eq!(pt.translate(&m, 0x1234_5678), None);
    assert!(pt.find_pte(&m, 0x12345).is_none());
}

#[test]
fn map_checked_refuses_remap() {
    let mut m = mem();
    let pt = PageTable::new(&mut m).unwrap();
    let f1 = m.alloc_page().unwrap();
    let f2 = m.alloc_page().unwrap();
    assert!(pt.map_checked(&mut m, 0x4000, f1, PTEFlags::R()));
    assert!(!pt.map_checked(&mut m, 0x4000, f2, PTEFlags::R()));
    assert_eq!(pt.translate(&m, 0x4010), Some(f1 + 0x10));
}

#[test]
fn new_table_takes_one_page_and_mapping_takes_tables() {
    let mut m = mem();
    let before = m.free_page_count();
    let pt = PageTable::new(&mut m).unwrap();
    assert_eq!(m.free_page_count(), before - 1);
    assert_eq!(pt.root_ppn(), 0x80400);
    assert_eq!(PageTable::from_ppn(0x80400).root_ppn(), 0x80400);
    let f = m.alloc_page().unwrap();
    let n = m.free_page_count();
    pt.map(&mut m, 0x7000, f, PTEFlags::R());
    assert_eq!(m.free_page_count(), n - 2);
    let g = m.alloc_page().unwrap();
    let n2 = m.free_page_count();
    pt.map(&mut m, 0x8000, g, PTEFlags::R());
    assert_eq!(m.free_page_count(), n2);
}

#[test]
fn kernel_regions_are_identity_mapped() {
    let mut m = mem();
    let pt = PageTable::new(&mut m).unwrap();
    let before = m.free_page_count();
    pt.map_kernel_regions(&mut m);
    assert_eq!(m.free_page_count(), before - 68);
    assert_eq!(pt.translate(&m, 0x8020_0123), Some(0x8020_0123));
    assert_eq!(pt.translate(&m, 0x87ff_f000), Some(0x87ff_f000));
    assert_eq!(pt.translate(&m, 0x1000_0004), Some(0x1000_0004));
    assert_eq!(pt.translate(&m, 0x1000_8ff0), Some(0x1000_8ff0));
    assert_eq!(pt.translate(&m, 0x0c1f_f000), Some(0x0c1f_f000));
    assert_eq!(pt.translate(&m, 0x1000_9000), None);
    assert_eq!(pt.translate(&m, 0x8800_0000), None);
}

#[test]
fn kernel_page_table_and_satp() {
    let mut m = mem();
    let (pt, satp) = match init_kernel_page_table(&mut m) {
        Ok(x) => x,
        Err(_) => panic!("out of memory"),
    };
    assert_eq!(satp, (8u64 << 60) | pt.root_ppn() as u64);
    assert_eq!(pt.translate(&m, 0x100008), Some(0x100008));
    assert_eq!(pt.translate(&m, 0x8000_0000), Some(0x8000_0000));
    assert_eq!(pt.translate(&m, 0x101000), None);
}

#[test]
fn dump_pte_walks_levels() {
    let mut m = mem();
    let pt = PageTable::new(&mut m).unwrap();
    let steps = pt.dump_pte(&m, 0x4000);
    assert_eq!(steps.len(), 1);
    assert!(!steps[0].valid);
    assert_eq!(steps[0].pte_addr, pt.root_ppn() * 4096);
    let f = m.alloc_page().unwrap();
    pt.map(&mut m, 0x4000, f, PTEFlags::R());
    let steps = pt.dump_pte(&m, 0x4000);
    assert_eq!(steps.len(), 3);
    assert!(steps[0].valid && steps[1].valid && steps[2].valid);
    assert_eq!(steps[2].index, 4);
    assert_eq!(steps[2].bits >> 10, f >> 12);
}

#[test]
fn clone_copies_user_pages() {
    let mut m = mem();
    let pt = PageTable::new(&mut m).unwrap();
    pt.map_kernel_regions(&mut m);
    let f = m.alloc_page().unwrap();
    pt.map(&mut m, 0x10000, f, PTEFlags::U().union(PTEFlags::R()).union(PTEFlags::W()));
    m.write_byte(f + 5, 42);
    let child = match pt.clone_user_space(&mut m) {
        Ok(Some(c)) => c,
        _ => panic!("clone failed"),
    };
    let cpa = child.translate(&m, 0x10005).unwrap();
    assert_ne!(cpa, f + 5);
    assert_eq!(m.read_byte(cpa), 42);
    assert_eq!(child.translate(&m, 0x8000_1000), Some(0x8000_1000));
}

#[test]
fn allocations_do_not_overlap() {
    let mut h = init_heap();
    let a = h.alloc_bytes(10, 8);
    let b = h.alloc_bytes(1, 1);
    let c = h.alloc_bytes(32, 16);
    assert!(a + 10 <= b && b + 1 <= c);
    let mut m = PhysMem::init(0x8040_0000);
    let p = m.alloc_page().unwrap();
    let q = m.alloc_page().unwrap();
    let r = m.alloc_pages(2).unwrap();
    assert!(p + PAGE_SIZE <= q && q + PAGE_SIZE <= r);
}

#[test]
fn page_table_entry_round_trip() {
    let e = PageTableEntry::new(0x8_0123, PTEFlags::V().union(PTEFlags::R()));
    assert_eq!(e.ppn(), 0x8_0123);
    assert_eq!(e.flags().bits(), 0x3);
    assert!(e.is_valid());
    assert!(!PageTableEntry::empty().is_valid());
}
