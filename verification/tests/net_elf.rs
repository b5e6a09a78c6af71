use rvos::net::{NetState, SockStatus, recv_status, send_status, revents};
use rvos::mm::{PhysMem, PTEFlags, PHYS_END};
use rvos::pagetable::PageTable;
use rvos::elf::{ElfImage, ProgramSegment, SegmentKind, load_elf_into, build_stack, base_vaddr, initial_brk};
use rvos::uaccess::{read_user_byte, copy_from_user, copy_to_user, read_user_u64, read_user_str, read_user_cstr};

fn st(fd: usize, can_recv: bool, is_listening: bool, is_open: bool, can_send: bool) -> SockStatus {
    SockStatus { fd, can_recv, is_listening, is_open, can_send }
}

#[test]
fn socket_statuses() {
    assert_eq!(recv_status(true, true), None);
    assert_eq!(recv_status(false, true), Some(-11));
    assert_eq!(recv_status(false, false), Some(0));
    assert_eq!(send_status(true, false), None);
    assert_eq!(send_status(false, true), Some(-11));
    assert_eq!(send_status(false, false), Some(-32));
    assert_eq!(revents(st(1, true, true, true, true)), 5);
    assert_eq!(revents(st(1, false, true, true, false)), 0);
    assert_eq!(revents(st(1, false, false, true, false)), 1);
    assert_eq!(revents(st(1, false, false, false, true)), 4);
}

#[test]
fn epoll_events_use_registered_data() {
    let mut n = NetState::new();
    n.set_epoll_data(100, 0xdead);
    let list = [st(100, true, false, true, false), st(101, false, true, true, false), st(102, false, false, true, true)];
    let ev = n.epoll_events(&list, 8);
    assert_eq!(ev, vec![(1, 0xdead), (5, 102)]);
    let one = n.epoll_events(&list, 1);
    assert_eq!(one, vec![(1, 0xdead)]);
    assert_eq!(n.epoll_data_of(7), 7);
}

#[test]
fn listening_socket_bookkeeping() {
    let mut n = NetState::new();
    assert!(n.listen_needs_socket(100));
    n.bind_listen_fd(100, Some(3));
    assert_eq!(n.listen_fd, Some(100));
    assert!(!n.listen_needs_socket(100));
    assert_eq!(n.accept_target(100), Some(3));
    assert_eq!(n.accept_target(101), None);
    n.bind_listen_fd(100, Some(9));
    assert_eq!(n.accept_target(100), Some(3));
    assert_eq!(n.replace_listen_socket(4), Some(3));
    assert_eq!(n.accept_target(100), Some(4));
    n.add_fd_handle(101, 3);
    assert!(n.is_socket_fd(101));
    assert_eq!(n.close_fd(101), Some(3));
    assert!(!n.is_socket_fd(101));
    assert_eq!(n.close_fd(100), None);
    assert!(n.is_socket_fd(100));
}

fn segment(vaddr: usize, mem_size: usize, file_size: usize, offset: usize) -> ProgramSegment {
    ProgramSegment {
        kind: SegmentKind::Load,
        vaddr,
        mem_size,
        file_size,
        offset,
        readable: true,
        writable: false,
        executable: true,
    }
}

#[test]
fn elf_loading_maps_and_fills_segments() {
    let mut m = PhysMem::init(0x8040_0000);
    let pt = PageTable::new(&mut m).unwrap();
    let mut data = vec![0u8; 0x2000];
    for (i, b) in data.iter_mut().enumerate() {
        *b = (i % 251) as u8;
    }
    let mut other = segment(0, 0, 0, 0);
    other.kind = SegmentKind::Other;
    let elf = ElfImage {
        entry: 0x10100,
        ph_offset: 64,
        ph_entry_size: 56,
        ph_count: 3,
        segments: vec![segment(0x10000, 0x1800, 0x1200, 0), other, segment(0x20010, 0x10, 0x10, 0x1f00)],
    };
    assert_eq!(base_vaddr(&elf), 0x10000);
    let end = match load_elf_into(&pt, &mut m, &data, &elf) {
        Ok(Some(e)) => e,
        _ => panic!("loading failed"),
    };
    assert_eq!(end, 0x20020);
    assert_eq!(initial_brk(end), 0x21000);
    assert_eq!(initial_brk(0), 0x10000);
    let pa = pt.translate(&m, 0x10005).unwrap();
    assert_eq!(m.read_byte(pa), 5);
    let pa = pt.translate(&m, 0x111ff).unwrap();
    assert_eq!(m.read_byte(pa), (0x11ff % 251) as u8);
    let pa = pt.translate(&m, 0x11200).unwrap();
    assert_eq!(m.read_byte(pa), 0);
    let pa = pt.translate(&m, 0x20010).unwrap();
    assert_eq!(m.read_byte(pa), (0x1f00 % 251) as u8);
    assert!(pt.translate(&m, 0x12000).is_none());
    let mut unknown = elf;
    unknown.segments[1].kind = SegmentKind::Unknown;
    let pt2 = PageTable::new(&mut m).unwrap();
    assert!(matches!(load_elf_into(&pt2, &mut m, &data, &unknown), Ok(None)));
}

#[test]
fn stack_layout() {
    let mut m = PhysMem::init(0x8040_0000);
    let page = m.alloc_pages(2).unwrap();
    let argv = vec![b"prog".to_vec()];
    let envp = vec![b"A=1".to_vec(), b"PATH=/bin".to_vec()];
    let sp = build_stack(&mut m, page, 0x7000_0000, &argv, &envp, 0x10040, 56, 3, 0x10100);
    assert_eq!(sp, 0x7000_0000);
    let word = |m: &PhysMem, at: usize| -> u64 {
        let mut v = 0u64;
        for i in 0..8 {
            v |= (m.read_byte(page + at + i) as u64) << (8 * i);
        }
        v
    };
    assert_eq!(word(&m, 0), 1);
    assert_eq!(word(&m, 8), 0x7000_0400);
    assert_eq!(word(&m, 16), 0);
    assert_eq!(word(&m, 24), 0x7000_0500);
    assert_eq!(word(&m, 32), 0x7000_0600);
    assert_eq!(word(&m, 40), 0);
    assert_eq!(m.read_byte(page + 0x400), b'p');
    assert_eq!(m.read_byte(page + 0x404), 0);
    assert_eq!(m.read_byte(page + 0x600), b'P');
}

#[test]
fn user_copies_go_through_the_page_table() {
    let mut m = PhysMem::init(0x8040_0000);
    let pt = PageTable::new(&mut m).unwrap();
    let f1 = m.alloc_page().unwrap();
    let f2 = m.alloc_page().unwrap();
    let urw = PTEFlags::U().union(PTEFlags::R()).union(PTEFlags::W());
    pt.map(&mut m, 0x40000, f1, urw);
    pt.map(&mut m, 0x41000, f2, urw);
    assert!(copy_to_user(&pt, &mut m, 0x40ffc, b"abcdefgh"));
    assert_eq!(m.read_byte(f1 + 0xffc), b'a');
    assert_eq!(m.read_byte(f2 + 3), b'h');
    assert_eq!(copy_from_user(&pt, &m, 0x40ffc, 8), Some(b"abcdefgh".to_vec()));
    assert_eq!(read_user_byte(&pt, &m, 0x41001), Some(b'f'));
    assert_eq!(read_user_byte(&pt, &m, 0x42000), None);
    assert_eq!(copy_from_user(&pt, &m, 0x41ffc, 8), None);
    assert!(!copy_to_user(&pt, &mut m, 0x41ffe, b"xyz"));
    assert_eq!(read_user_byte(&pt, &m, 0x41ffe), Some(0));
    assert_eq!(read_user_u64(&pt, &m, 0x40ffc), Some(u64::from_le_bytes(*b"abcdefgh")));
    assert!(copy_to_user(&pt, &mut m, 0x40100, b"hi\0"));
    assert_eq!(read_user_str(&pt, &m, 0x40100), Some(b"hi".to_vec()));
    assert_eq!(read_user_cstr(&pt, &m, 0x40100), Some(b"hi".to_vec()));
    assert_eq!(read_user_str(&pt, &m, 0x50000), None);
    assert!(PHYS_END > 0x8040_0000);
}
