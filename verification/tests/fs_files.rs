use rvos::fs::{
    RamFs, create_file_static, create_file_dynamic, mkdir, lookup, read_inode, write_inode, file_size,
    is_dir, get_file_data, read_dir, init, OpenFile, NGINX_CONF, INDEX_HTML, LOCAL_NGINX_CONF,
};
use rvos::fdtable::FdTable;
use rvos::pipe::{PipeInner, PIPE_BUF};
use rvos::path::{path_order, path_eq, starts_with};

fn le(bytes: &[u8]) -> u64 {
    let mut v: u64 = 0;
    for (i, b) in bytes.iter().enumerate() {
        v |= (*b as u64) << (8 * i);
    }
    v
}

fn booted() -> RamFs {
    let mut fs = RamFs::empty();
    init(&mut fs, b"NGINX", b"MALLOC", b"BUSYBOX", b"NSS");
    fs
}

#[test]
fn paths_compare_bytewise() {
    assert_eq!(path_order(b"/a", b"/b"), -1);
    assert_eq!(path_order(b"/b", b"/a"), 1);
    assert_eq!(path_order(b"/a", b"/a"), 0);
    assert_eq!(path_order(b"/a", b"/a/b"), -1);
    assert!(path_eq(b"/etc", b"/etc"));
    assert!(!path_eq(b"/etc", b"/etc/"));
    assert!(starts_with(b"/etc/nginx", b"/etc/"));
    assert!(!starts_with(b"/et", b"/etc"));
}

#[test]
fn create_then_lookup_and_read() {
    let mut fs = RamFs::empty();
    assert_eq!(fs.len(), 0);
    assert_eq!(lookup(&fs, b"/x"), None);
    create_file_static(&mut fs, b"/x", b"hello");
    mkdir(&mut fs, b"/d");
    assert_eq!(lookup(&fs, b"/x"), Some(1));
    assert_eq!(lookup(&fs, b"/d"), Some(2));
    assert_eq!(fs.len(), 2);
    assert_eq!(file_size(&fs, 1), 5);
    assert_eq!(file_size(&fs, 9), 0);
    let mut buf = [0xeeu8; 3];
    assert_eq!(read_inode(&fs, 1, &mut buf, 1), 3);
    assert_eq!(&buf, b"ell");
    let mut big = [0xeeu8; 8];
    assert_eq!(read_inode(&fs, 1, &mut big, 2), 3);
    assert_eq!(&big, &[b'l', b'l', b'o', 0xee, 0xee, 0xee, 0xee, 0xee]);
    assert_eq!(read_inode(&fs, 7, &mut big, 0), 0);
    assert!(is_dir(&fs, b"/d"));
    assert!(!is_dir(&fs, b"/x"));
    assert!(!is_dir(&fs, b"/nope"));
    assert_eq!(get_file_data(&fs, b"/x"), Some(&b"hello"[..]));
    assert_eq!(get_file_data(&fs, b"/nope"), None);
}

#[test]
fn replacing_a_file_adds_an_inode() {
    let mut fs = RamFs::empty();
    create_file_static(&mut fs, b"/x", b"one");
    create_file_dynamic(&mut fs, b"/x", b"two!");
    assert_eq!(fs.len(), 1);
    assert_eq!(lookup(&fs, b"/x"), Some(1));
    assert_eq!(file_size(&fs, 2), 4);
    assert_eq!(get_file_data(&fs, b"/x"), None);
}

#[test]
fn write_then_read_gives_back_the_bytes() {
    let mut fs = RamFs::empty();
    create_file_dynamic(&mut fs, b"/log", b"abc");
    assert_eq!(write_inode(&mut fs, 1, b"XY", 5), 2);
    assert_eq!(file_size(&fs, 1), 7);
    let mut buf = [0u8; 7];
    assert_eq!(read_inode(&fs, 1, &mut buf, 0), 7);
    assert_eq!(&buf, &[b'a', b'b', b'c', 0, 0, b'X', b'Y']);
    assert_eq!(write_inode(&mut fs, 1, b"Q", 1), 1);
    let mut buf2 = [0u8; 3];
    read_inode(&fs, 1, &mut buf2, 0);
    assert_eq!(&buf2, b"aQc");
}

#[test]
fn static_files_refuse_writes() {
    let mut fs = RamFs::empty();
    create_file_static(&mut fs, b"/ro", b"abc");
    assert_eq!(write_inode(&mut fs, 1, b"zz", 0), 0);
    assert_eq!(write_inode(&mut fs, 5, b"zz", 0), 0);
    assert_eq!(get_file_data(&fs, b"/ro"), Some(&b"abc"[..]));
}

#[test]
fn init_builds_the_tree() {
    let fs = booted();
    assert_eq!(lookup(&fs, b"/"), Some(1));
    assert_eq!(lookup(&fs, b"/etc"), Some(2));
    assert_eq!(lookup(&fs, b"/sbin/nginx"), Some(30));
    assert_eq!(get_file_data(&fs, b"/sbin/nginx"), Some(&b"NGINX"[..]));
    assert_eq!(get_file_data(&fs, b"/test_malloc"), Some(&b"MALLOC"[..]));
    assert_eq!(get_file_data(&fs, b"/bin/ls"), Some(&b"BUSYBOX"[..]));
    assert_eq!(get_file_data(&fs, b"/bin/sh"), Some(&b"BUSYBOX"[..]));
    assert_eq!(get_file_data(&fs, b"/lib/tls/libnss_files.so.2"), Some(&b"NSS"[..]));
    assert_eq!(get_file_data(&fs, b"/etc/nginx/nginx.conf"), Some(NGINX_CONF.as_bytes()));
    assert_eq!(get_file_data(&fs, b"/usr/local/nginx/conf/nginx.conf"), Some(LOCAL_NGINX_CONF.as_bytes()));
    assert_eq!(get_file_data(&fs, b"/usr/share/nginx/html/index.html"), Some(INDEX_HTML.as_bytes()));
    assert_eq!(get_file_data(&fs, b"/etc/passwd"), Some(&b"root:x:0:0:root:/root:/bin/sh\n"[..]));
    assert_eq!(get_file_data(&fs, b"/proc/cpuinfo"), Some(&b"processor\t: 0\n"[..]));
    assert_eq!(get_file_data(&fs, b"/var/log/nginx/error.log"), None);
    assert!(is_dir(&fs, b"/var/log/nginx"));
    assert!(is_dir(&fs, b"/tmp"));
    assert!(!is_dir(&fs, b"/etc/passwd"));
    assert_eq!(fs.len(), 73);
    let log = lookup(&fs, b"/var/log/nginx/access.log").unwrap();
    let mut f = fs;
    assert_eq!(write_inode(&mut f, log, b"GET /\n", 0), 6);
    assert_eq!(file_size(&f, log), 6);
}

#[test]
fn read_dir_lists_linux_dirents() {
    let mut fs = RamFs::empty();
    mkdir(&mut fs, b"/");
    mkdir(&mut fs, b"/d");
    create_file_static(&mut fs, b"/d/a", b"1");
    create_file_static(&mut fs, b"/d/bb/c", b"22");
    let mut buf = [0xffu8; 256];
    let (n, next) = read_dir(&fs, 2, &mut buf, 0);
    assert_eq!(next, 4);
    assert_eq!(n, 24 + 24 + 24 + 24);
    // "."
    assert_eq!(le(&buf[0..8]), 2);
    assert_eq!(le(&buf[8..16]), 1);
    assert_eq!(le(&buf[16..18]), 24);
    assert_eq!(buf[18], 4);
    assert_eq!(&buf[19..21], b".\0");
    // ".."
    assert_eq!(le(&buf[24 + 8..24 + 16]), 2);
    assert_eq!(&buf[24 + 19..24 + 22], b"..\0");
    // "a", a regular file
    assert_eq!(le(&buf[48..56]), 3);
    assert_eq!(buf[48 + 18], 8);
    assert_eq!(&buf[48 + 19..48 + 21], b"a\0");
    // "bb", named by the file below it
    assert_eq!(le(&buf[72..80]), 4);
    assert_eq!(&buf[72 + 19..72 + 22], b"bb\0");
    assert_eq!(buf[96], 0xff);
    // a small buffer takes only whole records
    let mut small = [0u8; 30];
    assert_eq!(read_dir(&fs, 2, &mut small, 1), (24, 2));
    // past the end, and a file that is no directory
    assert_eq!(read_dir(&fs, 2, &mut buf, 4), (0, 4));
    assert_eq!(read_dir(&fs, 3, &mut buf, 0), (0, 0));
    // the root lists its top-level names
    let (_, next_root) = read_dir(&fs, 1, &mut buf, 0);
    assert_eq!(next_root, 3);
}

#[test]
fn fd_table_takes_lowest_free_slot() {
    let mut t = FdTable::new();
    assert_eq!(t.len(), 3);
    let f = OpenFile { inode: 7, offset: 0, readable: true, writable: false, pipe_id: None };
    assert_eq!(t.alloc_fd(f), 3);
    assert_eq!(t.alloc_fd(f), 4);
    t.close(1);
    assert!(t.lookup(1).is_none());
    assert_eq!(t.alloc_fd(f), 1);
    assert_eq!(t.lookup(1).unwrap().inode, 7);
    t.close(99);
    assert_eq!(t.len(), 5);
}

#[test]
fn fd_table_dup2_and_get() {
    let mut t = FdTable::new();
    let f = OpenFile { inode: 9, offset: 4, readable: true, writable: true, pipe_id: Some(2) };
    let fd = t.alloc_fd(f);
    assert!(t.dup2(fd, 10));
    assert_eq!(t.len(), 11);
    assert_eq!(t.lookup(10).unwrap().pipe_id, Some(2));
    assert!(t.lookup(7).is_none());
    assert!(!t.dup2(8, 1));
    assert_eq!(t.lookup(1).unwrap().inode, 0);
    if let Some(of) = t.get(10) {
        of.offset = 100;
    }
    assert_eq!(t.lookup(10).unwrap().offset, 100);
    assert_eq!(t.lookup(fd).unwrap().offset, 4);
    assert!(t.get(50).is_none());
}

#[test]
fn pipe_is_fifo_and_bounded() {
    let mut p = PipeInner::new();
    assert_eq!(p.write(b"hello"), 5);
    assert_eq!(p.write(b" world"), 6);
    let mut out = [0u8; 4];
    assert_eq!(p.read(&mut out), 4);
    assert_eq!(&out, b"hell");
    let mut rest = [0u8; 32];
    assert_eq!(p.read(&mut rest), 7);
    assert_eq!(&rest[..7], b"o world");
    assert_eq!(p.read(&mut rest), 0);
    let big = vec![7u8; PIPE_BUF + 10];
    assert_eq!(p.write(&big), PIPE_BUF - 1);
    assert_eq!(p.write(b"x"), 0);
    let mut all = vec![0u8; PIPE_BUF];
    assert_eq!(p.read(&mut all), PIPE_BUF - 1);
    assert!(all[..PIPE_BUF - 1].iter().all(|b| *b == 7));
}

#[test]
fn read_dir_resumed_lists_each_name_once() {
    let mut fs = RamFs::empty();
    mkdir(&mut fs, b"/");
    mkdir(&mut fs, b"/d");
    create_file_static(&mut fs, b"/d/a", b"1");
    create_file_static(&mut fs, b"/d/bb/c", b"22");
    create_file_static(&mut fs, b"/d/bb/e", b"3");
    create_file_static(&mut fs, b"/d/zz", b"4");
    let mut names: Vec<Vec<u8>> = Vec::new();
    let mut offset = 0;
    loop {
        let mut buf = [0u8; 30];
        let (n, next) = read_dir(&fs, 2, &mut buf, offset);
        if n == 0 {
            break;
        }
        assert_eq!(next, offset + 1);
        let end = buf[19..].iter().position(|b| *b == 0).unwrap();
        names.push(buf[19..19 + end].to_vec());
        offset = next;
    }
    assert_eq!(names, vec![b".".to_vec(), b"..".to_vec(), b"a".to_vec(), b"bb".to_vec(), b"zz".to_vec()]);
}
