use madsim::fs::{ErrorKind, FileSystemRuntime};
use madsim::{Addr, Runtime};

fn node(ip: u32, port: u16) -> Addr {
    Addr::new(ip, port)
}

#[test]
fn create_open_read_write() {
    let mut runtime = Runtime::new();
    let host = runtime.local_handle(node(1, 1));
    let fs = host.fs(&mut runtime.fs);

    assert_eq!(
        fs.open(&runtime.fs, "file").err().unwrap().kind(),
        ErrorKind::NotFound
    );
    let file = fs.create(&mut runtime.fs, "file").unwrap();
    file.write_all_at(&mut runtime.fs, b"hello", 0).unwrap();

    let mut buf = vec![0u8; 10];
    let read_len = file.read_at(&runtime.fs, &mut buf, 2).unwrap();
    assert_eq!(read_len, 3);
    assert_eq!(&buf[..3], b"llo");
    drop(file);

    let rofile = fs.open(&runtime.fs, "file").unwrap();
    assert_eq!(
        rofile
            .write_all_at(&mut runtime.fs, b"gg", 0)
            .err()
            .unwrap()
            .kind(),
        ErrorKind::PermissionDenied
    );
}

#[test]
fn read_only_write_leaves_content() {
    let mut rt = FileSystemRuntime::new();
    let fs = rt.handle(node(1, 1));
    let file = fs.create(&mut rt, "f").unwrap();
    file.write_all_at(&mut rt, b"hello", 0).unwrap();
    let ro = fs.open(&rt, "f").unwrap();
    assert!(!ro.is_writable());
    assert!(file.is_writable());
    assert_eq!(
        ro.write_all_at(&mut rt, b"gg", 0).err().unwrap().kind(),
        ErrorKind::PermissionDenied
    );
    let mut buf = vec![0u8; 5];
    assert_eq!(ro.read_at(&rt, &mut buf, 0).unwrap(), 5);
    assert_eq!(&buf[..], b"hello");
}

#[test]
fn open_on_fresh_disk_is_not_found() {
    let mut rt = FileSystemRuntime::new();
    let fs = rt.handle(node(7, 9));
    for p in ["a", "file", "", "dir/file"] {
        assert_eq!(fs.open(&rt, p).err().unwrap().kind(), ErrorKind::NotFound);
    }
}

#[test]
fn set_len_truncates_and_zero_extends() {
    let mut rt = FileSystemRuntime::new();
    let fs = rt.handle(node(1, 1));
    let file = fs.create(&mut rt, "f").unwrap();
    file.write_all_at(&mut rt, b"hello", 0).unwrap();

    file.set_len(&mut rt, 2).unwrap();
    let mut buf = vec![9u8; 6];
    assert_eq!(file.read_at(&rt, &mut buf, 0).unwrap(), 2);
    assert_eq!(buf, vec![b'h', b'e', 9, 9, 9, 9]);

    file.set_len(&mut rt, 5).unwrap();
    let mut buf = vec![9u8; 6];
    assert_eq!(file.read_at(&rt, &mut buf, 0).unwrap(), 5);
    assert_eq!(buf, vec![b'h', b'e', 0, 0, 0, 9]);
}

#[test]
fn read_past_end_returns_zero() {
    let mut rt = FileSystemRuntime::new();
    let fs = rt.handle(node(1, 1));
    let file = fs.create(&mut rt, "f").unwrap();
    file.write_all_at(&mut rt, b"abc", 0).unwrap();
    let mut buf = vec![7u8; 4];
    assert_eq!(file.read_at(&rt, &mut buf, 3).unwrap(), 0);
    assert_eq!(file.read_at(&rt, &mut buf, 100).unwrap(), 0);
    assert_eq!(buf, vec![7u8; 4]);
    let mut empty: Vec<u8> = Vec::new();
    assert_eq!(file.read_at(&rt, &mut empty, 0).unwrap(), 0);
}

#[test]
fn write_overwrites_and_appends() {
    let mut rt = FileSystemRuntime::new();
    let fs = rt.handle(node(1, 1));
    let file = fs.create(&mut rt, "f").unwrap();
    file.write_all_at(&mut rt, b"hello", 0).unwrap();
    file.write_all_at(&mut rt, b"LLOWORLD", 2).unwrap();
    let mut buf = vec![0u8; 16];
    assert_eq!(file.read_at(&rt, &mut buf, 0).unwrap(), 10);
    assert_eq!(&buf[..10], b"heLLOWORLD");
}

#[test]
fn write_past_end_fills_gap_with_zeros() {
    let mut rt = FileSystemRuntime::new();
    let fs = rt.handle(node(1, 1));
    let file = fs.create(&mut rt, "f").unwrap();
    file.write_all_at(&mut rt, b"ab", 0).unwrap();
    file.write_all_at(&mut rt, b"cd", 4).unwrap();
    let mut buf = vec![9u8; 8];
    assert_eq!(file.read_at(&rt, &mut buf, 0).unwrap(), 6);
    assert_eq!(&buf[..6], &[b'a', b'b', 0, 0, b'c', b'd']);
}

#[test]
fn create_twice_shares_inode() {
    let mut rt = FileSystemRuntime::new();
    let fs = rt.handle(node(1, 1));
    let f1 = fs.create(&mut rt, "shared").unwrap();
    f1.write_all_at(&mut rt, b"one", 0).unwrap();
    let f2 = fs.create(&mut rt, "shared").unwrap();
    assert_eq!(f1, f2);
    let mut buf = vec![0u8; 3];
    assert_eq!(f2.read_at(&rt, &mut buf, 0).unwrap(), 3);
    assert_eq!(&buf[..], b"one");
    f2.write_all_at(&mut rt, b"T", 0).unwrap();
    assert_eq!(f1.read_at(&rt, &mut buf, 0).unwrap(), 3);
    assert_eq!(&buf[..], b"Tne");
}

#[test]
fn disk_handles_are_idempotent_and_isolated() {
    let mut rt = FileSystemRuntime::new();
    let a1 = rt.handle(node(1, 1));
    let a2 = rt.handle(node(1, 1));
    let b = rt.handle(node(2, 1));
    assert_eq!(a1, a2);
    assert_ne!(a1, b);
    let fa = a1.create(&mut rt, "file").unwrap();
    fa.write_all_at(&mut rt, b"A", 0).unwrap();
    assert_eq!(b.open(&rt, "file").err().unwrap().kind(), ErrorKind::NotFound);
    let fb = b.create(&mut rt, "file").unwrap();
    assert_ne!(fa, fb);
    let mut buf = vec![0u8; 1];
    assert_eq!(fb.read_at(&rt, &mut buf, 0).unwrap(), 0);
    assert!(a2.open(&rt, "file").is_ok());
}

#[test]
fn power_fail_keeps_only_durable_content() {
    let mut rt = FileSystemRuntime::new();
    let fs = rt.handle(node(1, 1));
    let other = rt.handle(node(2, 2));
    let file = fs.create(&mut rt, "f").unwrap();
    let kept = other.create(&mut rt, "f").unwrap();
    file.write_all_at(&mut rt, b"durable", 0).unwrap();
    file.sync_all(&mut rt).unwrap();
    file.write_all_at(&mut rt, b"VOLATILE!", 0).unwrap();
    kept.write_all_at(&mut rt, b"other", 0).unwrap();

    rt.power_fail(node(1, 1));

    let mut buf = vec![0u8; 16];
    assert_eq!(file.read_at(&rt, &mut buf, 0).unwrap(), 7);
    assert_eq!(&buf[..7], b"durable");
    assert_eq!(kept.read_at(&rt, &mut buf, 0).unwrap(), 5);
    assert_eq!(&buf[..5], b"other");
    assert!(fs.open(&rt, "f").is_ok());
}

#[test]
fn power_fail_of_unknown_node_changes_nothing() {
    let mut rt = FileSystemRuntime::new();
    let fs = rt.handle(node(1, 1));
    let file = fs.create(&mut rt, "f").unwrap();
    file.write_all_at(&mut rt, b"xyz", 0).unwrap();
    rt.power_fail(node(3, 3));
    let mut buf = vec![0u8; 3];
    assert_eq!(file.read_at(&rt, &mut buf, 0).unwrap(), 3);
    assert_eq!(&buf[..], b"xyz");
}

#[test]
fn unsynced_file_is_empty_after_power_fail() {
    let mut rt = FileSystemRuntime::new();
    let fs = rt.handle(node(1, 1));
    let file = fs.create(&mut rt, "f").unwrap();
    file.write_all_at(&mut rt, b"lost", 0).unwrap();
    rt.power_fail(node(1, 1));
    let mut buf = vec![0u8; 4];
    assert_eq!(file.read_at(&rt, &mut buf, 0).unwrap(), 0);
}

fn scripted_run(seed: u64) -> (Vec<u8>, usize, Option<ErrorKind>, Option<ErrorKind>) {
    let mut runtime = Runtime::new_with_seed(seed);
    let host = runtime.handle().local_handle(node(10, 80));
    let fs = host.fs(&mut runtime.fs);
    let missing = fs.open(&runtime.fs, "log").err().map(|e| e.kind());
    let file = fs.create(&mut runtime.fs, "log").unwrap();
    file.write_all_at(&mut runtime.fs, b"entry-1;", 0).unwrap();
    file.write_all_at(&mut runtime.fs, b"entry-2;", 8).unwrap();
    file.set_len(&mut runtime.fs, 12).unwrap();
    let ro = fs.open(&runtime.fs, "log").unwrap();
    let denied = ro.write_all_at(&mut runtime.fs, b"x", 0).err().map(|e| e.kind());
    let mut buf = vec![0u8; 20];
    let n = ro.read_at(&runtime.fs, &mut buf, 0).unwrap();
    (buf, n, missing, denied)
}

#[test]
fn same_seed_same_outcomes() {
    let first = scripted_run(42);
    let second = scripted_run(42);
    assert_eq!(first, second);
    assert_eq!(first.1, 12);
    assert_eq!(&first.0[..12], b"entry-1;entr");
    assert_eq!(first.2, Some(ErrorKind::NotFound));
    assert_eq!(first.3, Some(ErrorKind::PermissionDenied));
}

#[test]
fn runtime_handles_carry_seed_and_address() {
    let runtime = Runtime::new_with_seed(5);
    assert_eq!(runtime.seed, 5);
    assert_eq!(Runtime::new().seed, 0);
    let h = runtime.handle();
    assert_eq!(h.seed, 5);
    let l = h.local_handle(node(3, 4));
    assert_eq!(l.addr, node(3, 4));
    assert_eq!(runtime.local_handle(node(3, 4)), l);
}

#[test]
fn block_on_installs_context_for_its_duration() {
    let runtime = Runtime::new_with_seed(11);
    let outside = madsim::Context::new();
    assert!(!outside.is_active());
    let (seed, active) = runtime.block_on(|ctx| (madsim::Handle::current(ctx).seed, ctx.is_active()));
    assert_eq!(seed, 11);
    assert!(active);
    assert_eq!(runtime.block_on(|_ctx| 3 + 4), 7);
}

#[test]
fn ipv6_nodes_have_their_own_disks() {
    let mut rt = FileSystemRuntime::new();
    let v6 = Addr::new_v6(1, 1);
    assert_eq!(v6.ip, madsim::Ip::V6(1));
    let a = rt.handle(v6);
    let b = rt.handle(node(1, 1));
    assert_ne!(a, b);
    assert_eq!(rt.handle(Addr::new_v6(1, 1)), a);
}

#[test]
fn handle_reaches_the_same_disk_as_local_handle() {
    let mut runtime = Runtime::new_with_seed(3);
    let h = runtime.handle();
    let via_handle = h.fs(&mut runtime.fs, node(5, 5));
    let via_local = runtime.local_handle(node(5, 5)).fs(&mut runtime.fs);
    assert_eq!(via_handle, via_local);
    let f = via_handle.create(&mut runtime.fs, "x").unwrap();
    f.write_all_at(&mut runtime.fs, b"q", 0).unwrap();
    assert!(via_local.open(&runtime.fs, "x").is_ok());
}

#[test]
fn read_only_write_fails_for_any_offset() {
    let mut rt = FileSystemRuntime::new();
    let fs = rt.handle(node(1, 1));
    fs.create(&mut rt, "f").unwrap();
    let ro = fs.open(&rt, "f").unwrap();
    assert_eq!(
        ro.write_all_at(&mut rt, b"gg", u64::MAX).err().unwrap().kind(),
        ErrorKind::PermissionDenied
    );
}
