use std::collections::HashMap;

use ebpf_monitor::abi::FileEvent;
use ebpf_monitor::handler::{build_ev, cmdline_text, cstr, log_line, lookup_name, op_name, LogLine};

#[test]
fn cstr_stops_at_nul() {
    assert_eq!(cstr(b"abc\0def"), "abc");
    assert_eq!(cstr(b"abc"), "abc");
    assert_eq!(cstr(b"\0abc"), "");
    assert_eq!(cstr(b""), "");
    assert_eq!(cstr(&[0xff, 0xfe, 0]), "<invalid>");
    assert_eq!(cstr("é\0".as_bytes()), "é");
}

#[test]
fn names_with_fallbacks() {
    let mut m = HashMap::new();
    m.insert(10123u32, "com.example".to_string());
    assert_eq!(lookup_name(&m, 10123, "-"), "com.example");
    assert_eq!(lookup_name(&m, 1, "-"), "-");
}

#[test]
fn op_names() {
    let mut nr = HashMap::new();
    nr.insert(56u32, "openat".to_string());
    let mut e = FileEvent::zeroed();
    let expect = [(0u32, "create"), (1, "mkdir"), (2, "rename"), (3, "unlink"), (56, "openat"), (99, "?")];
    for (code, name) in expect {
        e.syscall_nr = code;
        assert_eq!(op_name(&e, &nr), name);
    }
}

#[test]
fn stored_event_from_kernel_event() {
    let mut e = FileEvent::zeroed();
    e.pid = 1;
    e.tid = 2;
    e.uid = 10123;
    e.syscall_nr = 3;
    e.ret = -13;
    e.sflags = 0x40;
    e.comm[..3].copy_from_slice(b"cat");
    e.fname[..4].copy_from_slice(b"/a/b");
    let nr = HashMap::new();
    let mut uids = HashMap::new();
    uids.insert(10123u32, "com.example".to_string());
    let ev = build_ev(&e, &nr, &uids, "t".into(), 5, "cat /a/b".into(), 7, 9);
    assert_eq!(ev.seq, 0);
    assert_eq!(ev.comm, "cat");
    assert_eq!(ev.pkg, "com.example");
    assert_eq!(ev.op, "unlink");
    assert_eq!(ev.file, "/a/b");
    assert_eq!(ev.old_file, "");
    assert_eq!(ev.ret, -13);
    assert_eq!(ev.flags, 0x40);
    assert_eq!(ev.file_id, (7u64 << 32) ^ 9);
    let ev0 = build_ev(&e, &nr, &HashMap::new(), "t".into(), 5, String::new(), 7, 0);
    assert_eq!(ev0.file_id, 0);
    assert_eq!(ev0.pkg, "-");
}

#[test]
fn log_levels() {
    assert_eq!(log_line(1, 0), LogLine::Watch);
    assert_eq!(log_line(0, 2), LogLine::Print);
    assert_eq!(log_line(0, 3), LogLine::Print);
    assert_eq!(log_line(0, 1), LogLine::Silent);
}

#[test]
fn cmdline_formatting() {
    assert_eq!(cmdline_text(b"/system/bin/cat\0/sdcard/a\0"), "/system/bin/cat /sdcard/a");
    assert_eq!(cmdline_text(b"a\0\0b"), "a b");
    assert_eq!(cmdline_text(b""), "");
    assert_eq!(cmdline_text(b"\0\0"), "");
    assert_eq!(cmdline_text(b"  x \0"), "x");
    assert_eq!(cmdline_text(&[b'a', 0xff, 0]), "a\u{fffd}");
    let long = vec![b'z'; 250];
    let out = cmdline_text(&long);
    assert_eq!(out.chars().count(), 201);
    assert!(out.ends_with('…'));
    assert_eq!(cmdline_text(&vec![b'y'; 200]), "y".repeat(200));
}
