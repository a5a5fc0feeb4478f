use ebpf_monitor::catalog::syscalls;
use ebpf_monitor::names::{parse_u32, syscall_names, uid_names_from};

#[test]
fn packages_list_parsing() {
    let text = "com.a 10001 0 /data/a default\ncom.b 10002 1 /data/b\nbroken\ncom.c notanumber\n\ncom.a2 10001 0 x\r\n";
    let m = uid_names_from(text);
    assert_eq!(m.len(), 2);
    assert_eq!(m.get(&10001).unwrap(), "com.a2");
    assert_eq!(m.get(&10002).unwrap(), "com.b");
    assert!(uid_names_from("").is_empty());
}

#[test]
fn u32_parsing() {
    assert_eq!(parse_u32("4294967295"), Some(u32::MAX));
    assert_eq!(parse_u32("4294967296"), None);
    assert_eq!(parse_u32("+1"), Some(1));
    assert_eq!(parse_u32("x"), None);
}

#[test]
fn syscall_name_table() {
    let defs = syscalls();
    let m = syscall_names(&defs);
    assert_eq!(m.get(&56).map(String::as_str), Some("openat"));
    assert_eq!(m.get(&38).map(String::as_str), Some("rename"));
    assert_eq!(m.get(&329).map(String::as_str), Some("renameat"));
    assert_eq!(m.get(&322).map(String::as_str), Some("openat"));
}

#[test]
fn package_lines_with_crlf_endings() {
    let m = uid_names_from("com.a 10001 0\r\ncom.b 10002\n\n  \ncom.c 10003\r");
    assert_eq!(m.get(&10001).map(String::as_str), Some("com.a"));
    assert_eq!(m.get(&10002).map(String::as_str), Some("com.b"));
    assert_eq!(m.get(&10003).map(String::as_str), Some("com.c"));
    assert_eq!(m.len(), 3);
}
