use ebpf_monitor::abi::{FileEvent, PendingPrint, SyscallArgInfo, SYSCALL_FLAG_PRINT, SYSCALL_FLAG_WATCH};
use ebpf_monitor::kernel::{
    enter_record, exit_event, is_compat_task, is_rename, watch_key, watch_rule_key, KernelLayout,
};

fn key_for(name: &[u8]) -> [u8; 64] {
    let mut k = [0u8; 64];
    k[64 - name.len()..].copy_from_slice(name);
    k
}

#[test]
fn rule_key_is_right_aligned() {
    assert_eq!(watch_rule_key("a.jpg"), key_for(b"a.jpg"));
    assert_eq!(watch_rule_key(""), [0u8; 64]);
}

#[test]
fn path_key_is_basename_key() {
    assert_eq!(watch_key(b"/sdcard/DCIM/a.jpg"), Some(key_for(b"a.jpg")));
    assert_eq!(watch_key(b"a.jpg"), Some(key_for(b"a.jpg")));
    assert_eq!(watch_key(b"/tmp/dir/"), Some([0u8; 64]));
    assert_eq!(watch_key(b""), Some([0u8; 64]));
}

#[test]
fn path_and_rule_keys_agree() {
    let rule = watch_rule_key("secret.db");
    assert_eq!(watch_key(b"/data/data/app/secret.db"), Some(rule));
    assert_ne!(watch_key(b"/data/data/app/secret.db-wal"), Some(rule));
}

#[test]
fn long_basename_has_no_key() {
    let mut p = b"/x/".to_vec();
    p.extend(std::iter::repeat(b'n').take(64));
    assert_eq!(watch_key(&p), None);
    let mut q = b"/x/".to_vec();
    q.extend(std::iter::repeat(b'n').take(63));
    assert!(watch_key(&q).is_some());
}

#[test]
fn arm64_layout() {
    let l = KernelLayout::arm64_static();
    assert_eq!(l.flags_off, 0);
    assert_eq!(l.tif32_mask, 1 << 22);
}

#[test]
fn compat_task_detection() {
    assert!(is_compat_task(1 << 22, None));
    assert!(!is_compat_task(1 << 21, None));
    assert!(is_compat_task(1 << 3, Some(1 << 3)));
    assert!(!is_compat_task(1 << 22, Some(1 << 3)));
}

#[test]
fn rename_family() {
    assert!(!is_rename(34));
    assert!(is_rename(38));
    assert!(is_rename(276));
    assert!(!is_rename(56));
}

fn info(flags: u32, fl_mask: u32) -> SyscallArgInfo {
    SyscallArgInfo { str_reg_idx: 1, flags, fl_reg_idx: 2, fl_mask }
}

#[test]
fn printed_syscall_is_recorded() {
    let pp = enter_record(56, info(SYSCALL_FLAG_PRINT, 0), Some(0x1000), None, None, false, false)
        .unwrap();
    assert_eq!(pp.syscall_nr, 56);
    assert_eq!(pp.watched, 0);
    assert_eq!(pp.fname_ptr, 0x1000);
    assert_eq!(pp.old_fname_ptr, 0);
    assert_eq!(pp.sflags, 0);
}

#[test]
fn null_or_faulted_path_is_skipped() {
    assert!(enter_record(56, info(SYSCALL_FLAG_PRINT, 0), Some(0), None, None, true, false).is_none());
    assert!(enter_record(56, info(SYSCALL_FLAG_PRINT, 0), None, None, None, true, false).is_none());
}

#[test]
fn watch_hit_needs_flag_filter() {
    let i = info(SYSCALL_FLAG_WATCH, 0x40);
    let hit = enter_record(56, i, Some(0x1000), None, Some(0x41), true, false).unwrap();
    assert_eq!(hit.watched, 1);
    assert_eq!(hit.sflags, 0x41);
    assert!(enter_record(56, i, Some(0x1000), None, Some(0x01), true, false).is_none());
    assert!(enter_record(56, i, Some(0x1000), None, Some(0x40), false, false).is_none());
    let noread = enter_record(56, i, Some(0x1000), None, None, true, false);
    assert!(noread.is_none());
}

#[test]
fn rename_records_both_paths() {
    let i = info(SYSCALL_FLAG_WATCH, 0);
    let pp = enter_record(38, i, Some(0x1000), Some(0x2000), None, false, true).unwrap();
    assert_eq!(pp.fname_ptr, 0x2000);
    assert_eq!(pp.old_fname_ptr, 0x1000);
    assert_eq!(pp.watched, 1);
    let mk = enter_record(34, i, Some(0x1000), None, None, true, false).unwrap();
    assert_eq!(mk.old_fname_ptr, 0);
    assert_eq!(mk.fname_ptr, 0x1000);
    let same = enter_record(38, i, Some(0x1000), Some(0), None, true, false).unwrap();
    assert_eq!(same.fname_ptr, 0x1000);
    assert!(enter_record(38, i, Some(0x1000), None, None, true, true).is_none());
}

#[test]
fn exit_event_fields() {
    let pp = PendingPrint {
        syscall_nr: 2,
        watched: 1,
        _pad1: [0; 3],
        sflags: 0x40,
        fname_ptr: 1,
        old_fname_ptr: 0,
    };
    let mut comm = [0u8; 16];
    comm[0] = b'x';
    let mut fname = [0u8; 256];
    fname[0] = b'/';
    let old = [7u8; 256];
    let e: FileEvent = exit_event(&pp, (1234u64 << 32) | 99, (5u64 << 32) | 10010, -2, comm, fname, old);
    assert_eq!(e.pid, 1234);
    assert_eq!(e.tid, 99);
    assert_eq!(e.uid, 10010);
    assert_eq!(e.ret, -2);
    assert_eq!(e.watched, 1);
    assert_eq!(e.sflags, 0x40);
    assert_eq!(e.comm[0], b'x');
    assert_eq!(e.fname[0], b'/');
    assert!(e.old_fname.iter().all(|&b| b == 0));
    let pp2 = PendingPrint { old_fname_ptr: 5, ..pp };
    let e2 = exit_event(&pp2, 0, 0, 0, comm, fname, old);
    assert_eq!(e2.old_fname[10], 7);
}

use ebpf_monitor::kernel::traced_args;

#[test]
fn table_choice_and_whitelist() {
    let a = Some(info(SYSCALL_FLAG_PRINT, 0));
    let b = Some(info(SYSCALL_FLAG_WATCH, 0));
    assert_eq!(traced_args(false, a, b, false, false), a);
    assert_eq!(traced_args(true, a, b, false, false), b);
    assert_eq!(traced_args(true, a, None, false, false), None);
    assert_eq!(traced_args(false, a, b, true, false), None);
    assert_eq!(traced_args(false, a, b, false, true), None);
}
