use ebpf_monitor::abi::SYSCALL_FLAG_WATCH;
use ebpf_monitor::config::{Config, ConfigError};

#[test]
fn factory_config_validates() {
    let cfg = Config::factory_default();
    let v = cfg.validate().expect("validate factory config");
    let openat = v.syscall_args_64.iter().find(|(nr, _)| *nr == 56).expect("openat arm64 entry");
    assert_ne!(openat.1.flags & SYSCALL_FLAG_WATCH, 0);
    assert_eq!(openat.1.fl_reg_idx, 2);
    assert_eq!(openat.1.fl_mask, 0x40);
    assert_eq!(openat.1.str_reg_idx, 1);
    let renameat = v.syscall_args_64.iter().find(|(nr, _)| *nr == 38).expect("renameat arm64 entry");
    assert_ne!(renameat.1.flags & SYSCALL_FLAG_WATCH, 0);
    assert_eq!(renameat.1.fl_mask, 0);
    assert_eq!(renameat.1.str_reg_idx, 3);
    assert!(!v.syscall_args_64.iter().any(|(nr, _)| *nr == 8));
    let creat = v.syscall_args_32.iter().find(|(nr, _)| *nr == 8).expect("creat arm32 entry");
    assert_ne!(creat.1.flags & SYSCALL_FLAG_WATCH, 0);
    assert_eq!(creat.1.str_reg_idx, 0);
    let openat32 = v.syscall_args_32.iter().find(|(nr, _)| *nr == 322).expect("openat arm32 entry");
    assert_eq!(openat32.1.str_reg_idx, 1);
    assert_eq!(openat32.1.fl_reg_idx, 2);
    assert_eq!(openat32.1.fl_mask, 0x40);
    assert!(v.watch_basenames.is_empty());
}

#[test]
fn invalid_group_rejected() {
    let mut cfg = Config::factory_default();
    cfg.watch.as_mut().unwrap().groups = vec!["nonexistent".into()];
    assert!(cfg.validate().is_err());
}

#[test]
fn invalid_group_message() {
    let mut cfg = Config::factory_default();
    cfg.watch.as_mut().unwrap().groups = vec!["nonexistent".into()];
    match cfg.validate() {
        Err(ConfigError::Validation(m)) => assert_eq!(m, "[watch]: unknown group 'nonexistent'"),
        Ok(_) => panic!("accepted"),
    }
}

use ebpf_monitor::catalog::{ArgDef, ArgType, SyscallDef, SyscallGroup, SyscallNr};
use ebpf_monitor::config::{WatchConfig, Whitelist};
use ebpf_monitor::table;

fn arg(reg: u32, t: ArgType, name: &str) -> ArgDef {
    ArgDef { reg, arg_type: t, name: name.into() }
}

fn group(name: &str, syscalls: &[&str]) -> SyscallGroup {
    SyscallGroup {
        name: name.into(),
        syscalls: syscalls.iter().map(|s| s.to_string()).collect(),
        watch_param: None,
        watch_flag_param: None,
        watch_flag_mask: None,
    }
}

fn watch(basenames: &[&str], groups: &[&str]) -> Option<WatchConfig> {
    Some(WatchConfig {
        basenames: basenames.iter().map(|s| s.to_string()).collect(),
        groups: groups.iter().map(|s| s.to_string()).collect(),
    })
}

fn table_config(syscall: Vec<SyscallDef>, syscall_groups: Vec<SyscallGroup>, w: Option<WatchConfig>) -> table::Config {
    table::Config {
        whitelist: Whitelist { uid: vec![], pid: vec![] },
        syscall,
        syscall_groups,
        print: None,
        watch: w,
    }
}

#[test]
fn mask_without_flag_param_rejected() {
    let openat = SyscallDef {
        name: "openat".into(),
        nr: SyscallNr { arm64: Some(56), arm32: None },
        arm64: vec![arg(1, ArgType::Str, "path")],
        arm32: vec![],
    };
    let mut g = group("create", &["openat"]);
    g.watch_flag_mask = Some(0x40);
    let cfg = table_config(vec![openat], vec![g], watch(&["a.jpg"], &["create"]));
    assert!(cfg.validate().is_err());
}

#[test]
fn arm32_only_syscall_accepted() {
    let creat = SyscallDef {
        name: "creat".into(),
        nr: SyscallNr { arm64: None, arm32: Some(8) },
        arm64: vec![],
        arm32: vec![arg(0, ArgType::Str, "path")],
    };
    let cfg = table_config(vec![creat], vec![group("create_any", &["creat"])], watch(&["a.jpg"], &["create_any"]));
    let v = cfg.validate().expect("validate");
    assert!(v.syscall_args_64.is_empty());
    assert_eq!(v.syscall_args_32.len(), 1);
    assert_eq!(v.syscall_args_32[0].0, 8);
}

#[test]
fn watch_param_conflict_rejected() {
    let renameat = SyscallDef {
        name: "renameat".into(),
        nr: SyscallNr { arm64: Some(38), arm32: None },
        arm64: vec![arg(1, ArgType::Str, "old"), arg(3, ArgType::Str, "new")],
        arm32: vec![],
    };
    let mut g1 = group("g1", &["renameat"]);
    g1.watch_param = Some("old".into());
    let mut g2 = group("g2", &["renameat"]);
    g2.watch_param = Some("new".into());
    let cfg = table_config(vec![renameat], vec![g1, g2], watch(&["a.jpg"], &["g1", "g2"]));
    assert!(cfg.validate().is_err());
}

#[test]
fn too_long_basename_rejected() {
    let creat = SyscallDef {
        name: "creat".into(),
        nr: SyscallNr { arm64: None, arm32: Some(8) },
        arm64: vec![],
        arm32: vec![arg(0, ArgType::Str, "path")],
    };
    let long = "x".repeat(64);
    let cfg = table_config(vec![creat], vec![group("g", &["creat"])], watch(&[long.as_str()], &["g"]));
    assert!(cfg.validate().is_err());
}

#[test]
fn basename_limits_and_dedup() {
    let mut cfg = Config::factory_default();
    cfg.watch.as_mut().unwrap().basenames = vec!["a.jpg".into(), "b".into(), "a.jpg".into(), "x".repeat(63)];
    let v = cfg.validate().unwrap();
    assert_eq!(v.watch_basenames, vec!["a.jpg".to_string(), "b".to_string(), "x".repeat(63)]);
    cfg.watch.as_mut().unwrap().basenames = vec![String::new()];
    match cfg.validate() {
        Err(ConfigError::Validation(m)) => assert_eq!(m, "[watch]: basename '' 长度须在 1..63 字节"),
        Ok(_) => panic!("accepted"),
    }
}

#[test]
fn print_groups_and_sorting() {
    let mut cfg = Config::factory_default();
    cfg.watch = None;
    cfg.print = Some(ebpf_monitor::config::PrintConfig { groups: vec!["delete".into()] });
    let v = cfg.validate().unwrap();
    let nrs: Vec<u32> = v.syscall_args_64.iter().map(|(nr, _)| *nr).collect();
    let mut sorted = nrs.clone();
    sorted.sort();
    assert_eq!(nrs, sorted);
    assert!(v.syscall_args_64.iter().all(|(_, i)| i.flags == ebpf_monitor::abi::SYSCALL_FLAG_PRINT));
    cfg.print = Some(ebpf_monitor::config::PrintConfig { groups: vec!["nope".into()] });
    match cfg.validate() {
        Err(ConfigError::Validation(m)) => assert_eq!(m, "[print]: unknown group 'nope'"),
        Ok(_) => panic!("accepted"),
    }
}

fn message_of(cfg: &table::Config) -> String {
    match cfg.validate() {
        Err(ConfigError::Validation(m)) => m,
        Ok(_) => panic!("accepted"),
    }
}

fn openat_def() -> SyscallDef {
    SyscallDef {
        name: "openat".into(),
        nr: SyscallNr { arm64: Some(56), arm32: Some(322) },
        arm64: vec![arg(1, ArgType::Str, "path"), arg(2, ArgType::Int, "flags")],
        arm32: vec![arg(1, ArgType::Str, "path")],
    }
}

#[test]
fn fault_messages() {
    let mut g = group("create", &["openat"]);
    g.watch_flag_mask = Some(0x40);
    let cfg = table_config(vec![openat_def()], vec![g], watch(&["a"], &["create"]));
    assert_eq!(message_of(&cfg), "[watch]: group 'create': watch_flag_mask 与 watch_flag_param 必须成对出现");

    let mut g1 = group("g1", &["openat"]);
    g1.watch_flag_param = Some("flags".into());
    g1.watch_flag_mask = Some(0x40);
    let mut g2 = group("g2", &["openat"]);
    g2.watch_flag_param = Some("flags".into());
    g2.watch_flag_mask = Some(0x80);
    let cfg = table_config(vec![openat_def()], vec![g1, g2], watch(&["a"], &["g1", "g2"]));
    assert_eq!(message_of(&cfg), "syscall 'openat': conflicting watch flag filters");

    let cfg = table_config(vec![], vec![group("g", &["ghost"])], watch(&["a"], &["g"]));
    assert_eq!(message_of(&cfg), "undefined syscall 'ghost'");

    let nostr = SyscallDef {
        name: "x".into(),
        nr: SyscallNr { arm64: Some(1), arm32: None },
        arm64: vec![arg(0, ArgType::Int, "n")],
        arm32: vec![],
    };
    let cfg = table_config(vec![nostr], vec![group("g", &["x"])], watch(&["a"], &["g"]));
    assert_eq!(message_of(&cfg), "syscall 'x' arm64: no str param");

    let mut g = group("g", &["openat"]);
    g.watch_flag_param = Some("flags".into());
    g.watch_flag_mask = Some(0x40);
    let cfg = table_config(vec![openat_def()], vec![g], watch(&["a"], &["g"]));
    assert_eq!(message_of(&cfg), "syscall 'openat' arm32: no int param 'flags'");

    let mut g1 = group("g1", &["openat"]);
    g1.watch_param = Some("path".into());
    let g2 = group("g2", &["openat"]);
    let cfg = table_config(vec![openat_def()], vec![g1, g2], watch(&["a"], &["g1", "g2"]));
    assert_eq!(message_of(&cfg), "syscall 'openat': conflicting watch params");
}

#[test]
fn watch_param_and_flag_filter_resolved() {
    let mut g = group("g", &["openat"]);
    g.watch_param = Some("path".into());
    g.watch_flag_param = Some("flags".into());
    g.watch_flag_mask = Some(0x40);
    let mut def = openat_def();
    def.arm32.push(arg(2, ArgType::Int, "flags"));
    let cfg = table_config(vec![def], vec![g], watch(&["a"], &["g"]));
    let v = cfg.validate().unwrap();
    assert_eq!(v.syscall_args_64, vec![(56, ebpf_monitor::abi::SyscallArgInfo { str_reg_idx: 1, flags: SYSCALL_FLAG_WATCH, fl_reg_idx: 2, fl_mask: 0x40 })]);
    assert_eq!(v.syscall_args_32[0].0, 322);
}

#[test]
fn validated_tables_have_distinct_increasing_numbers() {
    let mut cfg = Config::factory_default();
    cfg.print = Some(ebpf_monitor::config::PrintConfig {
        groups: vec!["open_".into(), "create".into(), "delete".into()],
    });
    let v = cfg.validate().unwrap();
    for w in v.syscall_args_64.windows(2) {
        assert!(w[0].0 < w[1].0);
    }
    for w in v.syscall_args_32.windows(2) {
        assert!(w[0].0 < w[1].0);
    }
    assert_eq!(v.syscall_args_64.len(), 6);
    assert_eq!(v.syscall_args_32.len(), 9);
}

#[test]
fn basenames_deduplicated_in_first_order() {
    let mut cfg = Config::factory_default();
    cfg.watch = Some(ebpf_monitor::config::WatchConfig {
        basenames: vec!["b".into(), "a".into(), "b".into(), "c".into(), "a".into()],
        groups: vec!["create".into()],
    });
    let v = cfg.validate().unwrap();
    assert_eq!(v.watch_basenames, vec!["b".to_string(), "a".to_string(), "c".to_string()]);
    cfg.watch = Some(ebpf_monitor::config::WatchConfig {
        basenames: vec!["ok".into(), String::new()],
        groups: vec!["nonexistent".into()],
    });
    assert!(cfg.validate().is_err());
}

#[test]
fn later_watch_group_brings_flag_filter() {
    let plain = group("plain", &["openat"]);
    let mut filtered = group("filtered", &["openat"]);
    filtered.watch_flag_param = Some("flags".into());
    filtered.watch_flag_mask = Some(0x40);
    let mut def = openat_def();
    def.arm32.push(arg(2, ArgType::Int, "flags"));
    let mut cfg = table_config(vec![def], vec![plain, filtered], watch(&["a"], &["plain", "filtered"]));
    cfg.print = Some(ebpf_monitor::config::PrintConfig { groups: vec!["plain".into()] });
    let v = cfg.validate().unwrap();
    let info = ebpf_monitor::abi::SyscallArgInfo {
        str_reg_idx: 1,
        flags: SYSCALL_FLAG_WATCH | ebpf_monitor::abi::SYSCALL_FLAG_PRINT,
        fl_reg_idx: 2,
        fl_mask: 0x40,
    };
    assert_eq!(v.syscall_args_64, vec![(56, info)]);
    assert_eq!(v.syscall_args_32, vec![(322, info)]);
}

#[test]
fn print_only_syscall_has_no_watch_settings() {
    let mut cfg = table_config(vec![openat_def()], vec![group("p", &["openat"])], None);
    cfg.print = Some(ebpf_monitor::config::PrintConfig { groups: vec!["p".into()] });
    let v = cfg.validate().unwrap();
    let info = ebpf_monitor::abi::SyscallArgInfo {
        str_reg_idx: 1,
        flags: ebpf_monitor::abi::SYSCALL_FLAG_PRINT,
        fl_reg_idx: 0,
        fl_mask: 0,
    };
    assert_eq!(v.syscall_args_64, vec![(56, info)]);
}
