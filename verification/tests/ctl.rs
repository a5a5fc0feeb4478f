use ebpf_monitor::cli::{parse_cli, CliArgs, CliOutcome};
use ebpf_monitor::ctl::{parse_args, parse_u64};

fn strs(v: &[&str]) -> Vec<String> {
    v.iter().map(|s| s.to_string()).collect()
}

#[test]
fn ctl_args_window_and_body() {
    assert_eq!(parse_args(&strs(&["events", "after", "5", "limit", "20"])), ("events".to_string(), 5, 20, None));
    assert_eq!(parse_args(&strs(&["events"])), ("events".to_string(), 0, 500, None));
    assert_eq!(parse_args(&strs(&["events", "after", "x"])), ("events".to_string(), 0, 500, None));
    assert_eq!(parse_args(&strs(&["events", "limit", "-1"])), ("events".to_string(), 0, 500, None));
    assert_eq!(parse_args(&strs(&["set-config", "cfg.json"])), ("set-config".to_string(), 0, 500, Some("cfg.json".to_string())));
    assert_eq!(parse_args(&strs(&["x", "a", "b", "after"])), ("x".to_string(), 0, 500, Some("after".to_string())));
    assert_eq!(parse_args(&[]), (String::new(), 0, 500, None));
}

#[test]
fn u64_parsing_like_std() {
    assert_eq!(parse_u64("0"), Some(0));
    assert_eq!(parse_u64("+42"), Some(42));
    assert_eq!(parse_u64("18446744073709551615"), Some(u64::MAX));
    assert_eq!(parse_u64("18446744073709551616"), None);
    assert_eq!(parse_u64(""), None);
    assert_eq!(parse_u64("+"), None);
    assert_eq!(parse_u64(" 1"), None);
    assert_eq!(parse_u64("-1"), None);
    for s in ["7", "007", "+9", "123456789012", "1x"] {
        assert_eq!(parse_u64(s), s.parse::<u64>().ok());
    }
}

#[test]
fn daemon_options() {
    match parse_cli(&strs(&[])) {
        CliOutcome::Run(a) => assert_eq!(a, CliArgs { verbosity: 1, selftest: false, loadtest: false }),
        _ => panic!(),
    }
    match parse_cli(&strs(&["-v", "--selftest"])) {
        CliOutcome::Run(a) => assert_eq!(a, CliArgs { verbosity: 2, selftest: true, loadtest: false }),
        _ => panic!(),
    }
    match parse_cli(&strs(&["-vv", "-q", "--loadtest"])) {
        CliOutcome::Run(a) => assert_eq!(a, CliArgs { verbosity: 0, selftest: false, loadtest: true }),
        _ => panic!(),
    }
    assert!(matches!(parse_cli(&strs(&["-q", "--help", "--bogus"])), CliOutcome::Help));
    match parse_cli(&strs(&["-v", "--bogus", "-h"])) {
        CliOutcome::Unknown(s) => assert_eq!(s, "--bogus"),
        _ => panic!(),
    }
}

use ebpf_monitor::ctl::{body_kind, client_exit_code, request_cmd, wants_usage, BodyKind};

#[test]
fn client_request_mapping() {
    assert_eq!(request_cmd("config-get"), "get-config");
    assert_eq!(request_cmd("get-config"), "get-config");
    assert_eq!(request_cmd("config-set"), "set-config");
    assert_eq!(request_cmd("set-config"), "set-config");
    assert_eq!(request_cmd("events"), "events");
    assert_eq!(request_cmd("whatever"), "whatever");
    assert_eq!(body_kind("config-set"), BodyKind::Config);
    assert_eq!(body_kind("sync"), BodyKind::Document);
    assert_eq!(body_kind("status"), BodyKind::NoBody);
}

#[test]
fn client_exit_status() {
    assert_eq!(client_exit_code("sync", true, false), 0);
    assert_eq!(client_exit_code("sync", false, true), 1);
    assert_eq!(client_exit_code("ping", false, true), 0);
    assert_eq!(client_exit_code("ping", true, false), 1);
}

#[test]
fn client_usage() {
    assert!(wants_usage(&[]));
    assert!(wants_usage(&strs(&["-h"])));
    assert!(wants_usage(&strs(&["--help", "x"])));
    assert!(!wants_usage(&strs(&["status", "-h"])));
}
