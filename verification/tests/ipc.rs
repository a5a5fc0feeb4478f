use ebpf_monitor::ipc::{classify, events_window, Command, LineStep, RequestLine};

#[test]
fn commands_and_aliases() {
    assert!(matches!(classify("ping"), Command::Ping));
    assert!(matches!(classify("status"), Command::Status));
    assert!(matches!(classify("events"), Command::Events));
    assert!(matches!(classify("clear"), Command::Clear));
    assert!(matches!(classify("config-get"), Command::ConfigGet));
    assert!(matches!(classify("get-config"), Command::ConfigGet));
    assert!(matches!(classify("set-config"), Command::ConfigSet));
    assert!(matches!(classify("config-set"), Command::ConfigSet));
    assert!(matches!(classify("reload"), Command::Reload));
    assert!(matches!(classify("sync"), Command::Sync));
    match classify("frobnicate") {
        Command::Unknown(s) => assert_eq!(s, "frobnicate"),
        _ => panic!("known"),
    }
    assert!(matches!(classify(""), Command::Unknown(_)));
}

#[test]
fn events_window_defaults_and_cap() {
    assert_eq!(events_window(None, None), (0, 500));
    assert_eq!(events_window(Some(7), Some(10)), (7, 10));
    assert_eq!(events_window(None, Some(5000)), (0, 2000));
    assert_eq!(events_window(None, Some(2000)), (0, 2000));
}

#[test]
fn request_line_ends_at_newline() {
    let mut l = RequestLine::new();
    let mut last = LineStep::More;
    for &b in b"{\"cmd\":\"ping\"}\n" {
        last = l.feed(b);
        if last != LineStep::More {
            break;
        }
    }
    assert_eq!(last, LineStep::Done);
    assert_eq!(l.text, "{\"cmd\":\"ping\"}\n");
    assert_eq!(l.len, l.text.len());
}

#[test]
fn request_line_too_long() {
    let mut l = RequestLine::new();
    let mut steps = 0;
    loop {
        steps += 1;
        match l.feed(b'a') {
            LineStep::More => continue,
            LineStep::TooLong => break,
            LineStep::Done => panic!("no newline fed"),
        }
    }
    assert_eq!(steps, 8193);
}

#[test]
fn request_line_counts_utf8_bytes() {
    let mut l = RequestLine::new();
    assert_eq!(l.feed(0xe9), LineStep::More);
    assert_eq!(l.len, 2);
    assert_eq!(l.text, "\u{e9}");
    assert_eq!(l.len, l.text.len());
}

use ebpf_monitor::ipc::{reload_reply, ReloadReply};

#[test]
fn reload_replies() {
    assert!(matches!(reload_reply(true, Some(Ok(()))), ReloadReply::Reloaded));
    match reload_reply(true, Some(Err("validate: x".into()))) {
        ReloadReply::Failed(m) => assert_eq!(m, "validate: x"),
        _ => panic!(),
    }
    match reload_reply(true, None) {
        ReloadReply::Failed(m) => assert_eq!(m, "reload timeout"),
        _ => panic!(),
    }
    match reload_reply(false, Some(Ok(()))) {
        ReloadReply::Failed(m) => assert_eq!(m, "daemon loop gone"),
        _ => panic!(),
    }
}

use ebpf_monitor::config::Config;
use ebpf_monitor::ipc::accept_config;

#[test]
fn set_config_checks() {
    assert_eq!(accept_config(true, Ok(Config::factory_default())).unwrap_err(), "empty body");
    assert_eq!(accept_config(false, Err("EOF".into())).unwrap_err(), "json: EOF");
    let mut bad = Config::factory_default();
    bad.watch.as_mut().unwrap().groups = vec!["nonexistent".into()];
    assert_eq!(accept_config(false, Ok(bad)).unwrap_err(), "validate: [watch]: unknown group 'nonexistent'");
    assert!(accept_config(false, Ok(Config::factory_default())).is_ok());
}
