use ebpf_monitor::ipc::{
    cleared_reply, client_main, client_result, config_reply, error_reply, events_reply, pong_reply,
    reload_reply, reload_reply_text, serve_request, status_reply, sync_payload, sync_reply, Action,
    ClientOutput,
};

fn reply_of(a: Action) -> String {
    match a {
        Action::Reply(t) => t,
        other => panic!("expected a reply, got {:?}", other),
    }
}

#[test]
fn ping_answered_at_once() {
    assert_eq!(reply_of(serve_request("{\"cmd\":\"ping\"}")), "{\"ok\":true,\"pong\":true}");
    assert_eq!(pong_reply(), "{\"ok\":true,\"pong\":true}");
}

#[test]
fn non_json_line_dropped() {
    assert!(matches!(serve_request("not json"), Action::Drop));
    assert!(matches!(serve_request(""), Action::Drop));
}

#[test]
fn commands_become_actions() {
    assert!(matches!(serve_request("{\"cmd\":\"status\"}"), Action::Status));
    assert!(matches!(serve_request("{\"cmd\":\"clear\"} \r"), Action::Clear));
    assert!(matches!(serve_request("{\"cmd\":\"get-config\"}"), Action::ConfigGet));
    assert!(matches!(serve_request("{\"cmd\":\"config-set\"}"), Action::ConfigSet));
    assert!(matches!(serve_request("{\"cmd\":\"reload\"}"), Action::Reload));
    assert!(matches!(serve_request("{\"cmd\":\"sync\"}"), Action::Sync));
}

#[test]
fn events_window_read_from_request() {
    assert!(matches!(
        serve_request("{\"cmd\":\"events\",\"after\":3,\"limit\":5000}"),
        Action::Events(3, 2000)
    ));
    assert!(matches!(serve_request("{\"cmd\":\"events\"}"), Action::Events(0, 500)));
    assert!(matches!(
        serve_request("{\"cmd\":\"events\",\"after\":-1,\"limit\":\"x\"}"),
        Action::Events(0, 500)
    ));
    assert!(matches!(
        serve_request("{\"cmd\":\"events\",\"after\":18446744073709551615,\"limit\":7}"),
        Action::Events(u64::MAX, 7)
    ));
}

#[test]
fn unknown_command_answered_with_error() {
    assert_eq!(
        reply_of(serve_request("{\"cmd\":\"nope\"}")),
        "{\"error\":\"unknown cmd: nope\",\"ok\":false}"
    );
    assert_eq!(reply_of(serve_request("{}")), "{\"error\":\"unknown cmd: \",\"ok\":false}");
    assert_eq!(
        reply_of(serve_request("{\"cmd\":\"a\\\"b\"}")),
        "{\"error\":\"unknown cmd: a\\\"b\",\"ok\":false}"
    );
}

#[test]
fn fixed_replies() {
    assert_eq!(cleared_reply(), "{\"cleared\":true,\"ok\":true}");
    assert_eq!(error_reply("x\ny"), "{\"error\":\"x\\ny\",\"ok\":false}");
    assert_eq!(reload_reply_text(&reload_reply(true, Some(Ok(())))), "{\"ok\":true,\"reloaded\":true}");
    assert_eq!(
        reload_reply_text(&reload_reply(false, None)),
        "{\"error\":\"daemon loop gone\",\"ok\":false}"
    );
    assert_eq!(config_reply("{\"a\":1}"), "{\"config\":{\"a\":1},\"ok\":true}");
}

#[test]
fn status_reply_fields_sorted() {
    assert_eq!(
        status_reply(7, "5.10.1", true, 123, 42),
        "{\"btf\":true,\"daemon_pid\":42,\"events_bytes\":123,\"kernel\":\"5.10.1\",\"newest\":7,\"ok\":true}"
    );
    assert_eq!(
        status_reply(0, "", false, 0, 1),
        "{\"btf\":false,\"daemon_pid\":1,\"events_bytes\":0,\"kernel\":\"\",\"newest\":0,\"ok\":true}"
    );
}

#[test]
fn events_reply_joins_items() {
    assert_eq!(events_reply(&vec![]), "{\"events\":[],\"ok\":true}");
    assert_eq!(
        events_reply(&vec!["{\"a\":1}".to_string(), "{\"b\":2}".to_string()]),
        "{\"events\":[{\"a\":1},{\"b\":2}],\"ok\":true}"
    );
}

#[test]
fn sync_body_and_reply() {
    assert!(sync_payload(b"").is_none());
    assert_eq!(sync_payload(b" aGk=\n").unwrap(), b"hi".to_vec());
    assert_eq!(sync_reply(b"hi"), "{\"doc\":\"aGk=\",\"ok\":true}");
}

#[test]
fn client_reads_reply() {
    match client_main("{\"ok\":true,\"doc\":\"x\"}\n", Some("doc")) {
        (0, ClientOutput::Raw(v)) => assert_eq!(v, "x"),
        other => panic!("{:?}", other),
    }
    match client_main("{\"ok\":true}", Some("doc")) {
        (1, ClientOutput::Line(t)) => assert_eq!(t, "{\"ok\":true}"),
        other => panic!("{:?}", other),
    }
    match client_main(" {\"pong\":true,\"ok\":true} ", None) {
        (0, ClientOutput::Line(t)) => assert_eq!(t, "{\"ok\":true,\"pong\":true}"),
        other => panic!("{:?}", other),
    }
    match client_main("{\"ok\":false}", None) {
        (1, ClientOutput::Line(_)) => {}
        other => panic!("{:?}", other),
    }
    match client_main(" garbage ", None) {
        (1, ClientOutput::BadResponse(t)) => assert_eq!(t, "garbage"),
        other => panic!("{:?}", other),
    }
}

#[test]
fn client_result_exit_status() {
    assert_eq!(client_result(None, false), 1);
    assert_eq!(client_result(Some((Some(true), None)), false), 0);
    assert_eq!(client_result(Some((Some(false), None)), false), 1);
    assert_eq!(client_result(Some((None, None)), false), 1);
    assert_eq!(client_result(Some((Some(false), Some("v".into()))), true), 0);
    assert_eq!(client_result(Some((Some(true), None)), true), 1);
}
