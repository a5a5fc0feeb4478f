use ebpf_monitor::events::{chain_text, Ev};

fn ev() -> Ev {
    Ev {
        seq: 0,
        ts: String::new(),
        epoch_ms: 0,
        pid: 0,
        tid: 0,
        uid: 0,
        comm: String::new(),
        pkg: String::new(),
        op: String::new(),
        ret: 0,
        flags: 0,
        file: "/x".into(),
        cmd: String::new(),
        old_file: String::new(),
        dev: 3,
        ino: 5,
        file_id: 0,
        prev_hash: String::new(),
        hash: String::new(),
    }
}

#[test]
fn file_id_prefers_stored_then_inode() {
    let mut e = ev();
    e.file_id = 9;
    assert_eq!(e.file_id_computed(), 9);
    let e = ev();
    assert_eq!(e.file_id_computed(), (3u64 << 32) ^ 5);
}

#[test]
fn chain_text_layout() {
    assert_eq!(chain_text(12, "create", "/a b", -7, "ff"), "12|create|/a b|-7|ff");
    assert_eq!(chain_text(0, "", "", 0, ""), "0|||0|");
    assert_eq!(chain_text(u64::MAX, "x", "y", i64::MIN, ""), format!("{}|x|y|{}|", u64::MAX, i64::MIN));
}

#[test]
fn chain_text_renders_extreme_numbers() {
    assert_eq!(chain_text(0, "a", "b", i64::MIN, ""), "0|a|b|-9223372036854775808|");
    assert_eq!(chain_text(u64::MAX, "x", "/f", i64::MAX, "h"), "18446744073709551615|x|/f|9223372036854775807|h");
    assert_eq!(chain_text(10, "", "", -10, ""), "10|||-10|");
}
