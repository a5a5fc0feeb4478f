use std::hash::{Hash, Hasher};

use ebpf_monitor::events::Ev;
use ebpf_monitor::store::{
    clear, len, load_bytes, newest_seq, push, query, save_bytes, LoadOutcome, Store,
};

fn ev(file: &str, op: &str, ms: i64) -> Ev {
    Ev {
        seq: 0,
        ts: "01-02 03:04:05".into(),
        epoch_ms: ms,
        pid: 4321,
        tid: 4322,
        uid: 10123,
        comm: "cat".into(),
        pkg: "com.example".into(),
        op: op.into(),
        ret: -2,
        flags: 0x41,
        file: file.into(),
        cmd: "cat /x".into(),
        old_file: String::new(),
        dev: 0xffff_0000_0000_0001,
        ino: 77,
        file_id: 0,
        prev_hash: String::new(),
        hash: String::new(),
    }
}

fn hex_blake3(s: &str) -> String {
    blake3::hash(s.as_bytes()).to_hex().to_string()
}

#[test]
fn pushed_event_reads_back() {
    let mut s = Store::new().unwrap();
    push(&mut s, ev("/a.jpg", "create", 1000));
    let got = query(&s, 0, 1);
    assert_eq!(got.len(), 1);
    let e = &got[0];
    assert_eq!(e.seq, 1);
    assert_eq!(e.file, "/a.jpg");
    assert_eq!(e.op, "create");
    assert_eq!(e.epoch_ms, 1000);
    assert_eq!(e.pid, 4321);
    assert_eq!(e.tid, 4322);
    assert_eq!(e.uid, 10123);
    assert_eq!(e.ret, -2);
    assert_eq!(e.flags, 0x41);
    assert_eq!(e.dev, 0xffff_0000_0000_0001);
    assert_eq!(e.ino, 77);
    let fid = (0xffff_0000_0000_0001u64 << 32) ^ 77;
    assert_eq!(e.file_id, fid);
    assert_eq!(e.prev_hash, "");
    assert_eq!(e.hash, hex_blake3(&format!("{}|create|/a.jpg|1000|", fid)));
}

#[test]
fn events_are_hash_chained() {
    let mut s = Store::new().unwrap();
    push(&mut s, ev("/a", "create", 1));
    push(&mut s, ev("/b", "unlink", -5));
    push(&mut s, ev("/c", "rename", 3));
    let all = query(&s, 0, 10);
    assert_eq!(all.len(), 3);
    assert_eq!(all.iter().map(|e| e.seq).collect::<Vec<_>>(), vec![1, 2, 3]);
    for i in 1..3 {
        assert_eq!(all[i].prev_hash, all[i - 1].hash);
    }
    let fid = (0xffff_0000_0000_0001u64 << 32) ^ 77;
    assert_eq!(all[1].hash, hex_blake3(&format!("{}|unlink|/b|-5|{}", fid, all[0].hash)));
}

#[test]
fn query_returns_newest_window() {
    let mut s = Store::new().unwrap();
    for i in 0..5 {
        push(&mut s, ev(&format!("/f{i}"), "create", i));
    }
    let last2 = query(&s, 0, 2);
    assert_eq!(last2.iter().map(|e| e.file.as_str()).collect::<Vec<_>>(), vec!["/f3", "/f4"]);
    let newer3 = query(&s, 3, 100);
    assert_eq!(newer3.iter().map(|e| e.seq).collect::<Vec<_>>(), vec![4, 5]);
    assert_eq!(query(&s, 4, 1)[0].file, "/f4");
    assert!(query(&s, 5, 100).is_empty());
    assert_eq!(query(&s, 1, 2).iter().map(|e| e.seq).collect::<Vec<_>>(), vec![4, 5]);
    assert_eq!(query(&s, 0, 0).len(), 0);
    assert_eq!(newest_seq(&s), 5);
    assert_eq!(len(&s), 5);
}

#[test]
fn file_id_falls_back_to_path_hash() {
    let mut s = Store::new().unwrap();
    let mut e = ev("/p", "create", 1);
    e.dev = 0;
    e.ino = 0;
    push(&mut s, e);
    let got = query(&s, 0, 1);
    let mut h = std::collections::hash_map::DefaultHasher::new();
    "/p".to_string().hash(&mut h);
    assert_eq!(got[0].file_id, h.finish());
}

#[test]
fn clear_empties_the_log() {
    let mut s = Store::new().unwrap();
    push(&mut s, ev("/a", "create", 1));
    assert!(clear(&mut s));
    assert!(query(&s, 0, 10).is_empty());
    push(&mut s, ev("/b", "create", 2));
    let got = query(&s, 0, 10);
    assert_eq!(got.len(), 1);
    assert_eq!(got[0].seq, 1);
    assert_eq!(got[0].prev_hash, "");
}

#[test]
fn save_and_merge_documents() {
    let mut a = Store::new().unwrap();
    push(&mut a, ev("/a", "create", 1));
    let bytes = save_bytes(&mut a);
    assert!(!bytes.is_empty());
    assert_eq!(query(&a, 0, 10).len(), 1);
    let doc = automerge::AutoCommit::load(&bytes).unwrap();
    let b = Store::from_doc(doc).unwrap();
    let got = query(&b, 0, 10);
    assert_eq!(got.len(), 1);
    assert_eq!(got[0].file, "/a");
    let mut c = Store::from_doc(automerge::AutoCommit::load(&bytes).unwrap()).unwrap();
    assert_eq!(load_bytes(&mut c, &bytes), LoadOutcome::Merged);
    assert_eq!(query(&c, 0, 10).len(), 1);
    assert_eq!(load_bytes(&mut c, b"not a document"), LoadOutcome::NotADocument);
    assert_eq!(query(&c, 0, 10).len(), 1);
}

#[test]
fn fresh_document_gets_an_events_list() {
    let mut s = Store::from_doc(automerge::AutoCommit::new()).unwrap();
    assert_eq!(len(&s), 0);
    push(&mut s, ev("/z", "mkdir", 9));
    assert_eq!(query(&s, 0, 5)[0].op, "mkdir");
}

#[test]
fn chain_links_events_of_the_same_file() {
    let mut s = Store::new().unwrap();
    let mut a1 = ev("/a", "create", 1);
    a1.ino = 1;
    let mut b = ev("/b", "create", 2);
    b.ino = 2;
    let mut a2 = ev("/a", "write", 3);
    a2.ino = 1;
    push(&mut s, a1);
    push(&mut s, b);
    push(&mut s, a2);
    let all = query(&s, 0, 10);
    assert_eq!(all.len(), 3);
    assert_eq!(all[0].prev_hash, "");
    assert_eq!(all[1].prev_hash, "");
    assert_eq!(all[2].prev_hash, all[0].hash);
    assert_ne!(all[0].file_id, all[1].file_id);
    let fid_a = (0xffff_0000_0000_0001u64 << 32) ^ 1;
    assert_eq!(all[2].hash, hex_blake3(&format!("{}|write|/a|3|{}", fid_a, all[0].hash)));
}

#[test]
fn own_snapshot_merges_without_change() {
    let mut s = Store::new().unwrap();
    push(&mut s, ev("/a", "create", 1));
    push(&mut s, ev("/b", "unlink", 2));
    let before = query(&s, 0, 10);
    let bytes = save_bytes(&mut s);
    assert_eq!(load_bytes(&mut s, &bytes), LoadOutcome::Merged);
    let after = query(&s, 0, 10);
    let key = |v: &Vec<Ev>| {
        v.iter().map(|e| (e.seq, e.file.clone(), e.hash.clone())).collect::<Vec<_>>()
    };
    assert_eq!(key(&after), key(&before));
}

#[test]
fn merge_brings_in_a_foreign_document() {
    let mut a = Store::new().unwrap();
    push(&mut a, ev("/a", "create", 1));
    let bytes = save_bytes(&mut a);
    let mut d = Store::new().unwrap();
    assert_eq!(load_bytes(&mut d, &bytes), LoadOutcome::Merged);
}

#[test]
fn newest_seq_follows_pushes() {
    let mut s = Store::new().unwrap();
    assert_eq!(newest_seq(&s), 0);
    push(&mut s, ev("/a", "create", 1));
    assert_eq!(newest_seq(&s), 1);
    push(&mut s, ev("/b", "create", 2));
    assert_eq!(newest_seq(&s), 2);
    assert!(clear(&mut s));
    assert_eq!(newest_seq(&s), 0);
}
