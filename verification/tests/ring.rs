use ebpf_monitor::events::Ev;
use ebpf_monitor::ring::{clear, newer_tail, newest_seq, push, query, EventRing, RING_CAP};

fn ev(file: &str) -> Ev {
    Ev {
        seq: 0,
        ts: String::new(),
        epoch_ms: 0,
        pid: 1,
        tid: 1,
        uid: 0,
        comm: String::new(),
        pkg: String::new(),
        op: "openat".into(),
        ret: 0,
        flags: 0,
        file: file.into(),
        cmd: String::new(),
        old_file: String::new(),
        dev: 0,
        ino: 0,
        file_id: 0,
        prev_hash: String::new(),
        hash: String::new(),
    }
}

#[test]
fn numbers_events_and_rotates_every_64() {
    let mut r = EventRing::new(10);
    let (e, rot) = push(&mut r, ev("/a"));
    assert_eq!(e.seq, 11);
    assert!(!rot);
    assert_eq!(newest_seq(&r), 11);
    let mut rotations = 0;
    for _ in 0..127 {
        if push(&mut r, ev("/b")).1 {
            rotations += 1;
        }
    }
    assert_eq!(rotations, 2);
}

#[test]
fn keeps_newest_ring_cap_events() {
    let mut r = EventRing::new(0);
    for i in 0..(RING_CAP + 5) {
        push(&mut r, ev(&format!("/{i}")));
    }
    assert_eq!(r.ring.len(), RING_CAP);
    assert_eq!(r.ring[0].seq, 6);
    assert_eq!(r.ring[RING_CAP - 1].seq, (RING_CAP + 5) as u64);
}

#[test]
fn query_when_ring_covers() {
    let mut r = EventRing::new(0);
    for i in 0..5 {
        push(&mut r, ev(&format!("/{i}")));
    }
    let v = query(&r, 2, 10).unwrap();
    assert_eq!(v.iter().map(|e| e.seq).collect::<Vec<_>>(), vec![3, 4, 5]);
    let v = query(&r, 0, 2).unwrap();
    assert_eq!(v.iter().map(|e| e.seq).collect::<Vec<_>>(), vec![4, 5]);
    let mut late = EventRing::new(100);
    push(&mut late, ev("/x"));
    assert!(query(&late, 50, 10).is_none());
    assert!(query(&EventRing::new(0), 0, 10).is_none());
}

#[test]
fn newer_tail_filters_and_limits() {
    let mut v = Vec::new();
    for s in [5u64, 1, 7, 9, 2] {
        let mut e = ev("/f");
        e.seq = s;
        v.push(e);
    }
    let out = newer_tail(&v, 4, 2);
    assert_eq!(out.iter().map(|e| e.seq).collect::<Vec<_>>(), vec![7, 9]);
    assert!(newer_tail(&v, 9, 10).is_empty());
}

#[test]
fn clear_keeps_numbering() {
    let mut r = EventRing::new(0);
    push(&mut r, ev("/a"));
    clear(&mut r);
    assert!(r.ring.is_empty());
    let (e, _) = push(&mut r, ev("/b"));
    assert_eq!(e.seq, 2);
}

#[test]
fn query_after_the_largest_number_is_empty() {
    let mut r = EventRing::new(0);
    push(&mut r, ev("/a"));
    push(&mut r, ev("/b"));
    assert_eq!(query(&r, u64::MAX, 10).unwrap().len(), 0);
    let got = query(&r, 1, 1).unwrap();
    assert_eq!(got.len(), 1);
    assert_eq!(got[0].seq, 2);
}
