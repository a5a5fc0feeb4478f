use ebpf_monitor::abi::{decode_file_event, FileEvent, FileOp, FILE_EVENT_SIZE};

#[test]
fn abi_layout() {
    assert_eq!(core::mem::size_of::<FileEvent>(), 560);
    assert_eq!(FILE_EVENT_SIZE, 560);
}

#[test]
fn decode_rejects_short_buffer() {
    assert!(decode_file_event(&[0u8; 559]).is_none());
}

#[test]
fn decode_reads_fields_little_endian() {
    let mut b = vec![0u8; 600];
    b[0] = 0x01;
    b[1] = 0x02; // pid = 0x0201
    b[4] = 7; // tid
    b[8] = 0xe8;
    b[9] = 0x03; // uid = 1000
    b[12] = 2; // rename
    for i in 16..24 {
        b[i] = 0xff; // ret = -1
    }
    b[24] = 1;
    b[28] = 0x40;
    b[32] = b'c';
    b[48] = b'/';
    b[49] = b'a';
    b[304] = b'o';
    let e = decode_file_event(&b).unwrap();
    assert_eq!(e.pid, 0x0201);
    assert_eq!(e.tid, 7);
    assert_eq!(e.uid, 1000);
    assert_eq!(e.ret, -1);
    assert_eq!(e.watched, 1);
    assert_eq!(e.sflags, 0x40);
    assert_eq!(e.comm[0], b'c');
    assert_eq!(&e.fname[..2], b"/a");
    assert_eq!(e.old_fname[0], b'o');
    assert_eq!(e.op(), FileOp::Rename);
}

#[test]
fn file_op_codes() {
    assert_eq!(FileOp::from(0), FileOp::Create);
    assert_eq!(FileOp::from(1), FileOp::Mkdir);
    assert_eq!(FileOp::from(2), FileOp::Rename);
    assert_eq!(FileOp::from(3), FileOp::Unlink);
    assert_eq!(FileOp::from(4), FileOp::Unknown);
    assert_eq!(FileOp::from(0xff), FileOp::Unknown);
}
