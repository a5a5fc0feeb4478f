use ebpf_monitor::base64::{base64_decode, base64_encode};

#[test]
fn base64_known_vectors() {
    assert_eq!(base64_encode(b""), "");
    assert_eq!(base64_encode(b"f"), "Zg==");
    assert_eq!(base64_encode(b"fo"), "Zm8=");
    assert_eq!(base64_encode(b"foo"), "Zm9v");
    assert_eq!(base64_encode(b"foobar"), "Zm9vYmFy");
    assert_eq!(base64_encode(&[0xff, 0xfe]), "//4=");
}

#[test]
fn base64_decode_vectors() {
    assert_eq!(base64_decode("Zm9vYmFy").unwrap(), b"foobar");
    assert_eq!(base64_decode("Zg==").unwrap(), b"f");
    assert_eq!(base64_decode(" \"Zm8=\" \n").unwrap(), b"fo");
    assert_eq!(base64_decode("Zm\n9v").unwrap(), b"foo");
    assert_eq!(base64_decode("").unwrap(), b"");
    assert_eq!(base64_decode("Z").unwrap(), b"");
}

#[test]
fn base64_roundtrip() {
    let data: Vec<u8> = (0u8..=255).collect();
    for n in 0..data.len() {
        let enc = base64_encode(&data[..n]);
        assert_eq!(base64_decode(&enc).unwrap(), &data[..n]);
    }
}
