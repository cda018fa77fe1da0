use bytes::BytesMut;
use landns::frame::{find_delim, frame, reassemble};

#[test]
fn frame_appends_delimiter() {
    assert_eq!(frame(b"alice"), b"alice\r\n".to_vec());
    assert_eq!(frame(b""), b"\r\n".to_vec());
}

#[test]
fn find_delim_needs_adjacent_pair() {
    assert_eq!(find_delim(b"ab\r\ncd"), Some(2));
    assert_eq!(find_delim(b"a\rb\nc"), None);
    assert_eq!(find_delim(b"\r\r\n"), Some(1));
    assert_eq!(find_delim(b""), None);
    assert_eq!(find_delim(b"\r"), None);
}

#[test]
fn reassemble_whole_frame() {
    let mut buf = BytesMut::new();
    assert_eq!(reassemble(&mut buf, b"alice\r\n"), Some(b"alice".to_vec()));
    assert!(buf.is_empty());
}

#[test]
fn reassemble_byte_by_byte() {
    let msg = b"host-\rname";
    let framed = frame(msg);
    let mut buf = BytesMut::new();
    let mut out = Vec::new();
    for b in &framed {
        if let Some(m) = reassemble(&mut buf, &[*b]) {
            out.push(m);
        }
    }
    assert_eq!(out, vec![msg.to_vec()]);
    assert!(buf.is_empty());
}

#[test]
fn reassemble_every_split_point() {
    let framed = frame(b"bob");
    for cut in 0..=framed.len() {
        let mut buf = BytesMut::new();
        let first = reassemble(&mut buf, &framed[..cut]);
        let second = reassemble(&mut buf, &framed[cut..]);
        if cut == framed.len() {
            assert_eq!(first, Some(b"bob".to_vec()));
            assert_eq!(second, None);
        } else {
            assert_eq!(first, None);
            assert_eq!(second, Some(b"bob".to_vec()));
        }
        assert!(buf.is_empty());
    }
}

#[test]
fn reassemble_keeps_trailing_bytes() {
    let mut buf = BytesMut::new();
    assert_eq!(reassemble(&mut buf, b"one\r\ntwo\r\nth"), Some(b"one".to_vec()));
    assert_eq!(&buf[..], b"two\r\nth");
    assert_eq!(reassemble(&mut buf, b"ree"), Some(b"two".to_vec()));
    assert_eq!(&buf[..], b"three");
}

#[test]
fn reassemble_without_delimiter_accumulates() {
    let mut buf = BytesMut::new();
    assert_eq!(reassemble(&mut buf, b"abc\r"), None);
    assert_eq!(reassemble(&mut buf, b"def"), None);
    assert_eq!(&buf[..], b"abc\rdef");
}

#[test]
fn oversized_datagram_truncated_does_not_panic() {
    let mut big = vec![b'x'; 1500];
    big.extend_from_slice(b"\r\n");
    let received = &big[..1024];
    let mut buf = BytesMut::new();
    assert_eq!(reassemble(&mut buf, received), None);
    assert_eq!(buf.len(), 1024);
}
