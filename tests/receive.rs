use bytes::BytesMut;
use landns::frame::frame;
use landns::publish::announcement;
use landns::receive::{handle_datagram, ReceiveError, Received};
use landns::sig::{AuthError, HmacSigner, Signer, UnsecureSigner};

#[test]
fn announcement_is_signed_and_framed() {
    let signer = HmacSigner::new(b"k".to_vec());
    let mut expected = signer.sign(b"alice");
    expected.extend_from_slice(b"\r\n");
    assert_eq!(announcement(&signer, "alice"), expected);
    assert_eq!(announcement(&UnsecureSigner, "bob"), b"bob\r\n".to_vec());
}

#[test]
fn peer_announcement_is_reported() {
    let signer = HmacSigner::new(b"k".to_vec());
    let data = announcement(&signer, "alice");
    let mut buf = BytesMut::new();
    let r = handle_datagram(&mut buf, &data, &"bob".to_string(), &signer);
    assert_eq!(r, Received::Announced("alice".to_string()));
    assert!(r.is_complete());
}

#[test]
fn own_announcement_is_skipped() {
    let signer = HmacSigner::new(b"k".to_vec());
    let data = announcement(&signer, "bob");
    let mut buf = BytesMut::new();
    let r = handle_datagram(&mut buf, &data, &"bob".to_string(), &signer);
    assert_eq!(r, Received::OwnName);
}

#[test]
fn partial_datagram_is_incomplete() {
    let mut buf = BytesMut::new();
    let r = handle_datagram(&mut buf, b"ali", &"bob".to_string(), &UnsecureSigner);
    assert_eq!(r, Received::Incomplete);
    assert!(!r.is_complete());
    let r = handle_datagram(&mut buf, b"ce\r\n", &"bob".to_string(), &UnsecureSigner);
    assert_eq!(r, Received::Announced("alice".to_string()));
}

#[test]
fn bad_signature_is_rejected() {
    let signer = HmacSigner::new(b"k".to_vec());
    let other = HmacSigner::new(b"other".to_vec());
    let data = announcement(&other, "alice");
    let mut buf = BytesMut::new();
    let r = handle_datagram(&mut buf, &data, &"bob".to_string(), &signer);
    assert_eq!(r, Received::Rejected(ReceiveError::Auth(AuthError::BadSignature)));
}

#[test]
fn short_payload_is_rejected() {
    let signer = HmacSigner::new(b"k".to_vec());
    let mut buf = BytesMut::new();
    let r = handle_datagram(&mut buf, b"alice\r\n", &"bob".to_string(), &signer);
    assert_eq!(r, Received::Rejected(ReceiveError::Auth(AuthError::TooShort)));
}

#[test]
fn non_utf8_is_rejected() {
    let mut buf = BytesMut::new();
    let data = frame(&[0xff, 0xfe]);
    let r = handle_datagram(&mut buf, &data, &"bob".to_string(), &UnsecureSigner);
    assert_eq!(r, Received::Rejected(ReceiveError::NotUtf8));
}

#[test]
fn oversized_datagram_fails_authentication() {
    let signer = HmacSigner::new(b"k".to_vec());
    let long_name = "x".repeat(1100);
    let data = announcement(&signer, &long_name[..255]);
    let mut padded = vec![b'y'; 900];
    padded.extend_from_slice(&data);
    let truncated = &padded[..1024];
    let mut buf = BytesMut::new();
    assert_eq!(handle_datagram(&mut buf, truncated, &"bob".to_string(), &signer), Received::Incomplete);
    let r = handle_datagram(&mut buf, b"\r\n", &"bob".to_string(), &signer);
    assert_eq!(r, Received::Rejected(ReceiveError::Auth(AuthError::BadSignature)));
}

use landns::receive::{PeerAddr, PeerBuffers};

fn peer(last: u8, port: u16) -> PeerAddr {
    PeerAddr { ip: u128::from(u32::from_be_bytes([10, 0, 0, last])), v6: false, port }
}

#[test]
fn peer_buffers_keep_senders_apart() {
    let own = "me".to_string();
    let mut buffers = PeerBuffers::new();
    let a = peer(1, 4000);
    let b = peer(2, 4000);
    assert_eq!(buffers.receive(a, b"ali", &own, &UnsecureSigner), Received::Incomplete);
    assert_eq!(buffers.receive(b, b"bo", &own, &UnsecureSigner), Received::Incomplete);
    assert_eq!(buffers.pending_len(a), 3);
    assert_eq!(buffers.pending_len(b), 2);
    assert_eq!(buffers.receive(b, b"b\r\n", &own, &UnsecureSigner), Received::Announced("bob".to_string()));
    assert_eq!(buffers.pending_len(b), 0);
    assert_eq!(buffers.receive(a, b"ce\r\n", &own, &UnsecureSigner), Received::Announced("alice".to_string()));
    assert_eq!(buffers.pending_len(a), 0);
}

#[test]
fn peer_buffers_same_ip_other_port_is_another_sender() {
    let own = "me".to_string();
    let mut buffers = PeerBuffers::new();
    assert_eq!(buffers.receive(peer(1, 1), b"x", &own, &UnsecureSigner), Received::Incomplete);
    assert_eq!(buffers.pending_len(peer(1, 2)), 0);
    assert_eq!(buffers.pending_len(peer(1, 1)), 1);
}

#[test]
fn peer_buffers_drop_bytes_after_a_complete_frame() {
    let own = "me".to_string();
    let mut buffers = PeerBuffers::new();
    let a = peer(7, 9);
    let r = buffers.receive(a, b"one\r\ntw", &own, &UnsecureSigner);
    assert_eq!(r, Received::Announced("one".to_string()));
    assert_eq!(buffers.pending_len(a), 0);
}

#[test]
fn peer_buffers_skip_own_name_and_rejects() {
    let own = "me".to_string();
    let signer = HmacSigner::new(b"k".to_vec());
    let mut buffers = PeerBuffers::new();
    let data = announcement(&signer, "me");
    assert_eq!(buffers.receive(peer(3, 3), &data, &own, &signer), Received::OwnName);
    assert_eq!(
        buffers.receive(peer(3, 3), b"short\r\n", &own, &signer),
        Received::Rejected(ReceiveError::Auth(AuthError::TooShort))
    );
    assert_eq!(buffers.pending_len(peer(3, 3)), 0);
}
