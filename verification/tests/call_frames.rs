//! Framing and parsing of quorum coordination messages.

use loon::call::{pid_decode, pid_encode, Call, CallTy, Pid};

#[test]
fn pid_two_digit_encoding() {
    assert_eq!(pid_encode(Pid(2)), b"02".to_vec());
    assert_eq!(pid_encode(Pid(42)), b"42".to_vec());
    assert_eq!(Pid(7).as_u32(), 7);
}

#[test]
fn pid_decode_inverts_encode() {
    for p in [0u32, 1, 9, 10, 55, 99] {
        let d = pid_encode(Pid(p));
        assert_eq!(pid_decode(d[0], d[1]), Some(p));
    }
    assert_eq!(pid_decode(b'a', b'1'), None);
}

#[test]
fn call_type_ids() {
    assert_eq!(CallTy::Nack.id(), 0);
    assert_eq!(CallTy::Ack.id(), 1);
    assert_eq!(CallTy::Note(b"hello".to_vec()).id(), 2);
}

#[test]
fn frame_round_trip() {
    let fp = b"abcd1234".to_vec();
    let call = Call::build(&fp, Pid(2), &b"1".to_vec());
    assert_eq!(call.bytes, b"loon1abcd1234021".to_vec());
    let (pid, payload) = Call::parse(&call.bytes, &fp).unwrap();
    assert_eq!(pid, Pid(2));
    assert_eq!(payload, b"1".to_vec());
}

#[test]
fn parse_rejects_foreign_messages() {
    let fp = b"abcd1234".to_vec();
    // Too short.
    assert!(Call::parse(&b"loon1".to_vec(), &fp).is_none());
    // Wrong prefix.
    assert!(Call::parse(&b"noot1abcd1234021".to_vec(), &fp).is_none());
    // Another quorum's fingerprint.
    assert!(Call::parse(&b"loon1zzzz9999021".to_vec(), &fp).is_none());
    // Malformed participant digits.
    assert!(Call::parse(&b"loon1abcd1234xy1".to_vec(), &fp).is_none());
}

#[test]
fn parse_accepts_longer_payloads() {
    let fp = b"ffff0000".to_vec();
    let call = Call::build(&fp, Pid(13), &b"meet at noon".to_vec());
    let (pid, payload) = Call::parse(&call.bytes, &fp).unwrap();
    assert_eq!(pid.as_u32(), 13);
    assert_eq!(payload, b"meet at noon".to_vec());
}
