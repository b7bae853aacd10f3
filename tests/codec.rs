use raft_server::{decode_frames, decode_preamble, encode_frame, encode_preamble, Preamble};

#[test]
fn frame_has_length_prefix() {
    assert_eq!(encode_frame(&vec![7, 8]), vec![2, 0, 0, 0, 7, 8]);
    assert_eq!(encode_frame(&vec![]), vec![0, 0, 0, 0]);
}

#[test]
fn frames_decode_with_remainder() {
    let mut bytes = encode_frame(&vec![1]);
    bytes.extend_from_slice(&encode_frame(&vec![2, 3]));
    bytes.extend_from_slice(&[5, 0, 0]);
    let (frames, rest) = decode_frames(&bytes).unwrap();
    assert_eq!(frames, vec![vec![1u8], vec![2u8, 3]]);
    assert_eq!(rest, vec![5u8, 0, 0]);
}

#[test]
fn oversized_frame_is_malformed() {
    assert!(decode_frames(&vec![0, 0, 0, 2, 1]).is_none());
    assert!(decode_frames(&b"foo bar baz".to_vec()).is_none());
}

#[test]
fn server_preamble_round_trip() {
    let p = Preamble::Server { id: 0x0102_0304_0506_0708, addr: b"10.1.2.3:4567".to_vec() };
    let bytes = encode_preamble(&p);
    assert_eq!(&bytes[..9], &[0, 8, 7, 6, 5, 4, 3, 2, 1]);
    match decode_preamble(&bytes) {
        Some(Preamble::Server { id, addr }) => {
            assert_eq!(id, 0x0102_0304_0506_0708);
            assert_eq!(addr, b"10.1.2.3:4567".to_vec());
        }
        other => panic!("unexpected: {:?}", other),
    }
}

#[test]
fn client_preamble_round_trip() {
    let id: u128 = (1u128 << 127) | 0xabcd;
    let bytes = encode_preamble(&Preamble::Client { id });
    assert_eq!(bytes.len(), 17);
    assert_eq!(bytes[0], 1);
    assert_eq!(bytes[1], 0xcd);
    assert_eq!(bytes[16], 0x80);
    match decode_preamble(&bytes) {
        Some(Preamble::Client { id: got }) => assert_eq!(got, id),
        other => panic!("unexpected: {:?}", other),
    }
}

#[test]
fn other_payloads_are_no_preamble() {
    assert!(decode_preamble(&vec![]).is_none());
    assert!(decode_preamble(&vec![2, 0, 0]).is_none());
    assert!(decode_preamble(&vec![1, 0, 0]).is_none());
    assert!(decode_preamble(&vec![0, 1, 2]).is_none());
}
