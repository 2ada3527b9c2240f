use ws_stream::frame::{head_len, put_bytes, FrameHead, OpCode, ProtocolError};

fn encoded(head: &FrameHead) -> Vec<u8> {
    let mut out = vec![0u8; 14];
    let n = head.encode(&mut out).unwrap();
    assert_eq!(n, head.encoded_len());
    out.truncate(n);
    out
}

#[test]
fn opcode_bits_go_both_ways() {
    let all = [
        (OpCode::Continue, 0u8),
        (OpCode::Text, 1),
        (OpCode::Binary, 2),
        (OpCode::Close, 8),
        (OpCode::Ping, 9),
        (OpCode::Pong, 10),
    ];
    for (opcode, bits) in all {
        assert_eq!(opcode.to_u8(), bits);
        assert_eq!(OpCode::from_u8(bits), Some(opcode));
    }
    for bits in [3u8, 4, 5, 6, 7, 11, 12, 13, 14, 15, 16, 255] {
        assert_eq!(OpCode::from_u8(bits), None);
    }
    assert!(OpCode::Close.is_control());
    assert!(OpCode::Ping.is_control());
    assert!(OpCode::Pong.is_control());
    assert!(!OpCode::Continue.is_control());
    assert!(!OpCode::Text.is_control());
    assert!(!OpCode::Binary.is_control());
}

#[test]
fn encode_writes_the_known_bytes() {
    let head = FrameHead::new(true, OpCode::Binary, None, 300);
    assert_eq!(encoded(&head), vec![0x82, 0x7e, 0x01, 0x2c]);

    let head = FrameHead::new(true, OpCode::Text, Some([0x37, 0xfa, 0x21, 0x3d]), 5);
    assert_eq!(encoded(&head), vec![0x81, 0x85, 0x37, 0xfa, 0x21, 0x3d]);

    let head = FrameHead::new(false, OpCode::Continue, None, 0);
    assert_eq!(encoded(&head), vec![0x00, 0x00]);

    let head = FrameHead::new(true, OpCode::Binary, None, 0x0102_0304_0506_0708);
    assert_eq!(encoded(&head), vec![0x82, 0x7f, 1, 2, 3, 4, 5, 6, 7, 8]);

    let head = FrameHead::new(true, OpCode::Ping, Some([9, 8, 7, 6]), 125);
    assert_eq!(encoded(&head), vec![0x89, 0xfd, 9, 8, 7, 6]);
}

#[test]
fn lengths_on_both_sides_of_each_limit_survive() {
    let cases: [(u64, usize); 8] = [
        (0, 2),
        (1, 2),
        (125, 2),
        (126, 4),
        (65535, 4),
        (65536, 10),
        (1 << 32, 10),
        (u64::MAX, 10),
    ];
    for (length, plain_len) in cases {
        for mask in [None, Some([0xde, 0xad, 0xbe, 0xef])] {
            for fin in [false, true] {
                let head = FrameHead::new(fin, OpCode::Binary, mask, length);
                let wire = encoded(&head);
                let expected = plain_len + if mask.is_some() { 4 } else { 0 };
                assert_eq!(wire.len(), expected);
                assert_eq!(head_len(wire[1]), expected);
                assert_eq!(FrameHead::decode(&wire), Ok(Some((head, expected))));
                // what follows the head is not looked at
                let mut longer = wire.clone();
                longer.extend_from_slice(&[0xff; 20]);
                assert_eq!(FrameHead::decode(&longer), Ok(Some((head, expected))));
                // every proper prefix asks for more
                for cut in 0..wire.len() {
                    assert_eq!(FrameHead::decode(&wire[..cut]), Ok(None));
                }
            }
        }
    }
}

#[test]
fn encode_needs_room() {
    let head = FrameHead::new(true, OpCode::Binary, Some([1, 2, 3, 4]), 70000);
    assert_eq!(head.encoded_len(), 14);
    let mut small = [0xaau8; 13];
    assert_eq!(head.encode(&mut small), None);
    assert_eq!(small, [0xaau8; 13]);
    let mut large = [0xaau8; 16];
    assert_eq!(head.encode(&mut large), Some(14));
    assert_eq!(&large[..4], &[0x82, 0xff, 0, 0]);
    assert_eq!(&large[4..10], &[0, 0, 0, 1, 0x11, 0x70]);
    assert_eq!(&large[10..14], &[1, 2, 3, 4]);
    assert_eq!(&large[14..], &[0xaa, 0xaa]);
    let mut empty: [u8; 0] = [];
    assert_eq!(FrameHead::new(true, OpCode::Text, None, 0).encode(&mut empty), None);
}

#[test]
fn decode_refuses_reserved_bits() {
    for first in [0x90u8, 0xa0, 0xc0, 0x12, 0x40, 0xf1] {
        assert_eq!(FrameHead::decode(&[first, 0]), Err(ProtocolError::ReservedBits));
    }
    // one byte alone decides nothing
    assert_eq!(FrameHead::decode(&[0x90]), Ok(None));
}

#[test]
fn decode_refuses_reserved_opcodes() {
    for opcode in [3u8, 4, 5, 6, 7, 11, 12, 13, 14, 15] {
        assert_eq!(FrameHead::decode(&[0x80 | opcode, 0]), Err(ProtocolError::ReservedOpCode));
        assert_eq!(FrameHead::decode(&[opcode, 0x85]), Err(ProtocolError::ReservedOpCode));
    }
}

#[test]
fn decode_refuses_lengths_in_a_longer_form_than_needed() {
    assert_eq!(FrameHead::decode(&[0x82, 126, 0, 125]), Err(ProtocolError::LengthEncoding));
    assert_eq!(FrameHead::decode(&[0x82, 126, 0, 0]), Err(ProtocolError::LengthEncoding));
    assert_eq!(
        FrameHead::decode(&[0x82, 127, 0, 0, 0, 0, 0, 0, 0xff, 0xff]),
        Err(ProtocolError::LengthEncoding)
    );
    assert_eq!(
        FrameHead::decode(&[0x82, 127, 0, 0, 0, 0, 0, 0, 0, 0]),
        Err(ProtocolError::LengthEncoding)
    );
    // the shortest form that fits is accepted
    assert_eq!(
        FrameHead::decode(&[0x82, 126, 0, 126]),
        Ok(Some((FrameHead::new(true, OpCode::Binary, None, 126), 4)))
    );
    assert_eq!(
        FrameHead::decode(&[0x82, 127, 0, 0, 0, 0, 0, 1, 0, 0]),
        Ok(Some((FrameHead::new(true, OpCode::Binary, None, 65536), 10)))
    );
    // nothing is decided before the length has arrived
    assert_eq!(FrameHead::decode(&[0x82, 126, 0]), Ok(None));
}

#[test]
fn decode_refuses_long_control_frames() {
    assert_eq!(FrameHead::decode(&[0x89, 126, 0, 126]), Err(ProtocolError::ControlTooLong));
    assert_eq!(FrameHead::decode(&[0x88, 126, 1, 0]), Err(ProtocolError::ControlTooLong));
    assert_eq!(
        FrameHead::decode(&[0x8a, 127, 0, 0, 0, 0, 0, 1, 0, 0]),
        Err(ProtocolError::ControlTooLong)
    );
    assert_eq!(
        FrameHead::decode(&[0x89, 125]),
        Ok(Some((FrameHead::new(true, OpCode::Ping, None, 125), 2)))
    );
}

#[test]
fn put_bytes_overwrites_a_stretch() {
    let mut out = [0u8, 1, 2, 3, 4, 5, 6, 7];
    put_bytes(&mut out, 2, &[9, 9, 9]);
    assert_eq!(out, [0, 1, 9, 9, 9, 5, 6, 7]);
    put_bytes(&mut out, 8, &[]);
    assert_eq!(out, [0, 1, 9, 9, 9, 5, 6, 7]);
    put_bytes(&mut out, 0, &[7, 6, 5, 4, 3, 2, 1, 0]);
    assert_eq!(out, [7, 6, 5, 4, 3, 2, 1, 0]);
}
