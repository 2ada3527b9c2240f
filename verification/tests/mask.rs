use ws_stream::mask::{advance, mask_in_place, mask_into};
use ws_stream::role::{Client, RoleHelper, Server};

const KEY: [u8; 4] = [0x37, 0xfa, 0x21, 0x3d];

#[test]
fn masks_the_textbook_example() {
    // "Hello" under this key, as in the protocol's own document
    let mut buf = *b"Hello";
    let next = mask_in_place(&mut buf, 5, KEY, 0);
    assert_eq!(buf, [0x7f, 0x9f, 0x4d, 0x51, 0x58]);
    assert_eq!(next, 1);
}

#[test]
fn masking_twice_gives_the_data_back() {
    let plain: Vec<u8> = (0..=255u8).collect();
    for cursor in 0..4u8 {
        let mut buf = plain.clone();
        mask_in_place(&mut buf, plain.len(), KEY, cursor);
        assert_ne!(buf, plain);
        for (i, byte) in buf.iter().enumerate() {
            assert_eq!(byte ^ plain[i], KEY[(cursor as usize + i) % 4]);
        }
        mask_in_place(&mut buf, plain.len(), KEY, cursor);
        assert_eq!(buf, plain);
    }
}

#[test]
fn masking_in_pieces_is_masking_the_whole() {
    let plain: Vec<u8> = (0..100u8).map(|i| i.wrapping_mul(37)).collect();
    let mut whole = plain.clone();
    mask_in_place(&mut whole, 100, KEY, 0);
    for cut in 0..=100usize {
        let mut first = plain[..cut].to_vec();
        let mut second = plain[cut..].to_vec();
        let cursor = mask_in_place(&mut first, cut, KEY, 0);
        assert_eq!(cursor as usize, cut % 4);
        let end = mask_in_place(&mut second, 100 - cut, KEY, cursor);
        assert_eq!(end, 0);
        first.extend_from_slice(&second);
        assert_eq!(first, whole);
    }
}

#[test]
fn only_the_first_bytes_are_touched() {
    let mut buf = [1u8, 2, 3, 4, 5, 6];
    let next = mask_in_place(&mut buf, 2, [0xff, 0x0f, 0, 0], 0);
    assert_eq!(buf, [0xfe, 0x0d, 3, 4, 5, 6]);
    assert_eq!(next, 2);
    let next = mask_in_place(&mut buf, 0, [0xff, 0x0f, 0, 0], 3);
    assert_eq!(buf, [0xfe, 0x0d, 3, 4, 5, 6]);
    assert_eq!(next, 3);
}

#[test]
fn mask_into_leaves_the_source_alone() {
    let src = *b"Hello";
    let mut dst = [0xeeu8; 9];
    let next = mask_into(&src, &mut dst, 2, KEY, 0);
    assert_eq!(src, *b"Hello");
    assert_eq!(dst, [0xee, 0xee, 0x7f, 0x9f, 0x4d, 0x51, 0x58, 0xee, 0xee]);
    assert_eq!(next, 1);
    // starting in the middle of the key
    let mut dst = [0u8; 3];
    let next = mask_into(&[0, 0, 0], &mut dst, 0, KEY, 2);
    assert_eq!(dst, [0x21, 0x3d, 0x37]);
    assert_eq!(next, 1);
}

#[test]
fn advance_counts_modulo_four() {
    assert_eq!(advance(0, 0), 0);
    assert_eq!(advance(0, 5), 1);
    assert_eq!(advance(3, 1), 0);
    assert_eq!(advance(2, 7), 1);
    assert_eq!(advance(3, usize::MAX), 2);
}

#[test]
fn roles_mask_what_they_send_or_not() {
    assert!(Client::wants_mask_outgoing());
    assert!(!Client::requires_mask_incoming());
    assert!(!Server::wants_mask_outgoing());
    assert!(Server::requires_mask_incoming());
    assert!(Client::new_write_mask().is_some());
    assert!(Server::new_write_mask().is_none());
}
