use ws_stream::error::Error;
use ws_stream::frame::{FrameHead, OpCode};
use ws_stream::write::{WritePlan, WriteState};

/// Drives `state` until `payload` has been accepted in full, with a sink
/// that takes at most `limit` bytes per write and a scratch buffer of
/// `room` bytes. Returns what went on the wire and the number of writes.
fn send(
    state: &mut WriteState,
    mask: Option<[u8; 4]>,
    opcode: OpCode,
    fin: bool,
    payload: &[u8],
    limit: usize,
    room: usize,
) -> (Vec<u8>, usize) {
    let mut wire = Vec::new();
    let mut writes = 0;
    let mut done = 0;
    let mut scratch = vec![0u8; room];
    while done < payload.len() {
        let rest = &payload[done..];
        match state.prepare(mask, opcode, fin, rest.len()) {
            WritePlan::Return(r) => panic!("unexpected {:?}", r),
            WritePlan::Staged => {
                let bytes = state.staged();
                let n = bytes.len().min(limit);
                wire.extend_from_slice(&bytes[..n]);
                state.commit_staged(n);
            }
            WritePlan::Plain(want) => {
                let n = want.min(limit);
                wire.extend_from_slice(&rest[..n]);
                done += state.commit_payload(n);
            }
            WritePlan::Masked(want) => {
                let k = state.mask_chunk(rest, &mut scratch);
                assert_eq!(k, want.min(room));
                let n = k.min(limit);
                wire.extend_from_slice(&scratch[..n]);
                done += state.commit_payload(n);
            }
        }
        writes += 1;
    }
    (wire, writes)
}

/// Flushes whatever is staged or waiting, without offering payload.
fn flush(state: &mut WriteState, mask: Option<[u8; 4]>, limit: usize) -> Vec<u8> {
    let mut wire = Vec::new();
    while let WritePlan::Staged = state.prepare(mask, OpCode::Binary, true, 0) {
        let bytes = state.staged();
        let n = bytes.len().min(limit);
        wire.extend_from_slice(&bytes[..n]);
        state.commit_staged(n);
    }
    wire
}

#[test]
fn a_fresh_state_stands_between_frames() {
    let mut state = WriteState::new();
    assert!(state.at_boundary());
    assert!(!state.is_closed());
    assert_eq!(state.remaining(), 0);
    assert_eq!(state.staged(), &[] as &[u8]);
    // an empty offer starts no frame
    assert_eq!(state.prepare(None, OpCode::Binary, true, 0), WritePlan::Return(Ok(0)));
    assert!(state.at_boundary());
}

#[test]
fn an_unmasked_frame_is_head_and_payload() {
    let payload: Vec<u8> = (0..200u8).collect();
    for limit in [1usize, 2, 3, 50, 1000] {
        let mut state = WriteState::new();
        let (wire, writes) = send(&mut state, None, OpCode::Binary, true, &payload, limit, 16);
        assert_eq!(&wire[..4], &[0x82, 0x7e, 0x00, 0xc8]);
        assert_eq!(&wire[4..], &payload[..]);
        assert!(writes >= 2);
        assert!(writes <= 204);
        assert!(state.at_boundary());
    }
}

#[test]
fn a_masked_frame_differs_by_its_key_only() {
    let key = [0x11, 0x22, 0x33, 0x44];
    let payload: Vec<u8> = (0..300u32).map(|i| (i * 13) as u8).collect();
    let before = payload.clone();
    for limit in [1usize, 3, 4, 5, 37, 1000] {
        for room in [1usize, 3, 4, 7, 64, 512] {
            let mut state = WriteState::new();
            let (wire, _) = send(&mut state, Some(key), OpCode::Text, false, &payload, limit, room);
            assert_eq!(&wire[..8], &[0x01, 0xfe, 0x01, 0x2c, 0x11, 0x22, 0x33, 0x44]);
            assert_eq!(wire.len(), 8 + 300);
            for i in 0..300 {
                assert_eq!(wire[8 + i] ^ payload[i], key[i % 4]);
            }
            assert!(state.at_boundary());
        }
    }
    // the caller's bytes are as they were
    assert_eq!(payload, before);
}

#[test]
fn a_head_that_is_taken_bit_by_bit_accepts_no_payload() {
    let mut state = WriteState::new();
    let payload = [9u8; 70000];
    assert_eq!(state.prepare(Some([1, 2, 3, 4]), OpCode::Binary, true, 70000), WritePlan::Staged);
    assert_eq!(state.staged().len(), 14);
    assert_eq!(state.remaining(), 70000);
    assert!(!state.at_boundary());
    state.commit_staged(5);
    assert_eq!(state.staged(), &[0, 0, 0, 1, 0x11, 0x70, 1, 2, 3, 4][1..]);
    // the sink takes nothing: nothing changes
    assert_eq!(state.prepare(None, OpCode::Text, false, 70000), WritePlan::Staged);
    state.commit_staged(0);
    assert_eq!(state.staged().len(), 9);
    state.commit_staged(9);
    assert_eq!(state.staged().len(), 0);
    // a later call cannot change the frame that is under way
    assert_eq!(state.prepare(None, OpCode::Text, false, 70000), WritePlan::Masked(70000));
    assert_eq!(state.prepare(None, OpCode::Text, false, 10), WritePlan::Masked(10));
    assert_eq!(state.prepare(None, OpCode::Text, false, 0), WritePlan::Return(Ok(0)));
    let mut scratch = [0u8; 8];
    assert_eq!(state.mask_chunk(&payload, &mut scratch), 8);
    assert_eq!(scratch, [8, 11, 10, 13, 8, 11, 10, 13]);
    assert_eq!(state.commit_payload(3), 3);
    assert_eq!(state.remaining(), 69997);
    // the key goes on where it stopped
    assert_eq!(state.mask_chunk(&payload[3..], &mut scratch), 8);
    assert_eq!(scratch, [13, 8, 11, 10, 13, 8, 11, 10]);
}

#[test]
fn a_frame_has_the_length_of_the_first_offer() {
    let mut state = WriteState::new();
    assert_eq!(state.prepare(None, OpCode::Binary, true, 4), WritePlan::Staged);
    state.commit_staged(2);
    // more is offered than the frame holds: only the frame's rest is wanted
    assert_eq!(state.prepare(None, OpCode::Binary, true, 100), WritePlan::Plain(4));
    assert_eq!(state.commit_payload(4), 4);
    assert!(state.at_boundary());
    // the next offer starts the next frame
    assert_eq!(state.prepare(None, OpCode::Binary, true, 100), WritePlan::Staged);
    assert_eq!(state.staged(), &[0x82, 100]);
}

#[test]
fn a_pong_goes_first_at_the_boundary_and_never_inside_a_frame() {
    let mut state = WriteState::new();
    let payload = [0xabu8; 10];
    assert_eq!(state.prepare(None, OpCode::Binary, true, 10), WritePlan::Staged);
    state.commit_staged(1);
    state.queue_pong(b"echo");
    // the head goes on
    assert_eq!(state.prepare(None, OpCode::Binary, true, 10), WritePlan::Staged);
    assert_eq!(state.staged(), &[10]);
    state.commit_staged(1);
    // then the payload
    assert_eq!(state.prepare(None, OpCode::Binary, true, 10), WritePlan::Plain(10));
    assert_eq!(state.commit_payload(6), 6);
    assert_eq!(state.prepare(None, OpCode::Binary, true, 4), WritePlan::Plain(4));
    assert_eq!(state.commit_payload(4), 4);
    assert!(state.at_boundary());
    // now the pong, ahead of the caller's next frame
    assert_eq!(state.prepare(None, OpCode::Binary, true, payload.len()), WritePlan::Staged);
    assert_eq!(state.staged(), &[0x8a, 4, b'e', b'c', b'h', b'o']);
    assert_eq!(state.commit_staged(6), ());
    assert!(state.at_boundary());
    assert_eq!(state.prepare(None, OpCode::Binary, true, payload.len()), WritePlan::Staged);
    assert_eq!(state.staged(), &[0x82, 10]);
}

#[test]
fn only_the_latest_ping_is_answered() {
    let mut state = WriteState::new();
    state.queue_pong(b"first");
    state.queue_pong(b"second");
    let wire = flush(&mut state, None, 3);
    assert_eq!(wire, [&[0x8a, 6][..], b"second"].concat());
    assert_eq!(flush(&mut state, None, 3), Vec::<u8>::new());
}

#[test]
fn control_frames_of_a_client_are_masked() {
    let key = [0x37, 0xfa, 0x21, 0x3d];
    let mut state = WriteState::new();
    state.queue_pong(b"Hello");
    let wire = flush(&mut state, Some(key), 4);
    assert_eq!(wire, vec![0x8a, 0x85, 0x37, 0xfa, 0x21, 0x3d, 0x7f, 0x9f, 0x4d, 0x51, 0x58]);
    // the longest control frame there is
    state.queue_pong(&[0u8; 125]);
    let wire = flush(&mut state, Some(key), 1000);
    assert_eq!(wire.len(), 131);
    assert_eq!(&wire[..6], &[0x8a, 0xfd, 0x37, 0xfa, 0x21, 0x3d]);
    assert_eq!(&wire[6..10], &key);
}

#[test]
fn pong_then_ping_then_close() {
    let mut state = WriteState::new();
    assert!(state.queue_close(&[0x03, 0xe8]));
    assert!(state.queue_ping());
    state.queue_pong(b"p");
    // a second close frame is not taken
    assert!(!state.queue_close(b"again"));
    let wire = flush(&mut state, None, 2);
    assert_eq!(wire, vec![0x8a, 1, b'p', 0x89, 0, 0x88, 2, 0x03, 0xe8]);
    assert!(state.is_closed());
}

#[test]
fn after_a_close_frame_nothing_goes_out() {
    let mut state = WriteState::new();
    assert!(state.queue_close(b""));
    assert_eq!(state.prepare(None, OpCode::Binary, true, 5), WritePlan::Staged);
    assert_eq!(state.staged(), &[0x88, 0]);
    state.commit_staged(1);
    assert!(!state.is_closed());
    // going out already: no other close frame
    assert!(!state.queue_close(b"x"));
    state.commit_staged(1);
    assert!(state.is_closed());
    assert_eq!(state.prepare(None, OpCode::Binary, true, 5), WritePlan::Return(Err(Error::Closed)));
    assert_eq!(state.prepare(None, OpCode::Binary, true, 0), WritePlan::Return(Err(Error::Closed)));
    assert!(!state.queue_ping());
    assert!(!state.queue_close(b"x"));
    state.queue_pong(b"late");
    assert_eq!(state.prepare(None, OpCode::Binary, true, 5), WritePlan::Return(Err(Error::Closed)));
    assert_eq!(state.staged(), &[] as &[u8]);
}

#[test]
fn what_was_written_decodes_to_the_head_it_was_written_with() {
    let mut state = WriteState::new();
    let key = [5, 6, 7, 8];
    let payload = vec![1u8; 65536];
    let (wire, _) = send(&mut state, Some(key), OpCode::Binary, false, &payload, 4096, 4096);
    let (head, n) = FrameHead::decode(&wire).unwrap().unwrap();
    assert_eq!(n, 14);
    assert_eq!(head, FrameHead::new(false, OpCode::Binary, Some(key), 65536));
    assert_eq!(wire.len(), 14 + 65536);
}
