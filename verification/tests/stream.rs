use std::io::{Read, Result, Write};
use std::mem::size_of;

use ws_stream::error::Error;
use ws_stream::frame::{FrameHead, OpCode, ProtocolError};
use ws_stream::heartbeat::HeartBeat;
use ws_stream::read::{ReadPlan, ReadState};
use ws_stream::role::{Client, RoleHelper, Server};
use ws_stream::stream::Stream;
use ws_stream::write::{WritePlan, WriteState};

/// An I/O handle over a byte vector that takes and gives a limited number
/// of bytes per operation, and counts its operations.
pub struct LimitReadWriter {
    pub buf: Vec<u8>,
    pub rlimit: usize,
    pub wlimit: usize,
    pub cursor: usize,
    pub ops: usize,
}

impl LimitReadWriter {
    fn new(rlimit: usize, wlimit: usize) -> Self {
        LimitReadWriter { buf: Vec::new(), rlimit, wlimit, cursor: 0, ops: 0 }
    }
}

impl Read for LimitReadWriter {
    fn read(&mut self, mut buf: &mut [u8]) -> Result<usize> {
        self.ops += 1;
        let to_read = std::cmp::min(buf.len(), self.rlimit);
        let left_data = self.buf.len() - self.cursor;
        if left_data == 0 {
            return Ok(0);
        }
        if left_data <= to_read {
            buf.write(&self.buf[self.cursor..]).unwrap();
            self.cursor = self.buf.len();
            return Ok(left_data);
        }

        buf.write(&self.buf[self.cursor..self.cursor + to_read]).unwrap();
        self.cursor += to_read;
        Ok(to_read)
    }
}

impl Write for LimitReadWriter {
    fn write(&mut self, buf: &[u8]) -> Result<usize> {
        self.ops += 1;
        let len = std::cmp::min(buf.len(), self.wlimit);
        self.buf.write(&buf[..len])
    }

    fn flush(&mut self) -> Result<()> {
        Ok(())
    }
}

/// One read of the application: at most one read on the handle.
fn stream_read<R: RoleHelper>(
    stream: &mut Stream<LimitReadWriter, R>,
    buf: &mut [u8],
) -> std::result::Result<usize, Error> {
    match stream.read_plan(buf.len()) {
        ReadPlan::Return(r) => r,
        ReadPlan::Fill(want) => {
            let mut scratch = [0u8; 125];
            let n = stream.as_mut().read(&mut scratch[..want]).unwrap();
            assert!(n <= want);
            stream.read_scratch(&scratch[..n])
        }
        ReadPlan::Payload(want) => {
            let n = stream.as_mut().read(&mut buf[..want]).unwrap();
            assert!(n <= want);
            Ok(stream.read_payload(buf, n))
        }
    }
}

/// One write of the application: at most one write on the handle.
fn stream_write_frame<R: RoleHelper>(
    stream: &mut Stream<LimitReadWriter, R>,
    opcode: OpCode,
    fin: bool,
    payload: &[u8],
) -> std::result::Result<usize, Error> {
    match stream.write_prepare(opcode, fin, payload.len()) {
        WritePlan::Return(r) => r,
        WritePlan::Staged => {
            let (io, bytes) = stream.write_staged_io();
            let n = io.write(bytes).unwrap();
            Ok(stream.write_commit_staged(n))
        }
        WritePlan::Plain(want) => {
            let n = stream.as_mut().write(&payload[..want]).unwrap();
            Ok(stream.write_commit_payload(n))
        }
        WritePlan::Masked(_) => {
            let mut scratch = [0u8; 64];
            let k = stream.write_mask_chunk(payload, &mut scratch);
            let n = stream.as_mut().write(&scratch[..k]).unwrap();
            Ok(stream.write_commit_payload(n))
        }
    }
}

fn stream_write<R: RoleHelper>(
    stream: &mut Stream<LimitReadWriter, R>,
    payload: &[u8],
) -> std::result::Result<usize, Error> {
    stream_write_frame(stream, OpCode::Binary, true, payload)
}

/// Moves what the writer has put on the wire to the reader's end of it.
/// The writer has read all that had reached it before.
fn deliver<W, R>(writer: &mut Stream<LimitReadWriter, W>, reader: &mut Stream<LimitReadWriter, R>) {
    let read = writer.as_ref().cursor;
    let mut sent = writer.as_mut().buf.split_off(read);
    reader.as_mut().buf.append(&mut sent);
}

#[test]
fn read_write_stream() {
    fn read_write<W: RoleHelper, R: RoleHelper>(rlimit: usize, wlimit: usize, len: usize) {
        // data written to a client stream is read as a server stream, and
        // the reverse: a stream refuses frames of its own role.
        let mut writer = Stream::<_, W>::new(LimitReadWriter::new(rlimit, wlimit));
        let mut reader = Stream::<_, R>::new(LimitReadWriter::new(rlimit, wlimit));

        let data: Vec<u8> = std::iter::repeat(rand::random::<u8>()).take(len).collect();
        let mut data2: Vec<u8> = Vec::new();

        let mut buf = vec![0; 0x2000];
        let mut to_write = data.len();

        while to_write > 0 {
            let wbeg = data.len() - to_write;
            let n = loop {
                let x = stream_write(&mut writer, &data[wbeg..]).unwrap();
                if x != 0 {
                    break x;
                }
            };
            deliver(&mut writer, &mut reader);

            let mut tmp: Vec<u8> = Vec::new();
            loop {
                // avoid read EOF here
                if reader.as_ref().cursor == reader.as_ref().buf.len() {
                    break;
                }
                let n = stream_read(&mut reader, &mut buf).unwrap();
                tmp.write(&buf[..n]).unwrap();
            }

            assert_eq!(tmp.len(), n);
            assert_eq!(&data[wbeg..wbeg + n], &tmp);

            to_write -= n;
            data2.append(&mut tmp);
        }

        assert_eq!(&data, &data2);
    }

    for limit in 1..512 {
        for len in 1..=256 {
            read_write::<Client, Server>(limit, 512 - limit, len);
            read_write::<Server, Client>(limit, 512 - limit, len);
        }
    }
}

#[test]
fn binary_message_of_300_bytes_through_small_limits() {
    let mut writer = Stream::<_, Client>::new(LimitReadWriter::new(19, 37));
    let mut reader = Stream::<_, Server>::new(LimitReadWriter::new(19, 37));
    let data = [0x41u8; 300];
    let mut sent = 0;
    while sent < data.len() {
        sent += stream_write(&mut writer, &data[sent..]).unwrap();
    }
    deliver(&mut writer, &mut reader);
    // head: 2 bytes, 2 of extended length, 4 of key
    assert_eq!(reader.as_ref().buf.len(), 8 + 300);
    assert_ne!(&reader.as_ref().buf[8..], &data[..]);

    let mut got: Vec<u8> = Vec::new();
    let mut buf = [0u8; 1024];
    while reader.as_ref().cursor < reader.as_ref().buf.len() {
        let before = reader.as_ref().ops;
        let n = stream_read(&mut reader, &mut buf).unwrap();
        assert!(reader.as_ref().ops - before <= 1);
        assert!(n <= 19);
        got.extend_from_slice(&buf[..n]);
    }
    assert_eq!(got, data.to_vec());
    assert_eq!(reader.last_frame(), Some((OpCode::Binary, true)));
    assert!(!reader.is_read_end());
    assert!(!reader.is_read_closed());
}

#[test]
fn server_refuses_unmasked_frame() {
    let mut reader = Stream::<_, Server>::new(LimitReadWriter::new(64, 64));
    let head = FrameHead::new(true, OpCode::Binary, None, 3);
    let mut wire = vec![0u8; 14];
    let n = head.encode(&mut wire).unwrap();
    wire.truncate(n);
    wire.extend_from_slice(&[1, 2, 3]);
    reader.as_mut().buf = wire;
    let mut buf = [0u8; 16];
    assert_eq!(
        stream_read(&mut reader, &mut buf),
        Err(Error::Protocol(ProtocolError::MaskMismatch))
    );
    // the direction stays unusable, and no further I/O is attempted
    let ops = reader.as_ref().ops;
    assert_eq!(
        stream_read(&mut reader, &mut buf),
        Err(Error::Protocol(ProtocolError::MaskMismatch))
    );
    assert_eq!(reader.as_ref().ops, ops);
    assert_eq!(buf, [0u8; 16]);
}

/// Writes until all of `data` has been accepted.
fn write_all<R: RoleHelper>(stream: &mut Stream<LimitReadWriter, R>, data: &[u8]) {
    let mut sent = 0;
    while sent < data.len() {
        let before = stream.as_ref().ops;
        sent += stream_write(stream, &data[sent..]).unwrap();
        assert!(stream.as_ref().ops - before <= 1);
    }
}

/// Reads until the source has nothing left, and returns what came.
fn read_all<R: RoleHelper>(stream: &mut Stream<LimitReadWriter, R>, buf_len: usize) -> Vec<u8> {
    let mut got = Vec::new();
    let mut buf = vec![0u8; buf_len];
    while stream.as_ref().cursor < stream.as_ref().buf.len() {
        let before = stream.as_ref().ops;
        let n = stream_read(stream, &mut buf).unwrap();
        assert!(stream.as_ref().ops - before <= 1);
        got.extend_from_slice(&buf[..n]);
    }
    got
}

/// Lets whatever is staged or waiting go out, without offering payload.
fn flush<R: RoleHelper>(stream: &mut Stream<LimitReadWriter, R>) {
    while let WritePlan::Staged = stream.write_prepare(OpCode::Binary, true, 0) {
        let (io, bytes) = stream.write_staged_io();
        let n = io.write(bytes).unwrap();
        assert_eq!(stream.write_commit_staged(n), 0);
    }
}

#[test]
fn round_trip_under_every_pair_of_small_limits() {
    for len in [1usize, 2, 125, 126, 127, 300] {
        let data: Vec<u8> = (0..len).map(|i| (i * 31 + len) as u8).collect();
        for wlimit in 1..=17 {
            for rlimit in 1..=17 {
                let mut client = Stream::<_, Client>::new(LimitReadWriter::new(rlimit, wlimit));
                let mut server = Stream::<_, Server>::new(LimitReadWriter::new(rlimit, wlimit));
                write_all(&mut client, &data);
                deliver(&mut client, &mut server);
                assert_eq!(read_all(&mut server, 64), data);
                assert_eq!(server.last_frame(), Some((OpCode::Binary, true)));
                // and the other way round
                write_all(&mut server, &data);
                deliver(&mut server, &mut client);
                assert_eq!(read_all(&mut client, 3), data);
                assert_eq!(client.last_frame(), Some((OpCode::Binary, true)));
            }
        }
    }
}

#[test]
fn round_trip_at_the_limits_between_the_length_forms() {
    for len in [125usize, 126, 65535, 65536] {
        let data: Vec<u8> = (0..len).map(|i| (i % 251) as u8).collect();
        let mut client = Stream::<_, Client>::new(LimitReadWriter::new(4096, 4096));
        let mut server = Stream::<_, Server>::new(LimitReadWriter::new(1000, 4096));
        write_all(&mut client, &data);
        let head_len = match len {
            125 => 2,
            126 | 65535 => 4,
            _ => 10,
        };
        assert_eq!(client.as_ref().buf.len(), head_len + 4 + len);
        deliver(&mut client, &mut server);
        assert_eq!(read_all(&mut server, 8192), data);
    }
}

#[test]
fn an_empty_write_puts_nothing_on_the_wire() {
    let mut client = Stream::<_, Client>::new(LimitReadWriter::new(8, 8));
    assert_eq!(stream_write(&mut client, &[]), Ok(0));
    assert!(client.as_ref().buf.is_empty());
    assert_eq!(client.as_ref().ops, 0);
}

#[test]
fn an_empty_buffer_reads_nothing_and_causes_no_io() {
    let mut server = Stream::<_, Server>::new(LimitReadWriter::new(8, 8));
    server.as_mut().buf = vec![0x82, 0x81, 1, 2, 3, 4, 0xff];
    let mut none: [u8; 0] = [];
    assert_eq!(stream_read(&mut server, &mut none), Ok(0));
    assert_eq!(server.as_ref().ops, 0);
    assert_eq!(server.as_ref().cursor, 0);
    assert!(!server.is_read_end());
}

#[test]
fn the_end_of_the_source_is_told_apart_from_a_pause() {
    let mut server = Stream::<_, Server>::new(LimitReadWriter::new(8, 8));
    server.as_mut().buf = vec![0x82, 0x82, 0, 0, 0, 0, b'h'];
    let mut buf = [0u8; 8];
    // two reads for the head: neither brings payload, neither is the end
    assert_eq!(stream_read(&mut server, &mut buf), Ok(0));
    assert!(!server.is_read_end());
    assert_eq!(stream_read(&mut server, &mut buf), Ok(0));
    assert!(!server.is_read_end());
    assert_eq!(stream_read(&mut server, &mut buf), Ok(1));
    assert_eq!(buf[0], b'h');
    assert!(!server.is_read_end());
    // the source is exhausted in the middle of the frame
    assert_eq!(stream_read(&mut server, &mut buf), Ok(0));
    assert!(server.is_read_end());
    // more arrives: the frame goes on
    server.as_mut().buf.push(b'i');
    assert_eq!(stream_read(&mut server, &mut buf), Ok(1));
    assert_eq!(buf[0], b'i');
    assert!(!server.is_read_end());
}

#[test]
fn client_refuses_masked_frame() {
    let mut reader = Stream::<_, Client>::new(LimitReadWriter::new(3, 3));
    reader.as_mut().buf = vec![0x81, 0x85, 0x37, 0xfa, 0x21, 0x3d, 0x7f, 0x9f, 0x4d, 0x51, 0x58];
    let mut buf = [0u8; 16];
    assert_eq!(stream_read(&mut reader, &mut buf), Ok(0));
    assert_eq!(stream_read(&mut reader, &mut buf), Ok(0));
    assert_eq!(
        stream_read(&mut reader, &mut buf),
        Err(Error::Protocol(ProtocolError::MaskMismatch))
    );
    // nothing beyond the head was taken, and nothing was handed out
    assert_eq!(reader.as_ref().cursor, 6);
    assert_eq!(buf, [0u8; 16]);
    // writes go on: only the reading direction has failed
    write_all(&mut reader, b"still here");
    assert_eq!(reader.as_ref().buf.len(), 11 + 6 + 10);
}

#[test]
fn a_ping_is_answered_with_its_payload() {
    let mut client = Stream::<_, Client>::new(LimitReadWriter::new(5, 5));
    let mut server = Stream::<_, Server>::new(LimitReadWriter::new(5, 5));
    // a ping from the client, masked, by hand
    let head = FrameHead::new(true, OpCode::Ping, Some([1, 1, 1, 1]), 4);
    let mut wire = vec![0u8; 14];
    let n = head.encode(&mut wire).unwrap();
    wire.truncate(n);
    wire.extend_from_slice(&[b'p' ^ 1, b'i' ^ 1, b'n' ^ 1, b'g' ^ 1]);
    server.as_mut().buf = wire;
    assert_eq!(read_all(&mut server, 16), Vec::<u8>::new());
    assert_eq!(server.control_payload(), b"ping");
    // reading has written nothing
    assert_eq!(server.as_ref().buf.len(), 6 + 4);

    // the pong goes out ahead of the server's next frame
    server.as_mut().buf.clear();
    server.as_mut().cursor = 0;
    write_all(&mut server, b"data");
    assert_eq!(
        server.as_ref().buf,
        vec![0x8a, 4, b'p', b'i', b'n', b'g', 0x82, 4, b'd', b'a', b't', b'a']
    );

    // the client takes the pong for itself and hands on the data
    deliver(&mut server, &mut client);
    assert_eq!(read_all(&mut client, 16), b"data");
    assert_eq!(client.control_payload(), b"ping");
}

#[test]
fn the_heartbeat_runs_through_the_stream() {
    let mut client = Stream::<_, Client>::new(LimitReadWriter::new(64, 64));
    let mut server = Stream::<_, Server>::new(LimitReadWriter::new(64, 64));
    // no timing set: nothing is ever due
    assert!(!client.ping_due(1000));
    client.set_heartbeat(30, 5);
    assert!(client.ping_due(1000));
    assert!(client.queue_ping(1000));
    assert!(!client.ping_due(1040));
    assert!(!client.is_stale(1005));
    assert!(client.is_stale(1006));
    flush(&mut client);
    // an empty ping, masked: two bytes and a key
    assert_eq!(client.as_ref().buf.len(), 6);
    assert_eq!(&client.as_ref().buf[..2], &[0x89, 0x80]);

    deliver(&mut client, &mut server);
    assert_eq!(read_all(&mut server, 16), Vec::<u8>::new());
    flush(&mut server);
    assert_eq!(server.as_ref().buf[6..], [0x8a, 0x00]);
    deliver(&mut server, &mut client);
    assert_eq!(client.as_ref().buf, vec![0x8a, 0x00]);
    assert_eq!(read_all(&mut client, 16), Vec::<u8>::new());
    assert!(!client.is_stale(2000));
    assert_eq!(client.heartbeat().answered, Some(1000));
    assert!(!client.ping_due(1029));
    assert!(client.ping_due(1030));
}

#[test]
fn closing_is_the_callers_write() {
    let mut client = Stream::<_, Client>::new(LimitReadWriter::new(64, 64));
    let mut server = Stream::<_, Server>::new(LimitReadWriter::new(64, 64));
    write_all(&mut client, b"bye");
    assert!(client.queue_close(&[0x03, 0xe8]));
    assert!(!client.queue_close(&[0x03, 0xe9]));
    assert!(!client.is_write_closed());
    flush(&mut client);
    assert!(client.is_write_closed());
    assert_eq!(stream_write(&mut client, b"more"), Err(Error::Closed));
    assert!(!client.queue_ping(5));

    deliver(&mut client, &mut server);
    let mut buf = [0u8; 16];
    let mut got = Vec::new();
    loop {
        match stream_read(&mut server, &mut buf) {
            Ok(n) => got.extend_from_slice(&buf[..n]),
            Err(error) => {
                assert_eq!(error, Error::Closed);
                break;
            }
        }
    }
    assert_eq!(got, b"bye");
    assert!(server.is_read_closed());
    assert_eq!(server.control_payload(), &[0x03, 0xe8]);
    // nothing was closed on the server's behalf: it may still write
    assert!(!server.is_write_closed());
    write_all(&mut server, b"ack");
    assert_eq!(server.as_ref().buf[server.as_ref().buf.len() - 5..], [0x82, 3, b'a', b'c', b'k']);
}

#[test]
fn a_call_that_was_not_completed_loses_nothing() {
    let mut client = Stream::<_, Client>::new(LimitReadWriter::new(64, 64));
    let mut server = Stream::<_, Server>::new(LimitReadWriter::new(64, 64));
    let data = [7u8; 40];
    // the sink is not ready: the plan is made, no write follows
    assert_eq!(client.write_prepare(OpCode::Binary, true, data.len()), WritePlan::Staged);
    assert_eq!(client.write_prepare(OpCode::Binary, true, data.len()), WritePlan::Staged);
    assert_eq!(client.write_staged().len(), 6);
    write_all(&mut client, &data);
    assert_eq!(client.as_ref().buf.len(), 6 + 40);
    deliver(&mut client, &mut server);
    // the source is not ready either
    assert_eq!(server.read_plan(16), ReadPlan::Fill(2));
    assert_eq!(server.read_plan(16), ReadPlan::Fill(2));
    assert_eq!(read_all(&mut server, 16), data.to_vec());
}

#[test]
fn messages_in_several_frames() {
    let mut client = Stream::<_, Client>::new(LimitReadWriter::new(7, 7));
    let mut server = Stream::<_, Server>::new(LimitReadWriter::new(7, 7));
    let parts: [(OpCode, bool, &[u8]); 3] = [
        (OpCode::Text, false, b"Hel"),
        (OpCode::Continue, false, b"lo, "),
        (OpCode::Continue, true, b"world"),
    ];
    let mut got = Vec::new();
    for (opcode, fin, part) in parts {
        let mut sent = 0;
        while sent < part.len() {
            sent += stream_write_frame(&mut client, opcode, fin, &part[sent..]).unwrap();
        }
        deliver(&mut client, &mut server);
        got.extend_from_slice(&read_all(&mut server, 2));
        assert_eq!(server.last_frame(), Some((OpCode::Text, fin)));
    }
    assert_eq!(got, b"Hello, world");
}

#[test]
fn the_state_is_small_and_of_fixed_size() {
    // a head, a control payload and a handful of counters
    assert!(size_of::<ReadState>() <= 256);
    // a staged frame, two waiting control payloads and a handful of counters
    assert!(size_of::<WriteState>() <= 512);
    assert!(size_of::<HeartBeat>() <= 64);
    assert_eq!(
        size_of::<Stream<(), Client>>(),
        size_of::<Stream<(), Server>>()
    );
    assert!(size_of::<Stream<(), Client>>() <= 1024);
}

#[test]
fn a_tick_sends_a_ping_when_one_is_due() {
    let mut client = Stream::<_, Client>::new(LimitReadWriter::new(64, 64));
    // no timing set: a tick does nothing
    assert!(!client.tick(10));
    client.set_heartbeat(100, 20);
    assert!(client.tick(10));
    // one ping at a time
    assert!(!client.tick(500));
    assert!(client.is_stale(31));
    flush(&mut client);
    assert_eq!(client.as_ref().buf.len(), 6);
    // the pong, unmasked as a server sends it
    client.as_mut().buf = vec![0x8a, 0x00];
    assert_eq!(read_all(&mut client, 8), Vec::<u8>::new());
    assert!(!client.is_stale(500));
    assert!(!client.tick(109));
    assert!(client.tick(110));
    assert_eq!(client.heartbeat().last_ping, Some(110));
}

#[test]
fn a_frame_with_a_known_key_is_known_byte_for_byte() {
    let mut client = Stream::<_, Client>::new(LimitReadWriter::new(3, 3));
    let key = [0x37, 0xfa, 0x21, 0x3d];
    let data = b"Hello";
    let mut sent = 0;
    while sent < data.len() {
        let rest = &data[sent..];
        sent += match client.write_prepare_with(Some(key), OpCode::Text, true, rest.len()) {
            WritePlan::Staged => {
                let (io, bytes) = client.write_staged_io();
                let n = io.write(bytes).unwrap();
                client.write_commit_staged(n)
            }
            WritePlan::Masked(want) => {
                let mut scratch = [0u8; 2];
                let k = client.write_mask_chunk(rest, &mut scratch);
                assert_eq!(k, want.min(2));
                let n = client.as_mut().write(&scratch[..k]).unwrap();
                client.write_commit_payload(n)
            }
            other => panic!("unexpected {:?}", other),
        };
    }
    assert_eq!(
        client.as_ref().buf,
        vec![0x81, 0x85, 0x37, 0xfa, 0x21, 0x3d, 0x7f, 0x9f, 0x4d, 0x51, 0x58]
    );
}
