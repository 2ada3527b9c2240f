//! The stream: both halves, the keep-alive and the I/O handle in one value.
//!
//! A stream owns its I/O handle but never uses it. Every read and every
//! write of the application becomes three steps: ask the stream what to do,
//! perform at most one operation on the handle, tell the stream what came of
//! it. A stream that was told nothing has lost nothing, so an operation that
//! could not be made now can be made later.

use vstd::prelude::*;
use std::marker::PhantomData;
use crate::error::Error;
use crate::frame::{OpCode, MAX_CONTROL_LEN};
use crate::heartbeat::HeartBeat;
use crate::read::{lemma_accept_scratch_inv, ReadEvent, ReadModel, ReadPlan, ReadState};
use crate::role::RoleHelper;
use crate::write::{WriteModel, WritePlan, WriteState};

verus! {

/// A stream as a mathematical value.
pub struct StreamModel<IO> {
    pub io: IO,
    pub read: ReadModel,
    pub write: WriteModel,
    pub heartbeat: HeartBeat,
}

impl<IO> StreamModel<IO> {
    /// The stream after `bytes` have arrived for the scratch buffer, and
    /// what the read returns.
    ///
    /// The receiving half takes the bytes. What they complete is acted on
    /// here: the payload of a ping is put in line to go back in a pong, and a
    /// pong is passed to the keep-alive. None of these bytes is payload for
    /// the caller, so the read returns zero unless it fails.
    pub open spec fn after_read_scratch(self, expects_masked: bool, bytes: Seq<u8>) -> (
        StreamModel<IO>,
        Result<usize, Error>,
    ) {
        let (read, outcome) = self.read.accept_scratch(expects_masked, bytes);
        match outcome {
            Err(error) => (StreamModel { read, ..self }, Err(error)),
            Ok(ReadEvent::Ping) => (
                StreamModel {
                    read,
                    write: if self.write.closed {
                        self.write
                    } else {
                        WriteModel { pong: Some(read.control), ..self.write }
                    },
                    ..self
                },
                Ok(0),
            ),
            Ok(ReadEvent::Pong) => (
                StreamModel { read, heartbeat: self.heartbeat.after_pong(), ..self },
                Ok(0),
            ),
            Ok(_) => (StreamModel { read, ..self }, Ok(0)),
        }
    }
}

/// Websocket stream.
///
/// `IO` is the handle of the underlying source and sink. `Role` decides
/// which frames are masked.
#[derive(Debug)]
pub struct Stream<IO, Role> {
    io: IO,
    read_state: ReadState,
    write_state: WriteState,
    heartbeat: HeartBeat,
    _marker: PhantomData<Role>,
}

impl<IO, Role> View for Stream<IO, Role> {
    type V = StreamModel<IO>;

    closed spec fn view(&self) -> StreamModel<IO> {
        StreamModel {
            io: self.io,
            read: self.read_state@,
            write: self.write_state@,
            heartbeat: self.heartbeat,
        }
    }
}

impl<IO, Role> Stream<IO, Role> {
    /// Well-formedness: both halves are well-formed.
    pub closed spec fn wf(&self) -> bool {
        self.read_state.wf() && self.write_state.wf()
    }

    /// A well-formed stream has both halves in a state that satisfies
    /// their invariants.
    pub proof fn lemma_wf_inv(&self)
        requires
            self.wf(),
        ensures
            self@.read.inv(),
            self@.write.inv(),
    {
    }

    /// Create websocket stream from IO source directly,
    /// without a handshake.
    pub fn new(io: IO) -> (stream: Self)
        ensures
            stream.wf(),
            stream@ == (StreamModel {
                io,
                read: ReadModel::initial(),
                write: WriteModel::initial(),
                heartbeat: HeartBeat::new_value(),
            }),
    {
        Stream {
            io,
            read_state: ReadState::new(),
            write_state: WriteState::new(),
            heartbeat: HeartBeat::new(),
            _marker: PhantomData,
        }
    }

    /// The I/O handle.
    pub fn as_ref(&self) -> (io: &IO)
        ensures
            *io == self@.io,
    {
        &self.io
    }

    /// The I/O handle, to operate on. Whatever is done to it, the stream's
    /// own state stays as it is.
    pub fn as_mut(&mut self) -> (io: &mut IO)
        ensures
            *io == old(self)@.io,
            final(self)@ == (StreamModel { io: *final(io), ..old(self)@ }),
            old(self).wf() ==> final(self).wf(),
    {
        &mut self.io
    }
}

impl<IO, Role: RoleHelper> Stream<IO, Role> {
    /// What a read into a buffer of `buf_len` bytes has to do: return at
    /// once, or make one read on the I/O handle.
    pub fn read_plan(&self, buf_len: usize) -> (plan: ReadPlan)
        requires
            self.wf(),
        ensures
            plan == self@.read.plan(buf_len as nat),
            plan matches ReadPlan::Fill(want) ==> 0 < want <= MAX_CONTROL_LEN && want
                == self@.read.fill_want(),
            plan matches ReadPlan::Payload(want) ==> 0 < want <= buf_len && want
                == self@.read.payload_want(buf_len as nat),
    {
        self.read_state.plan(buf_len)
    }

    /// Takes the bytes that a read planned as `Fill` brought, and returns
    /// what the application's read returns. No bytes mean that the source is
    /// at its end.
    pub fn read_scratch(&mut self, bytes: &[u8]) -> (r: Result<usize, Error>)
        requires
            old(self).wf(),
            bytes@.len() <= old(self)@.read.fill_want(),
        ensures
            final(self).wf(),
            (final(self)@, r) == old(self)@.after_read_scratch(Role::expects_masked(), bytes@),
    {
        let expects_masked = Role::requires_mask_incoming();
        match self.read_state.accept_scratch(expects_masked, bytes) {
            Err(error) => Err(error),
            Ok(ReadEvent::Ping) => {
                proof {
                    lemma_accept_scratch_inv(
                        old(self)@.read,
                        expects_masked,
                        bytes@,
                    );
                }
                self.write_state.queue_pong(self.read_state.control_payload());
                Ok(0)
            },
            Ok(ReadEvent::Pong) => {
                self.heartbeat.on_pong_received();
                Ok(0)
            },
            Ok(_) => Ok(0),
        }
    }

    /// Takes the `n` bytes of payload that a read planned as `Payload`
    /// brought into the start of `buf`, unmasks them there, and returns
    /// what the application's read returns: their number. No bytes mean
    /// that the source is at its end.
    pub fn read_payload(&mut self, buf: &mut [u8], n: usize) -> (delivered: usize)
        requires
            old(self).wf(),
            n <= old(self)@.read.payload_want(old(buf)@.len()),
        ensures
            final(self).wf(),
            delivered == n,
            final(buf)@.len() == old(buf)@.len(),
            final(self)@ == (StreamModel {
                read: old(self)@.read.accept_payload(old(buf)@.subrange(0, n as int)).0,
                ..old(self)@
            }),
            final(buf)@.subrange(0, n as int) == old(self)@.read.accept_payload(
                old(buf)@.subrange(0, n as int),
            ).1,
            final(buf)@.subrange(n as int, old(buf)@.len() as int) == old(buf)@.subrange(
                n as int,
                old(buf)@.len() as int,
            ),
    {
        self.read_state.accept_payload(buf, n)
    }

    /// Whether a close frame has arrived.
    pub fn is_read_closed(&self) -> (closed: bool)
        ensures
            closed == self@.read.closed,
    {
        self.read_state.is_closed()
    }

    /// Whether the latest read found the source at its end. A read that
    /// returns zero otherwise only asks to be called again.
    pub fn is_read_end(&self) -> (end: bool)
        ensures
            end == self@.read.eof,
    {
        self.read_state.is_eof()
    }

    /// Opcode and final flag of the data frame that the latest payload
    /// belongs to. A final flag that is set ends a message.
    pub fn last_frame(&self) -> (last: Option<(OpCode, bool)>)
        ensures
            last == self@.read.last,
    {
        self.read_state.last_frame()
    }

    /// Payload of the latest control frame that arrived: of a close frame,
    /// the peer's reason.
    pub fn control_payload(&self) -> (payload: &[u8])
        requires
            self.wf(),
        ensures
            payload@ == self@.read.control,
    {
        self.read_state.control_payload()
    }

    /// What a write has to do that offers `payload_len` bytes for a data
    /// frame of kind `opcode` with final flag `fin`: return at once, or make
    /// one write on the I/O handle. Where a frame starts, it is masked as
    /// the role demands, with a key of its own.
    pub fn write_prepare(&mut self, opcode: OpCode, fin: bool, payload_len: usize) -> (plan:
        WritePlan)
        requires
            old(self).wf(),
            !opcode.spec_is_control(),
        ensures
            final(self).wf(),
            exists|mask: Option<[u8; 4]>|
                mask.is_some() == Role::masks_outgoing() && final(self)@ == (StreamModel {
                    write: (#[trigger] old(self)@.write.prepare(
                        mask,
                        opcode,
                        fin,
                        payload_len as nat,
                    )).0,
                    ..old(self)@
                }) && plan == old(self)@.write.prepare(mask, opcode, fin, payload_len as nat).1,
            plan matches WritePlan::Plain(want) ==> 0 < want <= payload_len && want == final(self)@.write.payload_want(payload_len as nat),
            plan matches WritePlan::Masked(want) ==> 0 < want <= payload_len && want == final(self)@.write.payload_want(payload_len as nat),
            plan == WritePlan::Staged ==> final(self)@.write.staged.len() > 0,
    {
        let mask = Role::new_write_mask();
        self.write_prepare_with(mask, opcode, fin, payload_len)
    }

    /// As `write_prepare`, with the mask for a frame that starts given by
    /// the caller in place of the role. A frame that is under way keeps the
    /// mask it was started with.
    pub fn write_prepare_with(
        &mut self,
        mask: Option<[u8; 4]>,
        opcode: OpCode,
        fin: bool,
        payload_len: usize,
    ) -> (plan: WritePlan)
        requires
            old(self).wf(),
            !opcode.spec_is_control(),
        ensures
            final(self).wf(),
            final(self)@ == (StreamModel {
                write: old(self)@.write.prepare(mask, opcode, fin, payload_len as nat).0,
                ..old(self)@
            }),
            plan == old(self)@.write.prepare(mask, opcode, fin, payload_len as nat).1,
            plan matches WritePlan::Plain(want) ==> 0 < want <= payload_len && want == final(self)@.write.payload_want(payload_len as nat),
            plan matches WritePlan::Masked(want) ==> 0 < want <= payload_len && want == final(self)@.write.payload_want(payload_len as nat),
            plan == WritePlan::Staged ==> final(self)@.write.staged.len() > 0,
    {
        self.write_state.prepare(mask, opcode, fin, payload_len)
    }

    /// The staged bytes that the sink has not taken yet.
    pub fn write_staged(&self) -> (bytes: &[u8])
        requires
            self.wf(),
        ensures
            bytes@ == self@.write.staged,
    {
        self.write_state.staged()
    }

    /// The I/O handle together with the staged bytes, for the one write
    /// that hands the second to the first.
    pub fn write_staged_io(&mut self) -> (parts: (&mut IO, &[u8]))
        requires
            old(self).wf(),
        ensures
            *parts.0 == old(self)@.io,
            parts.1@ == old(self)@.write.staged,
            final(self)@ == (StreamModel { io: *final(parts.0), ..old(self)@ }),
            final(self).wf(),
    {
        (&mut self.io, self.write_state.staged())
    }

    /// Takes note that the sink took the first `n` of the staged bytes, and
    /// returns what the application's write returns: zero, since none of
    /// them was payload of the caller.
    pub fn write_commit_staged(&mut self, n: usize) -> (accepted: usize)
        requires
            old(self).wf(),
            n <= old(self)@.write.staged.len(),
        ensures
            final(self).wf(),
            accepted == 0,
            final(self)@ == (StreamModel {
                write: old(self)@.write.commit_staged(n as nat),
                ..old(self)@
            }),
    {
        self.write_state.commit_staged(n);
        0
    }

    /// Writes the next payload bytes as the wire wants them at the start
    /// of `scratch`: as many as the frame still owes, `payload` offers and
    /// `scratch` holds. Returns how many.
    pub fn write_mask_chunk(&self, payload: &[u8], scratch: &mut [u8]) -> (k: usize)
        requires
            self.wf(),
        ensures
            k <= self@.write.payload_want(payload@.len()),
            k <= old(scratch)@.len(),
            k == self@.write.payload_want(payload@.len()) || k == old(scratch)@.len(),
            final(scratch)@.len() == old(scratch)@.len(),
            final(scratch)@.subrange(0, k as int) == self@.write.wire_chunk(
                payload@.subrange(0, k as int),
            ),
            final(scratch)@.subrange(k as int, old(scratch)@.len() as int) == old(scratch)@.subrange(k as int, old(scratch)@.len() as int),
    {
        self.write_state.mask_chunk(payload, scratch)
    }

    /// Takes note that the sink took `n` payload bytes, and returns what
    /// the application's write returns: their number.
    pub fn write_commit_payload(&mut self, n: usize) -> (accepted: usize)
        requires
            old(self).wf(),
            n == 0 || (old(self)@.write.staged.len() == 0 && n <= old(self)@.write.remaining),
        ensures
            final(self).wf(),
            accepted == n,
            final(self)@ == (StreamModel {
                write: old(self)@.write.commit_payload(n as nat),
                ..old(self)@
            }),
    {
        self.write_state.commit_payload(n)
    }

    /// Whether a close frame has gone out in full.
    pub fn is_write_closed(&self) -> (closed: bool)
        ensures
            closed == self@.write.closed,
    {
        self.write_state.is_closed()
    }

    /// Lets a close frame with this payload go out at the next frame
    /// boundary. Returns whether it will: not where one went out, is going
    /// out or is waiting already.
    pub fn queue_close(&mut self, payload: &[u8]) -> (queued: bool)
        requires
            old(self).wf(),
            payload@.len() <= MAX_CONTROL_LEN,
        ensures
            final(self).wf(),
            queued == !(old(self)@.write.closed || old(self)@.write.closing || old(self)@.write.close.is_some()),
            final(self)@ == if queued {
                StreamModel {
                    write: WriteModel { close: Some(payload@), ..old(self)@.write },
                    ..old(self)@
                }
            } else {
                old(self)@
            },
    {
        self.write_state.queue_close(payload)
    }

    /// Sets the keep-alive to want a ping every `interval` and an answer
    /// to each within `timeout`. What it knew of earlier pings is dropped.
    pub fn set_heartbeat(&mut self, interval: u64, timeout: u64)
        ensures
            old(self).wf() ==> final(self).wf(),
            final(self)@ == (StreamModel {
                heartbeat: HeartBeat {
                    enabled: true,
                    interval,
                    timeout,
                    ..HeartBeat::new_value()
                },
                ..old(self)@
            }),
    {
        self.heartbeat = HeartBeat::with_timing(interval, timeout);
    }

    /// The keep-alive as it stands.
    pub fn heartbeat(&self) -> (heartbeat: HeartBeat)
        ensures
            heartbeat == self@.heartbeat,
    {
        self.heartbeat
    }

    /// Whether a ping is due at time `now`.
    pub fn ping_due(&self, now: u64) -> (due: bool)
        ensures
            due == self@.heartbeat.ping_due(now),
    {
        self.heartbeat.should_send_ping(now)
    }

    /// Whether the connection is stale at time `now`.
    pub fn is_stale(&self, now: u64) -> (stale: bool)
        ensures
            stale == self@.heartbeat.stale(now),
    {
        self.heartbeat.is_stale(now)
    }

    /// Lets a ping go out at the next frame boundary and has the
    /// keep-alive count it as sent at time `now`. Returns whether it will
    /// go out: not where a close frame went out before.
    pub fn queue_ping(&mut self, now: u64) -> (queued: bool)
        requires
            old(self).wf(),
        ensures
            final(self).wf(),
            queued == !old(self)@.write.closed,
            final(self)@ == if queued {
                StreamModel {
                    write: WriteModel { ping: true, ..old(self)@.write },
                    heartbeat: old(self)@.heartbeat.after_ping(now),
                    ..old(self)@
                }
            } else {
                old(self)@
            },
    {
        if self.write_state.queue_ping() {
            self.heartbeat.note_ping_sent(now);
            true
        } else {
            false
        }
    }

    /// The keep-alive's turn at time `now`: where a ping is due, it is put
    /// in line as `queue_ping` does. Returns whether one was.
    pub fn tick(&mut self, now: u64) -> (queued: bool)
        requires
            old(self).wf(),
        ensures
            final(self).wf(),
            queued == (old(self)@.heartbeat.ping_due(now) && !old(self)@.write.closed),
            final(self)@ == if queued {
                StreamModel {
                    write: WriteModel { ping: true, ..old(self)@.write },
                    heartbeat: old(self)@.heartbeat.after_ping(now),
                    ..old(self)@
                }
            } else {
                old(self)@
            },
    {
        if self.heartbeat.should_send_ping(now) {
            self.queue_ping(now)
        } else {
            false
        }
    }
}

} // verus!
