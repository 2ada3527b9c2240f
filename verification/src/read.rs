//! The receiving half: from bytes off the wire to payload for the caller.
//!
//! The state holds what is needed to go on where the last call stopped: the
//! bytes of a head that has not arrived in full, the head of the frame
//! whose payload is being delivered and how much of it is left, and the
//! payload of the control frame that came last. Payload of data frames is
//! never stored: it goes from the I/O source into the caller's buffer and is
//! unmasked there.
//!
//! The state performs no I/O. [`ReadState::plan`] says which single read is
//! wanted, and [`ReadState::accept_scratch`] or
//! [`ReadState::accept_payload`] is told what the read brought.

use vstd::prelude::*;
use vstd::slice::slice_subrange;
use crate::error::Error;
use crate::frame::{
    head_len, head_len_from, put_bytes, spec_decode, Decoded, FrameHead, OpCode, ProtocolError,
    MAX_CONTROL_LEN, MAX_HEAD_LEN,
};
use crate::mask::{lemma_mask_offset, mask_in_place, mask_into, masked};

verus! {

/// What one call has to do about I/O.
#[derive(Clone, Copy, Debug, PartialEq, Eq)]
pub enum ReadPlan {
    /// No I/O: the call returns this.
    Return(Result<usize, Error>),
    /// Read at most so many bytes into a scratch buffer and hand them to
    /// `accept_scratch`. They belong to a head or to a control frame.
    Fill(usize),
    /// Read at most so many bytes into the start of the caller's buffer and
    /// tell `accept_payload` how many came.
    Payload(usize),
}

/// What the bytes just accepted have completed.
#[derive(Clone, Copy, Debug, PartialEq, Eq, Structural)]
pub enum ReadEvent {
    /// Nothing that asks for an answer.
    Nothing,
    /// A ping, whose payload is to be sent back in a pong.
    Ping,
    /// A pong.
    Pong,
    /// A close frame. Nothing more will be read.
    Close,
}

/// The receiving half as a mathematical value.
pub struct ReadModel {
    /// Bytes of a head that is not complete yet.
    pub scratch: Seq<u8>,
    /// Head of the frame whose payload is still arriving.
    pub frame: Option<FrameHead>,
    /// Payload bytes of that frame that have not arrived.
    pub remaining: u64,
    /// Payload of the latest control frame, unmasked, as far as it has
    /// arrived.
    pub control: Seq<u8>,
    /// Opcode of the message whose frames are still arriving, where a
    /// message is split over several frames.
    pub message: Option<OpCode>,
    /// Opcode and final flag of the latest data frame. A continuation frame
    /// is listed with the opcode of the message it continues.
    pub last: Option<(OpCode, bool)>,
    /// A close frame has arrived.
    pub closed: bool,
    /// The peer broke the protocol in this way.
    pub failed: Option<ProtocolError>,
    /// The latest read brought nothing: the source is at its end.
    pub eof: bool,
}

/// How many bytes a head takes up that starts with `scratch`, as far as
/// `scratch` tells: two until the second byte is known.
pub open spec fn head_need(scratch: Seq<u8>) -> nat {
    if scratch.len() < 2 {
        2
    } else {
        head_len_from(scratch[1])
    }
}

impl ReadModel {
    /// The state before anything has arrived.
    pub open spec fn initial() -> ReadModel {
        ReadModel {
            scratch: Seq::empty(),
            frame: None,
            remaining: 0,
            control: Seq::empty(),
            message: None,
            last: None,
            closed: false,
            failed: None,
            eof: false,
        }
    }

    /// Whether reads are still possible.
    pub open spec fn live(self) -> bool {
        self.failed.is_none() && !self.closed
    }

    /// Whether a control frame's payload is arriving.
    pub open spec fn in_control(self) -> bool {
        self.frame.is_some() && self.frame.unwrap().opcode.spec_is_control()
    }

    /// Whether a data frame's payload is arriving.
    pub open spec fn in_payload(self) -> bool {
        self.frame.is_some() && !self.frame.unwrap().opcode.spec_is_control()
    }

    /// Number of payload bytes of the current frame that have arrived.
    pub open spec fn consumed(self) -> nat
        recommends
            self.frame.is_some(),
    {
        (self.frame.unwrap().length - self.remaining) as nat
    }

    /// What every reachable state satisfies.
    pub open spec fn inv(self) -> bool {
        &&& self.scratch.len() < head_need(self.scratch)
        &&& spec_decode(self.scratch) == Decoded::Incomplete
        &&& self.control.len() <= MAX_CONTROL_LEN
        &&& match self.frame {
            None => self.remaining == 0,
            Some(head) => {
                &&& self.scratch.len() == 0
                &&& 0 < self.remaining <= head.length
                &&& head.spec_is_valid()
                &&& head.opcode.spec_is_control() ==> self.control.len() == head.length
                    - self.remaining
            },
        }
    }

    /// Bytes wanted for the scratch buffer: the rest of a head, or the rest
    /// of a control frame's payload. Zero where none are wanted.
    pub open spec fn fill_want(self) -> nat {
        if !self.live() {
            0
        } else if self.frame.is_none() {
            (head_need(self.scratch) - self.scratch.len()) as nat
        } else if self.in_control() {
            self.remaining as nat
        } else {
            0
        }
    }

    /// Payload bytes wanted for a caller's buffer of `buf_len` bytes.
    pub open spec fn payload_want(self, buf_len: nat) -> nat {
        if self.live() && self.in_payload() {
            if buf_len <= self.remaining {
                buf_len
            } else {
                self.remaining as nat
            }
        } else {
            0
        }
    }

    /// What a call with a buffer of `buf_len` bytes has to do.
    ///
    /// A direction that has failed or is closed answers with its error at
    /// once. An empty buffer gets nothing and causes no I/O. Otherwise one
    /// read is wanted: of payload where a data frame is open, of head or
    /// control bytes where not.
    pub open spec fn plan(self, buf_len: nat) -> ReadPlan {
        if self.failed.is_some() {
            ReadPlan::Return(Err(Error::Protocol(self.failed.unwrap())))
        } else if self.closed {
            ReadPlan::Return(Err(Error::Closed))
        } else if buf_len == 0 {
            ReadPlan::Return(Ok(0))
        } else if self.in_payload() {
            ReadPlan::Payload(self.payload_want(buf_len) as usize)
        } else {
            ReadPlan::Fill(self.fill_want() as usize)
        }
    }

    /// The state after a protocol violation.
    pub open spec fn fail(self, error: ProtocolError) -> ReadModel {
        ReadModel { scratch: Seq::empty(), frame: None, remaining: 0, failed: Some(error), ..self }
    }

    /// The state after a control frame has arrived in full, and what it
    /// asks for.
    pub open spec fn finish_control(self, opcode: OpCode) -> (ReadModel, ReadEvent) {
        let done = ReadModel { frame: None, remaining: 0, ..self };
        match opcode {
            OpCode::Ping => (done, ReadEvent::Ping),
            OpCode::Pong => (done, ReadEvent::Pong),
            _ => (ReadModel { closed: true, ..done }, ReadEvent::Close),
        }
    }

    /// The state after the head of a frame has arrived in full.
    ///
    /// A frame without payload is over at once. A data frame is listed as
    /// the latest, a continuation frame under the opcode of its message,
    /// and opens or ends a message according to its final flag.
    pub open spec fn begin(self, head: FrameHead) -> (ReadModel, ReadEvent) {
        let cleared = ReadModel { scratch: Seq::empty(), ..self };
        if head.opcode.spec_is_control() {
            let opened = ReadModel {
                control: Seq::empty(),
                frame: Some(head),
                remaining: head.length,
                ..cleared
            };
            if head.length == 0 {
                opened.finish_control(head.opcode)
            } else {
                (opened, ReadEvent::Nothing)
            }
        } else {
            let shown = if head.opcode == OpCode::Continue && self.message.is_some() {
                self.message.unwrap()
            } else {
                head.opcode
            };
            let listed = ReadModel {
                last: Some((shown, head.fin)),
                message: if head.fin {
                    None
                } else {
                    Some(shown)
                },
                ..cleared
            };
            if head.length == 0 {
                (listed, ReadEvent::Nothing)
            } else {
                (
                    ReadModel { frame: Some(head), remaining: head.length, ..listed },
                    ReadEvent::Nothing,
                )
            }
        }
    }

    /// The state after `bytes` have arrived for the scratch buffer, and
    /// what the call reports. `expects_masked` is the role's demand on
    /// incoming frames.
    ///
    /// No bytes at all mean that the source is at its end. Bytes of a head
    /// are judged as soon as they allow it: a violation ends the direction,
    /// and so does a complete head whose mask flag is not what the role
    /// demands. Bytes of a control frame are unmasked and kept, and the
    /// frame takes effect when its last byte is there.
    pub open spec fn accept_scratch(self, expects_masked: bool, bytes: Seq<u8>) -> (
        ReadModel,
        Result<ReadEvent, Error>,
    ) {
        if bytes.len() == 0 {
            (ReadModel { eof: true, ..self }, Ok(ReadEvent::Nothing))
        } else {
            let awake = ReadModel { eof: false, ..self };
            match self.frame {
                None => {
                    let held = self.scratch + bytes;
                    match spec_decode(held) {
                        Decoded::Incomplete => (
                            ReadModel { scratch: held, ..awake },
                            Ok(ReadEvent::Nothing),
                        ),
                        Decoded::Invalid(error) => (
                            awake.fail(error),
                            Err(Error::Protocol(error)),
                        ),
                        Decoded::Complete(head, _) => {
                            if head.mask.is_some() != expects_masked {
                                (
                                    awake.fail(ProtocolError::MaskMismatch),
                                    Err(Error::Protocol(ProtocolError::MaskMismatch)),
                                )
                            } else {
                                let (next, event) = awake.begin(head);
                                (next, Ok(event))
                            }
                        },
                    }
                },
                Some(head) => {
                    let plain = match head.mask {
                        Some(key) => masked(bytes, key, self.consumed()),
                        None => bytes,
                    };
                    let grown = ReadModel {
                        control: self.control + plain,
                        remaining: (self.remaining - bytes.len()) as u64,
                        ..awake
                    };
                    if grown.remaining == 0 {
                        let (next, event) = grown.finish_control(head.opcode);
                        (next, Ok(event))
                    } else {
                        (grown, Ok(ReadEvent::Nothing))
                    }
                },
            }
        }
    }

    /// The state after `bytes` of payload have arrived in the caller's
    /// buffer, and the same bytes as the caller gets them: unmasked.
    ///
    /// No bytes at all mean that the source is at its end.
    pub open spec fn accept_payload(self, bytes: Seq<u8>) -> (ReadModel, Seq<u8>) {
        if bytes.len() == 0 {
            (ReadModel { eof: true, ..self }, bytes)
        } else {
            let head = self.frame.unwrap();
            let plain = match head.mask {
                Some(key) => masked(bytes, key, self.consumed()),
                None => bytes,
            };
            let left = (self.remaining - bytes.len()) as u64;
            (
                ReadModel {
                    eof: false,
                    remaining: left,
                    frame: if left == 0 {
                        None
                    } else {
                        self.frame
                    },
                    ..self
                },
                plain,
            )
        }
    }
}

/// Accepting scratch bytes keeps the invariant.
pub proof fn lemma_accept_scratch_inv(model: ReadModel, expects_masked: bool, bytes: Seq<u8>)
    requires
        model.inv(),
        bytes.len() <= model.fill_want(),
    ensures
        model.accept_scratch(expects_masked, bytes).0.inv(),
{
    let next = model.accept_scratch(expects_masked, bytes).0;
    let empty = Seq::<u8>::empty();
    assert(spec_decode(empty) == Decoded::Incomplete);
    if bytes.len() > 0 {
        match model.frame {
            None => {
                let held = model.scratch + bytes;
                match spec_decode(held) {
                    Decoded::Incomplete => {
                        assert(next.scratch == held);
                    },
                    Decoded::Invalid(error) => {},
                    Decoded::Complete(head, _) => {
                        assert(head.spec_is_valid());
                    },
                }
            },
            Some(head) => {
                assert(model.in_control());
            },
        }
    }
}

/// Accepting payload bytes keeps the invariant.
pub proof fn lemma_accept_payload_inv(model: ReadModel, buf_len: nat, bytes: Seq<u8>)
    requires
        model.inv(),
        bytes.len() <= model.payload_want(buf_len),
    ensures
        model.accept_payload(bytes).0.inv(),
        model.accept_payload(bytes).1.len() == bytes.len(),
{
}

/// One frame at a time: while payload of a data frame is owed, a read
/// brings payload and nothing else, the count of what is owed only goes
/// down, and the frame stays the same until that count is at zero. No byte
/// of a next head is asked for before.
pub proof fn lemma_one_frame_at_a_time(model: ReadModel, buf_len: nat, bytes: Seq<u8>)
    requires
        model.inv(),
        model.live(),
        model.in_payload(),
        0 < buf_len <= usize::MAX,
        bytes.len() <= model.payload_want(buf_len),
    ensures
        model.plan(buf_len) == ReadPlan::Payload(model.payload_want(buf_len) as usize),
        0 < model.payload_want(buf_len) <= model.remaining,
        model.fill_want() == 0,
        ({
            let next = model.accept_payload(bytes).0;
            &&& next.remaining == model.remaining - bytes.len()
            &&& next.scratch == model.scratch
            &&& next.remaining > 0 ==> next.frame == model.frame
            &&& next.remaining == 0 ==> next.frame.is_none()
        }),
{
}

/// The receiving half of a stream.
#[derive(Debug)]
pub struct ReadState {
    head_buf: [u8; 14],
    head_have: usize,
    frame: Option<FrameHead>,
    remaining: u64,
    cursor: u8,
    ctrl_buf: [u8; 125],
    ctrl_have: usize,
    message: Option<OpCode>,
    last: Option<(OpCode, bool)>,
    closed: bool,
    failed: Option<ProtocolError>,
    eof: bool,
}

impl View for ReadState {
    type V = ReadModel;

    closed spec fn view(&self) -> ReadModel {
        ReadModel {
            scratch: self.head_buf@.subrange(0, self.head_have as int),
            frame: self.frame,
            remaining: self.remaining,
            control: self.ctrl_buf@.subrange(0, self.ctrl_have as int),
            message: self.message,
            last: self.last,
            closed: self.closed,
            failed: self.failed,
            eof: self.eof,
        }
    }
}

impl ReadState {
    /// What holds of the fields beyond what the model shows: the two
    /// counts stay inside their buffers, and the position in the masking
    /// key is that of the next payload byte.
    pub closed spec fn fits(&self) -> bool {
        &&& self.head_have <= MAX_HEAD_LEN
        &&& self.ctrl_have <= MAX_CONTROL_LEN
        &&& self.cursor < 4
        &&& (self.frame.is_some() && self.frame.unwrap().mask.is_some()) ==> self.cursor
            == self@.consumed() % 4
    }

    /// Well-formedness: every state that the functions below produce has it.
    pub open spec fn wf(&self) -> bool {
        self.fits() && self@.inv()
    }

    /// A state that has seen nothing yet.
    pub fn new() -> (state: ReadState)
        ensures
            state.wf(),
            state@ == ReadModel::initial(),
    {
        let state = ReadState {
            head_buf: [0u8; 14],
            head_have: 0,
            frame: None,
            remaining: 0,
            cursor: 0,
            ctrl_buf: [0u8; 125],
            ctrl_have: 0,
            message: None,
            last: None,
            closed: false,
            failed: None,
            eof: false,
        };
        assert(state@.scratch =~= Seq::empty());
        assert(state@.control =~= Seq::empty());
        state
    }

    /// What a call with a buffer of `buf_len` bytes has to do: at most one
    /// read, and of how many bytes.
    pub fn plan(&self, buf_len: usize) -> (plan: ReadPlan)
        requires
            self.wf(),
        ensures
            plan == self@.plan(buf_len as nat),
            plan matches ReadPlan::Fill(want) ==> 0 < want <= MAX_CONTROL_LEN && want
                == self@.fill_want(),
            plan matches ReadPlan::Payload(want) ==> 0 < want <= buf_len && want
                == self@.payload_want(buf_len as nat),
    {
        if let Some(error) = self.failed {
            return ReadPlan::Return(Err(Error::Protocol(error)));
        }
        if self.closed {
            return ReadPlan::Return(Err(Error::Closed));
        }
        if buf_len == 0 {
            return ReadPlan::Return(Ok(0));
        }
        match self.frame {
            None => {
                let need: usize = if self.head_have < 2 {
                    2
                } else {
                    head_len(self.head_buf[1])
                };
                ReadPlan::Fill(need - self.head_have)
            },
            Some(head) => {
                if head.opcode.is_control() {
                    ReadPlan::Fill(self.remaining as usize)
                } else if buf_len as u64 <= self.remaining {
                    ReadPlan::Payload(buf_len)
                } else {
                    ReadPlan::Payload(self.remaining as usize)
                }
            },
        }
    }

    /// Whether a close frame has arrived.
    pub fn is_closed(&self) -> (closed: bool)
        ensures
            closed == self@.closed,
    {
        self.closed
    }

    /// The protocol violation that ended this direction, if one did.
    pub fn failure(&self) -> (failed: Option<ProtocolError>)
        ensures
            failed == self@.failed,
    {
        self.failed
    }

    /// Whether the latest read found the source at its end.
    pub fn is_eof(&self) -> (eof: bool)
        ensures
            eof == self@.eof,
    {
        self.eof
    }

    /// Opcode and final flag of the latest data frame.
    pub fn last_frame(&self) -> (last: Option<(OpCode, bool)>)
        ensures
            last == self@.last,
    {
        self.last
    }

    /// Payload bytes of the current frame that have not arrived yet.
    pub fn remaining(&self) -> (remaining: u64)
        ensures
            remaining == self@.remaining,
    {
        self.remaining
    }

    /// Payload of the latest control frame, as far as it has arrived.
    pub fn control_payload(&self) -> (payload: &[u8])
        requires
            self.wf(),
        ensures
            payload@ == self@.control,
    {
        slice_subrange(&self.ctrl_buf, 0, self.ctrl_have)
    }
}

impl ReadState {
    /// Ends this direction after a protocol violation.
    fn fail(&mut self, error: ProtocolError)
        requires
            old(self).fits(),
        ensures
            final(self).fits(),
            final(self)@ == old(self)@.fail(error),
    {
        self.head_have = 0;
        self.frame = None;
        self.remaining = 0;
        self.failed = Some(error);
        assert(self@.scratch =~= Seq::empty());
    }

    /// Lets a control frame that has arrived in full take effect.
    fn finish_control(&mut self, opcode: OpCode) -> (event: ReadEvent)
        requires
            old(self).fits(),
        ensures
            final(self).fits(),
            (final(self)@, event) == old(self)@.finish_control(opcode),
    {
        self.frame = None;
        self.remaining = 0;
        match opcode {
            OpCode::Ping => ReadEvent::Ping,
            OpCode::Pong => ReadEvent::Pong,
            _ => {
                self.closed = true;
                ReadEvent::Close
            },
        }
    }

    /// Takes up the frame whose head has just arrived in full.
    fn begin(&mut self, head: FrameHead) -> (event: ReadEvent)
        requires
            old(self).fits(),
            old(self)@.frame.is_none(),
        ensures
            final(self).fits(),
            (final(self)@, event) == old(self)@.begin(head),
    {
        self.head_have = 0;
        self.cursor = 0;
        assert(self@.scratch =~= Seq::empty());
        if head.opcode.is_control() {
            self.ctrl_have = 0;
            self.frame = Some(head);
            self.remaining = head.length;
            assert(self@.control =~= Seq::empty());
            if head.length == 0 {
                self.finish_control(head.opcode)
            } else {
                ReadEvent::Nothing
            }
        } else {
            let shown = match (head.opcode, self.message) {
                (OpCode::Continue, Some(opcode)) => opcode,
                _ => head.opcode,
            };
            self.last = Some((shown, head.fin));
            self.message = if head.fin {
                None
            } else {
                Some(shown)
            };
            if head.length != 0 {
                self.frame = Some(head);
                self.remaining = head.length;
            }
            ReadEvent::Nothing
        }
    }

    /// Takes the bytes that the read planned by `plan` brought into the
    /// scratch buffer, and reports what they completed. `expects_masked` is
    /// the role's demand on incoming frames.
    pub fn accept_scratch(&mut self, expects_masked: bool, bytes: &[u8]) -> (r: Result<
        ReadEvent,
        Error,
    >)
        requires
            old(self).wf(),
            bytes@.len() <= old(self)@.fill_want(),
        ensures
            final(self).wf(),
            (final(self)@, r) == old(self)@.accept_scratch(expects_masked, bytes@),
    {
        proof {
            lemma_accept_scratch_inv(old(self)@, expects_masked, bytes@);
        }
        if bytes.len() == 0 {
            self.eof = true;
            return Ok(ReadEvent::Nothing);
        }
        self.eof = false;
        match self.frame {
            None => {
                let ghost held = old(self)@.scratch + bytes@;
                put_bytes(&mut self.head_buf, self.head_have, bytes);
                self.head_have = self.head_have + bytes.len();
                assert(self@.scratch =~= held);
                let decoded = FrameHead::decode(slice_subrange(&self.head_buf, 0, self.head_have));
                match decoded {
                    Err(error) => {
                        self.fail(error);
                        Err(Error::Protocol(error))
                    },
                    Ok(None) => Ok(ReadEvent::Nothing),
                    Ok(Some((head, _))) => {
                        if head.mask.is_some() != expects_masked {
                            self.fail(ProtocolError::MaskMismatch);
                            Err(Error::Protocol(ProtocolError::MaskMismatch))
                        } else {
                            let event = self.begin(head);
                            Ok(event)
                        }
                    },
                }
            },
            Some(head) => {
                let ghost consumed = old(self)@.consumed();
                match head.mask {
                    Some(key) => {
                        proof {
                            lemma_mask_offset(bytes@, key, consumed);
                        }
                        self.cursor = mask_into(
                            bytes,
                            &mut self.ctrl_buf,
                            self.ctrl_have,
                            key,
                            self.cursor,
                        );
                    },
                    None => {
                        put_bytes(&mut self.ctrl_buf, self.ctrl_have, bytes);
                    },
                }
                self.ctrl_have = self.ctrl_have + bytes.len();
                self.remaining = self.remaining - bytes.len() as u64;
                assert(self@.control =~= old(self)@.control + match head.mask {
                    Some(key) => masked(bytes@, key, consumed),
                    None => bytes@,
                });
                if self.remaining == 0 {
                    let event = self.finish_control(head.opcode);
                    Ok(event)
                } else {
                    Ok(ReadEvent::Nothing)
                }
            },
        }
    }

    /// Takes the `n` bytes of payload that the read planned by `plan`
    /// brought into the start of `buf`, unmasks them where they are, and
    /// returns how many bytes of `buf` now hold payload for the caller.
    pub fn accept_payload(&mut self, buf: &mut [u8], n: usize) -> (delivered: usize)
        requires
            old(self).wf(),
            n <= old(self)@.payload_want(old(buf)@.len()),
        ensures
            final(self).wf(),
            delivered == n,
            final(buf)@.len() == old(buf)@.len(),
            (final(self)@, final(buf)@.subrange(0, n as int)) == old(self)@.accept_payload(
                old(buf)@.subrange(0, n as int),
            ),
            final(buf)@.subrange(n as int, old(buf)@.len() as int) == old(buf)@.subrange(
                n as int,
                old(buf)@.len() as int,
            ),
    {
        proof {
            lemma_accept_payload_inv(
                old(self)@,
                old(buf)@.len(),
                old(buf)@.subrange(0, n as int),
            );
        }
        if n == 0 {
            self.eof = true;
            assert(buf@.subrange(0, 0) =~= old(buf)@.subrange(0, 0));
            return 0;
        }
        self.eof = false;
        let head = self.frame.unwrap();
        let ghost consumed = old(self)@.consumed();
        let ghost arrived = old(buf)@.subrange(0, n as int);
        match head.mask {
            Some(key) => {
                proof {
                    lemma_mask_offset(arrived, key, consumed);
                }
                self.cursor = mask_in_place(buf, n, key, self.cursor);
                assert(buf@.subrange(0, n as int) =~= masked(arrived, key, consumed));
            },
            None => {},
        }
        self.remaining = self.remaining - n as u64;
        if self.remaining == 0 {
            self.frame = None;
        }
        assert(buf@.subrange(n as int, old(buf)@.len() as int) =~= old(buf)@.subrange(
            n as int,
            old(buf)@.len() as int,
        ));
        n
    }
}

} // verus!
