//! The sending half: from the caller's payload to bytes for the wire.
//!
//! A frame goes out in two stages. Its head is encoded into a small buffer
//! and handed to the I/O sink until all of it has been taken; then the
//! payload follows, straight from the caller's buffer, or through a scratch
//! buffer where it has to be masked. The caller's bytes are never changed
//! and never stored.
//!
//! Control frames are short, so they are encoded whole, payload included.
//! One that is waiting goes out at the next boundary between frames, ahead
//! of the caller's next frame and never inside one.
//!
//! The state performs no I/O. [`WriteState::prepare`] says which single
//! write is wanted, and [`WriteState::commit_staged`] or
//! [`WriteState::commit_payload`] is told how much of it the sink took.

use vstd::prelude::*;
use vstd::slice::slice_subrange;
use crate::error::Error;
use crate::frame::{lemma_encoded_len, put_bytes, FrameHead, OpCode, MAX_CONTROL_LEN, MAX_HEAD_LEN};
use crate::mask::{advance, lemma_mask_offset, mask_into, masked};

verus! {

/// Most bytes that a whole control frame takes up: a head of six bytes and
/// the largest payload.
pub const MAX_CONTROL_FRAME: usize = 131;

/// What one call has to do about I/O.
#[derive(Clone, Copy, Debug, PartialEq, Eq)]
pub enum WritePlan {
    /// No I/O: the call returns this.
    Return(Result<usize, Error>),
    /// Write the bytes that `staged` gives and tell `commit_staged` how many
    /// were taken. None of them is payload of the caller.
    Staged,
    /// Write at most so many bytes from the start of the caller's payload,
    /// as they are, and tell `commit_payload` how many were taken.
    Plain(usize),
    /// Let `mask_chunk` mask at most so many bytes from the start of the
    /// caller's payload into a scratch buffer, write those, and tell
    /// `commit_payload` how many were taken.
    Masked(usize),
}

/// The payload of a frame as it stands on the wire.
pub open spec fn wire_payload(payload: Seq<u8>, mask: Option<[u8; 4]>) -> Seq<u8> {
    match mask {
        Some(key) => masked(payload, key, 0),
        None => payload,
    }
}

/// A whole frame as it stands on the wire: the head, then the payload,
/// masked where the head has a key.
#[verifier::opaque]
pub open spec fn wire_frame(head: FrameHead, payload: Seq<u8>) -> Seq<u8> {
    head.spec_encode() + wire_payload(payload, head.mask)
}

/// A frame on the wire is as long as its head and its payload together.
pub proof fn lemma_frame_len(head: FrameHead, payload: Seq<u8>)
    ensures
        wire_frame(head, payload).len() == head.spec_encoded_len() + payload.len(),
        wire_payload(payload, head.mask).len() == payload.len(),
        2 <= head.spec_encoded_len() <= MAX_HEAD_LEN,
{
    reveal(wire_frame);
    lemma_encoded_len(head);
}

/// The head of a control frame: never split, so always final.
pub open spec fn control_head(opcode: OpCode, mask: Option<[u8; 4]>, len: nat) -> FrameHead {
    FrameHead { fin: true, opcode, mask, length: len as u64 }
}

/// The sending half as a mathematical value.
pub struct WriteModel {
    /// Encoded bytes that the sink has not taken yet: the rest of a head, or
    /// of a whole control frame.
    pub staged: Seq<u8>,
    /// The staged bytes belong to a close frame.
    pub closing: bool,
    /// Head of the data frame whose payload is still going out.
    pub frame: Option<FrameHead>,
    /// Payload bytes of that frame which the sink has not taken yet.
    pub remaining: u64,
    /// Payload of a pong that waits for the next frame boundary.
    pub pong: Option<Seq<u8>>,
    /// A ping waits for the next frame boundary.
    pub ping: bool,
    /// Payload of a close frame that waits for the next frame boundary.
    pub close: Option<Seq<u8>>,
    /// A close frame has gone out in full.
    pub closed: bool,
}

impl WriteModel {
    /// The state before anything has been sent.
    pub open spec fn initial() -> WriteModel {
        WriteModel {
            staged: Seq::empty(),
            closing: false,
            frame: None,
            remaining: 0,
            pong: None,
            ping: false,
            close: None,
            closed: false,
        }
    }

    /// Whether the wire stands between two frames: nothing is staged and
    /// no payload is owed.
    pub open spec fn at_boundary(self) -> bool {
        self.staged.len() == 0 && self.frame.is_none()
    }

    /// Number of payload bytes of the current frame that the sink took.
    pub open spec fn consumed(self) -> nat
        recommends
            self.frame.is_some(),
    {
        (self.frame.unwrap().length - self.remaining) as nat
    }

    /// What every reachable state satisfies.
    pub open spec fn inv(self) -> bool {
        &&& self.staged.len() <= MAX_CONTROL_FRAME
        &&& self.closing ==> self.staged.len() > 0 && self.frame.is_none()
        &&& self.closed ==> self.staged.len() == 0 && self.frame.is_none()
        &&& self.pong.is_some() ==> self.pong.unwrap().len() <= MAX_CONTROL_LEN
        &&& self.close.is_some() ==> self.close.unwrap().len() <= MAX_CONTROL_LEN
        &&& match self.frame {
            None => self.remaining == 0,
            Some(head) => 0 < self.remaining <= head.length,
        }
    }

    /// Payload bytes that one write may take from `payload_len` offered.
    pub open spec fn payload_want(self, payload_len: nat) -> nat {
        if self.closed || self.staged.len() > 0 || self.frame.is_none() {
            0
        } else if payload_len <= self.remaining {
            payload_len
        } else {
            self.remaining as nat
        }
    }

    /// The state when a control frame has been staged.
    pub open spec fn stage_control(self, opcode: OpCode, payload: Seq<u8>, mask: Option<[u8; 4]>)
        -> WriteModel {
        WriteModel {
            staged: wire_frame(control_head(opcode, mask, payload.len()), payload),
            ..self
        }
    }

    /// What a call has to do that offers `payload_len` bytes for a frame of
    /// kind `opcode` with final flag `fin`, and the state it leaves.
    /// `mask` is the mask for a frame that this call may start.
    ///
    /// A closed direction answers with its error. Staged bytes go first, then
    /// payload that is owed. At a boundary a waiting control frame is staged:
    /// a pong before a ping, a ping before a close. Only then a new frame of
    /// the caller's is started, of exactly the length offered; an empty
    /// offer starts none.
    pub open spec fn prepare(
        self,
        mask: Option<[u8; 4]>,
        opcode: OpCode,
        fin: bool,
        payload_len: nat,
    ) -> (WriteModel, WritePlan) {
        if self.closed {
            (self, WritePlan::Return(Err(Error::Closed)))
        } else if self.staged.len() > 0 {
            (self, WritePlan::Staged)
        } else if self.frame.is_some() {
            if payload_len == 0 {
                (self, WritePlan::Return(Ok(0)))
            } else if self.frame.unwrap().mask.is_some() {
                (self, WritePlan::Masked(self.payload_want(payload_len) as usize))
            } else {
                (self, WritePlan::Plain(self.payload_want(payload_len) as usize))
            }
        } else if self.pong.is_some() {
            (
                WriteModel { pong: None, ..self.stage_control(
                    OpCode::Pong,
                    self.pong.unwrap(),
                    mask,
                ) },
                WritePlan::Staged,
            )
        } else if self.ping {
            (
                WriteModel { ping: false, ..self.stage_control(
                    OpCode::Ping,
                    Seq::empty(),
                    mask,
                ) },
                WritePlan::Staged,
            )
        } else if self.close.is_some() {
            (
                WriteModel { close: None, closing: true, ..self.stage_control(
                    OpCode::Close,
                    self.close.unwrap(),
                    mask,
                ) },
                WritePlan::Staged,
            )
        } else if payload_len == 0 {
            (self, WritePlan::Return(Ok(0)))
        } else {
            let head = FrameHead { fin, opcode, mask, length: payload_len as u64 };
            (
                WriteModel {
                    staged: head.spec_encode(),
                    frame: Some(head),
                    remaining: payload_len as u64,
                    ..self
                },
                WritePlan::Staged,
            )
        }
    }

    /// The state after the sink took the first `n` staged bytes. When the
    /// last byte of a close frame has been taken, the direction is closed.
    pub open spec fn commit_staged(self, n: nat) -> WriteModel {
        let rest = self.staged.subrange(n as int, self.staged.len() as int);
        if rest.len() == 0 && self.closing {
            WriteModel { staged: rest, closing: false, closed: true, ..self }
        } else {
            WriteModel { staged: rest, ..self }
        }
    }

    /// The state after the sink took `n` payload bytes.
    pub open spec fn commit_payload(self, n: nat) -> WriteModel {
        let left = (self.remaining - n) as u64;
        WriteModel {
            remaining: left,
            frame: if left == 0 {
                None
            } else {
                self.frame
            },
            ..self
        }
    }

    /// The next payload bytes as they go on the wire, where `chunk` is what
    /// the caller offers of them.
    pub open spec fn wire_chunk(self, chunk: Seq<u8>) -> Seq<u8> {
        match self.frame {
            Some(head) => match head.mask {
                Some(key) => masked(chunk, key, self.consumed()),
                None => chunk,
            },
            None => chunk,
        }
    }
}

/// Preparing a write keeps the invariant.
pub proof fn lemma_prepare_inv(
    model: WriteModel,
    mask: Option<[u8; 4]>,
    opcode: OpCode,
    fin: bool,
    payload_len: nat,
)
    requires
        model.inv(),
        payload_len <= u64::MAX,
    ensures
        model.prepare(mask, opcode, fin, payload_len).0.inv(),
{
    let next = model.prepare(mask, opcode, fin, payload_len).0;
    reveal(wire_frame);
    if !model.closed && model.at_boundary() {
        if model.pong.is_some() {
            let payload = model.pong.unwrap();
            lemma_encoded_len(control_head(OpCode::Pong, mask, payload.len()));
        } else if model.ping {
            lemma_encoded_len(control_head(OpCode::Ping, mask, 0));
        } else if model.close.is_some() {
            let payload = model.close.unwrap();
            lemma_encoded_len(control_head(OpCode::Close, mask, payload.len()));
        } else if payload_len > 0 {
            lemma_encoded_len(FrameHead { fin, opcode, mask, length: payload_len as u64 });
        }
    }
}

/// Frames are never split on the wire: as long as a frame is under way,
/// a write starts nothing new. Neither a control frame that waits nor a
/// frame of the caller's is staged before the last byte of the frame has
/// been taken.
pub proof fn lemma_frames_are_not_split(
    model: WriteModel,
    mask: Option<[u8; 4]>,
    opcode: OpCode,
    fin: bool,
    payload_len: nat,
)
    requires
        model.inv(),
        !model.at_boundary(),
    ensures
        model.prepare(mask, opcode, fin, payload_len).0 == model,
        model.staged.len() > 0 ==> model.prepare(mask, opcode, fin, payload_len).1
            == WritePlan::Staged,
{
}

/// The sending half of a stream.
#[derive(Debug)]
pub struct WriteState {
    staged_buf: [u8; 131],
    staged_len: usize,
    staged_sent: usize,
    closing: bool,
    frame: Option<FrameHead>,
    remaining: u64,
    cursor: u8,
    pong_buf: [u8; 125],
    pong_len: usize,
    pong_set: bool,
    close_buf: [u8; 125],
    close_len: usize,
    close_set: bool,
    ping: bool,
    closed: bool,
}

impl View for WriteState {
    type V = WriteModel;

    closed spec fn view(&self) -> WriteModel {
        WriteModel {
            staged: self.staged_buf@.subrange(self.staged_sent as int, self.staged_len as int),
            closing: self.closing,
            frame: self.frame,
            remaining: self.remaining,
            pong: if self.pong_set {
                Some(self.pong_buf@.subrange(0, self.pong_len as int))
            } else {
                None
            },
            ping: self.ping,
            close: if self.close_set {
                Some(self.close_buf@.subrange(0, self.close_len as int))
            } else {
                None
            },
            closed: self.closed,
        }
    }
}

impl WriteState {
    /// What holds of the fields beyond what the model shows: the counts
    /// stay inside their buffers, and the position in the masking key is
    /// that of the next payload byte.
    pub closed spec fn fits(&self) -> bool {
        &&& self.staged_sent <= self.staged_len <= MAX_CONTROL_FRAME
        &&& self.pong_len <= MAX_CONTROL_LEN
        &&& self.close_len <= MAX_CONTROL_LEN
        &&& self.cursor < 4
        &&& (self.frame.is_some() && self.frame.unwrap().mask.is_some()) ==> self.cursor
            == self@.consumed() % 4
    }

    /// Well-formedness: every state that the functions below produce has it.
    pub open spec fn wf(&self) -> bool {
        self.fits() && self@.inv()
    }

    /// A state that has sent nothing yet.
    pub fn new() -> (state: WriteState)
        ensures
            state.wf(),
            state@ == WriteModel::initial(),
    {
        let state = WriteState {
            staged_buf: [0u8; 131],
            staged_len: 0,
            staged_sent: 0,
            closing: false,
            frame: None,
            remaining: 0,
            cursor: 0,
            pong_buf: [0u8; 125],
            pong_len: 0,
            pong_set: false,
            close_buf: [0u8; 125],
            close_len: 0,
            close_set: false,
            ping: false,
            closed: false,
        };
        assert(state@.staged =~= Seq::empty());
        state
    }

    /// Whether a close frame has gone out in full.
    pub fn is_closed(&self) -> (closed: bool)
        ensures
            closed == self@.closed,
    {
        self.closed
    }

    /// Whether the wire stands between two frames.
    pub fn at_boundary(&self) -> (b: bool)
        requires
            self.wf(),
        ensures
            b == self@.at_boundary(),
    {
        self.staged_sent == self.staged_len && self.frame.is_none()
    }

    /// Payload bytes of the current frame that the sink has not taken yet.
    pub fn remaining(&self) -> (remaining: u64)
        ensures
            remaining == self@.remaining,
    {
        self.remaining
    }

    /// The staged bytes that the sink has not taken yet.
    pub fn staged(&self) -> (bytes: &[u8])
        requires
            self.wf(),
        ensures
            bytes@ == self@.staged,
    {
        slice_subrange(&self.staged_buf, self.staged_sent, self.staged_len)
    }

    /// Lets a pong with this payload wait for the next frame boundary. It
    /// takes the place of one that is still waiting: only the latest ping
    /// is answered. A closed direction takes none.
    pub fn queue_pong(&mut self, payload: &[u8])
        requires
            old(self).wf(),
            payload@.len() <= MAX_CONTROL_LEN,
        ensures
            final(self).wf(),
            final(self)@ == if old(self)@.closed {
                old(self)@
            } else {
                WriteModel { pong: Some(payload@), ..old(self)@ }
            },
    {
        if !self.closed {
            put_bytes(&mut self.pong_buf, 0, payload);
            self.pong_len = payload.len();
            self.pong_set = true;
            assert(self.pong_buf@.subrange(0, self.pong_len as int) =~= payload@);
        }
    }

    /// Lets a ping wait for the next frame boundary. Returns whether it
    /// does; a closed direction takes none.
    pub fn queue_ping(&mut self) -> (queued: bool)
        requires
            old(self).wf(),
        ensures
            final(self).wf(),
            queued == !old(self)@.closed,
            final(self)@ == if old(self)@.closed {
                old(self)@
            } else {
                WriteModel { ping: true, ..old(self)@ }
            },
    {
        if self.closed {
            false
        } else {
            self.ping = true;
            true
        }
    }

    /// Lets a close frame with this payload wait for the next frame
    /// boundary. Returns whether it does: not where the direction is
    /// closed, or a close frame is waiting or going out already.
    pub fn queue_close(&mut self, payload: &[u8]) -> (queued: bool)
        requires
            old(self).wf(),
            payload@.len() <= MAX_CONTROL_LEN,
        ensures
            final(self).wf(),
            queued == !(old(self)@.closed || old(self)@.closing || old(self)@.close.is_some()),
            final(self)@ == if queued {
                WriteModel { close: Some(payload@), ..old(self)@ }
            } else {
                old(self)@
            },
    {
        if self.closed || self.closing || self.close_set {
            false
        } else {
            put_bytes(&mut self.close_buf, 0, payload);
            self.close_len = payload.len();
            self.close_set = true;
            assert(self.close_buf@.subrange(0, self.close_len as int) =~= payload@);
            true
        }
    }
}

impl WriteState {
    /// Encodes a whole control frame into the staging buffer.
    fn stage_control(&mut self, opcode: OpCode, payload: &[u8], mask: Option<[u8; 4]>)
        requires
            old(self).fits(),
            old(self)@.frame.is_none(),
            payload@.len() <= MAX_CONTROL_LEN,
        ensures
            final(self).fits(),
            final(self)@ == old(self)@.stage_control(opcode, payload@, mask),
    {
        let head = FrameHead { fin: true, opcode, mask, length: payload.len() as u64 };
        proof {
            lemma_encoded_len(head);
        }
        let n = match head.encode(&mut self.staged_buf) {
            Some(n) => n,
            None => 0,
        };
        match mask {
            Some(key) => {
                mask_into(payload, &mut self.staged_buf, n, key, 0);
            },
            None => {
                put_bytes(&mut self.staged_buf, n, payload);
            },
        }
        self.staged_sent = 0;
        self.staged_len = n + payload.len();
        assert(self@.staged =~= wire_frame(head, payload@)) by {
            reveal(wire_frame);
        }
    }

    /// Says which single write this call has to make, and stages the bytes
    /// for it where a new frame starts. `payload_len` bytes are offered for a
    /// data frame of kind `opcode` with final flag `fin`; `mask` is the
    /// mask for a frame that this call may start.
    pub fn prepare(&mut self, mask: Option<[u8; 4]>, opcode: OpCode, fin: bool, payload_len: usize)
        -> (plan: WritePlan)
        requires
            old(self).wf(),
            !opcode.spec_is_control(),
        ensures
            final(self).wf(),
            (final(self)@, plan) == old(self)@.prepare(mask, opcode, fin, payload_len as nat),
            plan matches WritePlan::Plain(want) ==> 0 < want <= payload_len && want == final(self)@.payload_want(payload_len as nat),
            plan matches WritePlan::Masked(want) ==> 0 < want <= payload_len && want == final(self)@.payload_want(payload_len as nat),
            plan == WritePlan::Staged ==> final(self)@.staged.len() > 0,
    {
        proof {
            reveal(wire_frame);
            lemma_prepare_inv(old(self)@, mask, opcode, fin, payload_len as nat);
        }
        if self.closed {
            return WritePlan::Return(Err(Error::Closed));
        }
        if self.staged_sent < self.staged_len {
            return WritePlan::Staged;
        }
        if let Some(head) = self.frame {
            if payload_len == 0 {
                return WritePlan::Return(Ok(0));
            }
            let want: usize = if payload_len as u64 <= self.remaining {
                payload_len
            } else {
                self.remaining as usize
            };
            return if head.mask.is_some() {
                WritePlan::Masked(want)
            } else {
                WritePlan::Plain(want)
            };
        }
        if self.pong_set {
            let held = self.pong_buf;
            let len = self.pong_len;
            self.pong_set = false;
            self.stage_control(OpCode::Pong, slice_subrange(&held, 0, len), mask);
            return WritePlan::Staged;
        }
        if self.ping {
            let held = self.pong_buf;
            self.ping = false;
            self.stage_control(OpCode::Ping, slice_subrange(&held, 0, 0), mask);
            assert(held@.subrange(0, 0) =~= Seq::<u8>::empty());
            return WritePlan::Staged;
        }
        if self.close_set {
            let held = self.close_buf;
            let len = self.close_len;
            self.close_set = false;
            self.stage_control(OpCode::Close, slice_subrange(&held, 0, len), mask);
            self.closing = true;
            return WritePlan::Staged;
        }
        if payload_len == 0 {
            return WritePlan::Return(Ok(0));
        }
        let head = FrameHead { fin, opcode, mask, length: payload_len as u64 };
        proof {
            lemma_encoded_len(head);
        }
        let n = match head.encode(&mut self.staged_buf) {
            Some(n) => n,
            None => 0,
        };
        self.staged_sent = 0;
        self.staged_len = n;
        self.frame = Some(head);
        self.remaining = payload_len as u64;
        self.cursor = 0;
        assert(self@.staged =~= head.spec_encode());
        WritePlan::Staged
    }

    /// Takes note that the sink took the first `n` of the staged bytes.
    pub fn commit_staged(&mut self, n: usize)
        requires
            old(self).wf(),
            n <= old(self)@.staged.len(),
        ensures
            final(self).wf(),
            final(self)@ == old(self)@.commit_staged(n as nat),
    {
        self.staged_sent = self.staged_sent + n;
        assert(self@.staged =~= old(self)@.staged.subrange(
            n as int,
            old(self)@.staged.len() as int,
        ));
        if self.staged_sent == self.staged_len {
            self.staged_sent = 0;
            self.staged_len = 0;
            if self.closing {
                self.closing = false;
                self.closed = true;
            }
            assert(self@.staged =~= old(self)@.staged.subrange(
                n as int,
                old(self)@.staged.len() as int,
            ));
        }
    }

    /// Writes the next payload bytes, masked as the wire wants them, at the
    /// start of `scratch`: as many as the frame still owes, `payload` offers
    /// and `scratch` holds. Returns how many. `payload` is left as it is.
    pub fn mask_chunk(&self, payload: &[u8], scratch: &mut [u8]) -> (k: usize)
        requires
            self.wf(),
        ensures
            k <= self@.payload_want(payload@.len()),
            k <= old(scratch)@.len(),
            k == self@.payload_want(payload@.len()) || k == old(scratch)@.len(),
            final(scratch)@.len() == old(scratch)@.len(),
            final(scratch)@.subrange(0, k as int) == self@.wire_chunk(
                payload@.subrange(0, k as int),
            ),
            final(scratch)@.subrange(k as int, old(scratch)@.len() as int) == old(scratch)@.subrange(k as int, old(scratch)@.len() as int),
    {
        let room = scratch.len();
        let head = match self.frame {
            Some(head) => head,
            None => {
                assert(scratch@.subrange(0, 0) =~= payload@.subrange(0, 0));
                return 0;
            },
        };
        if self.closed || self.staged_sent < self.staged_len {
            assert(scratch@.subrange(0, 0) =~= self@.wire_chunk(payload@.subrange(0, 0)));
            return 0;
        }
        let mut k: usize = if payload.len() as u64 <= self.remaining {
            payload.len()
        } else {
            self.remaining as usize
        };
        if room < k {
            k = room;
        }
        let chunk = slice_subrange(payload, 0, k);
        match head.mask {
            Some(key) => {
                proof {
                    lemma_mask_offset(chunk@, key, self@.consumed());
                }
                mask_into(chunk, scratch, 0, key, self.cursor);
            },
            None => {
                put_bytes(scratch, 0, chunk);
            },
        }
        assert(scratch@.subrange(0, k as int) =~= self@.wire_chunk(chunk@));
        assert(scratch@.subrange(k as int, room as int) =~= old(scratch)@.subrange(
            k as int,
            room as int,
        ));
        k
    }

    /// Takes note that the sink took `n` payload bytes, and returns how
    /// many bytes of the caller's payload that settles.
    pub fn commit_payload(&mut self, n: usize) -> (accepted: usize)
        requires
            old(self).wf(),
            n == 0 || (old(self)@.staged.len() == 0 && n <= old(self)@.remaining),
        ensures
            final(self).wf(),
            accepted == n,
            final(self)@ == old(self)@.commit_payload(n as nat),
    {
        if n > 0 {
            self.cursor = advance(self.cursor, n);
            self.remaining = self.remaining - n as u64;
            if self.remaining == 0 {
                self.frame = None;
            }
        }
        n
    }
}

} // verus!
