//! What goes in at one end comes out at the other.
//!
//! The two halves are followed here through whole sequences of calls, each
//! of which moves as few or as many bytes as the I/O handle happens to
//! take or give. However the bytes of a frame are cut up on their way, the
//! sending half puts exactly the frame on the wire, and the receiving half
//! hands exactly its payload to the caller.

use vstd::prelude::*;
use crate::error::Error;
use crate::frame::{
    lemma_decode_encode, lemma_decode_prefix, lemma_encoded_len, spec_decode, Decoded, FrameHead,
    OpCode, ProtocolError,
};
use crate::mask::{lemma_mask_difference, lemma_mask_subrange, lemma_mask_twice, masked};
use crate::read::{ReadEvent, ReadModel, ReadPlan};
use crate::role::RoleHelper;
use crate::write::{lemma_frame_len, wire_frame, wire_payload, WriteModel, WritePlan};

verus! {

/// The smallest of three numbers.
pub open spec fn least(a: nat, b: nat, c: nat) -> nat {
    if a <= b && a <= c {
        a
    } else if b <= c {
        b
    } else {
        c
    }
}

/// What one read, or a sequence of reads, has come to.
pub struct ReadRun {
    /// The receiving half afterwards.
    pub state: ReadModel,
    /// The bytes handed to the caller, in order.
    pub delivered: Seq<u8>,
    /// Number of bytes taken off the wire.
    pub consumed: nat,
    /// The error that ended the sequence, if one did.
    pub error: Option<Error>,
}

/// One read of the application, with a buffer of `buf_len` bytes, while
/// `wire` is what the source still holds and `limit` is the most it gives
/// in one operation.
#[verifier::opaque]
pub open spec fn read_call(
    state: ReadModel,
    expects_masked: bool,
    wire: Seq<u8>,
    buf_len: nat,
    limit: nat,
) -> ReadRun {
    match state.plan(buf_len) {
        ReadPlan::Return(outcome) => ReadRun {
            state,
            delivered: Seq::empty(),
            consumed: 0,
            error: match outcome {
                Ok(_) => None,
                Err(error) => Some(error),
            },
        },
        ReadPlan::Fill(_) => {
            let n = least(state.fill_want(), limit, wire.len());
            let (next, outcome) = state.accept_scratch(expects_masked, wire.subrange(0, n as int));
            ReadRun {
                state: next,
                delivered: Seq::empty(),
                consumed: n,
                error: match outcome {
                    Ok(_) => None,
                    Err(error) => Some(error),
                },
            }
        },
        ReadPlan::Payload(_) => {
            let n = least(state.payload_want(buf_len), limit, wire.len());
            let (next, plain) = state.accept_payload(wire.subrange(0, n as int));
            ReadRun { state: next, delivered: plain, consumed: n, error: None }
        },
    }
}

/// A sequence of reads of the application, one for each pair in `calls`:
/// the size of the caller's buffer and the limit of the source in that
/// call. The first error ends the sequence.
pub open spec fn read_run(
    state: ReadModel,
    expects_masked: bool,
    wire: Seq<u8>,
    calls: Seq<(nat, nat)>,
) -> ReadRun
    decreases calls.len(),
{
    if calls.len() == 0 {
        ReadRun { state, delivered: Seq::empty(), consumed: 0, error: None }
    } else {
        let first = read_call(state, expects_masked, wire, calls[0].0, calls[0].1);
        if first.error.is_some() {
            first
        } else {
            let rest = read_run(
                first.state,
                expects_masked,
                wire.subrange(first.consumed as int, wire.len() as int),
                calls.drop_first(),
            );
            ReadRun {
                state: rest.state,
                delivered: first.delivered + rest.delivered,
                consumed: first.consumed + rest.consumed,
                error: rest.error,
            }
        }
    }
}

/// The opcode under which a data frame is listed: that of the message
/// which a continuation frame continues, else its own.
pub open spec fn shown_opcode(opcode: OpCode, opened: Option<OpCode>) -> OpCode {
    if opcode == OpCode::Continue && opened.is_some() {
        opened.unwrap()
    } else {
        opcode
    }
}

/// How many payload bytes lie before position `pos` of a frame whose head
/// takes up `head_len` bytes.
pub open spec fn payload_before(head_len: nat, pos: nat) -> nat {
    if pos <= head_len {
        0
    } else {
        (pos - head_len) as nat
    }
}

/// The receiving half has taken exactly the first `pos` bytes of the frame
/// with this head off the wire. `opened` is the message that was open before
/// the frame.
#[verifier::opaque]
pub open spec fn reading_at(
    state: ReadModel,
    head: FrameHead,
    opened: Option<OpCode>,
    pos: nat,
) -> bool {
    let encoded = head.spec_encode();
    let shown = shown_opcode(head.opcode, opened);
    &&& state.live()
    &&& pos <= encoded.len() + head.length
    &&& if pos < encoded.len() {
        &&& state.frame.is_none()
        &&& state.remaining == 0
        &&& state.scratch == encoded.subrange(0, pos as int)
        &&& state.message == opened
    } else {
        &&& state.scratch == Seq::<u8>::empty()
        &&& state.last == Some((shown, head.fin))
        &&& state.message == if head.fin {
            None
        } else {
            Some(shown)
        }
        &&& if pos < encoded.len() + head.length {
            state.frame == Some(head) && state.remaining == encoded.len() + head.length - pos
        } else {
            state.frame.is_none() && state.remaining == 0
        }
    }
}

/// While the head is arriving, the receiving half wants no byte beyond it.
pub proof fn lemma_head_want(state: ReadModel, head: FrameHead, opened: Option<OpCode>, pos: nat)
    requires
        reading_at(state, head, opened, pos),
        pos < head.spec_encode().len(),
    ensures
        !state.in_payload(),
        0 < state.fill_want() <= head.spec_encode().len() - pos,
{
    reveal(reading_at);
    lemma_encoded_len(head);
    let encoded = head.spec_encode();
    assert(state.scratch.len() == pos);
    if pos >= 2 {
        assert(state.scratch[1] == encoded[1]);
    }
}

/// Bytes of the head that arrive leave the receiving half on the frame,
/// and the last of them opens the payload.
pub proof fn lemma_head_step(
    state: ReadModel,
    head: FrameHead,
    opened: Option<OpCode>,
    pos: nat,
    n: nat,
)
    requires
        !head.opcode.spec_is_control(),
        reading_at(state, head, opened, pos),
        0 < n,
        pos + n <= head.spec_encode().len(),
    ensures
        ({
            let bytes = head.spec_encode().subrange(pos as int, (pos + n) as int);
            let (next, outcome) = state.accept_scratch(head.mask.is_some(), bytes);
            outcome == Ok::<ReadEvent, Error>(ReadEvent::Nothing) && reading_at(
                next,
                head,
                opened,
                pos + n,
            )
        }),
{
    reveal(reading_at);
    let encoded = head.spec_encode();
    let bytes = encoded.subrange(pos as int, (pos + n) as int);
    let held = state.scratch + bytes;
    let nothing = Seq::<u8>::empty();
    assert(held =~= encoded.subrange(0, (pos + n) as int));
    if pos + n < encoded.len() {
        lemma_decode_prefix(head, pos + n);
    } else {
        assert(held =~= encoded + nothing);
        lemma_decode_encode(head, nothing);
    }
}

/// Payload bytes that arrive reach the caller unmasked, and leave the
/// receiving half on the frame.
pub proof fn lemma_payload_step(
    state: ReadModel,
    head: FrameHead,
    payload: Seq<u8>,
    opened: Option<OpCode>,
    before: nat,
    n: nat,
)
    requires
        head.length == payload.len(),
        reading_at(state, head, opened, head.spec_encode().len() + before),
        0 < n,
        before + n <= payload.len(),
    ensures
        ({
            let bytes = wire_payload(payload, head.mask).subrange(
                before as int,
                (before + n) as int,
            );
            let (next, plain) = state.accept_payload(bytes);
            plain == payload.subrange(before as int, (before + n) as int) && reading_at(
                next,
                head,
                opened,
                head.spec_encode().len() + before + n,
            )
        }),
{
    reveal(reading_at);
    let bytes = wire_payload(payload, head.mask).subrange(before as int, (before + n) as int);
    assert(state.consumed() == before);
    match head.mask {
        Some(key) => {
            lemma_mask_subrange(payload, key, 0, before as int, (before + n) as int);
            lemma_mask_twice(payload.subrange(before as int, (before + n) as int), key, before);
        },
        None => {},
    }
}

/// One read keeps the receiving half on the frame, of which the first
/// `avail` bytes have reached the source so far: it takes some of the
/// bytes that come next, reports no error, and hands the caller exactly
/// the payload that lies among the bytes it took. Unless the caller's
/// buffer is empty or the source gives nothing, it takes at least one byte.
pub proof fn lemma_read_call(
    state: ReadModel,
    head: FrameHead,
    payload: Seq<u8>,
    opened: Option<OpCode>,
    pos: nat,
    avail: nat,
    buf_len: nat,
    limit: nat,
)
    requires
        !head.opcode.spec_is_control(),
        head.length == payload.len(),
        reading_at(state, head, opened, pos),
        pos <= avail <= wire_frame(head, payload).len(),
    ensures
        ({
            let frame = wire_frame(head, payload);
            let head_len = head.spec_encoded_len();
            let call = read_call(
                state,
                head.mask.is_some(),
                frame.subrange(pos as int, avail as int),
                buf_len,
                limit,
            );
            &&& call.error.is_none()
            &&& pos + call.consumed <= avail
            &&& reading_at(call.state, head, opened, pos + call.consumed)
            &&& call.delivered == payload.subrange(
                payload_before(head_len, pos) as int,
                payload_before(head_len, pos + call.consumed) as int,
            )
            &&& (buf_len > 0 && limit > 0 && pos < avail) ==> call.consumed > 0
        }),
{
    reveal(reading_at);
    reveal(read_call);
    reveal(wire_frame);
    lemma_encoded_len(head);
    let frame = wire_frame(head, payload);
    let encoded = head.spec_encode();
    let sent = wire_payload(payload, head.mask);
    let head_len = encoded.len();
    let wire = frame.subrange(pos as int, avail as int);
    let nothing = Seq::<u8>::empty();
    assert(sent.len() == payload.len());
    assert(frame.len() == head_len + payload.len());
    assert(payload.subrange(
        payload_before(head_len, pos) as int,
        payload_before(head_len, pos) as int,
    ) =~= nothing);
    if buf_len == 0 {
    } else if pos < head_len {
        lemma_head_want(state, head, opened, pos);
        let n = least(state.fill_want(), limit, wire.len());
        if n > 0 {
            assert(wire.subrange(0, n as int) =~= encoded.subrange(pos as int, (pos + n) as int));
            lemma_head_step(state, head, opened, pos, n);
        } else {
            assert(wire.subrange(0, 0) =~= nothing);
        }
    } else if pos < head_len + payload.len() {
        let before = (pos - head_len) as nat;
        let n = least(state.payload_want(buf_len), limit, wire.len());
        if n > 0 {
            assert(wire.subrange(0, n as int) =~= sent.subrange(
                before as int,
                (before + n) as int,
            ));
            lemma_payload_step(state, head, payload, opened, before, n);
        } else {
            assert(wire.subrange(0, 0) =~= nothing);
        }
    } else {
        assert(wire.subrange(0, 0) =~= nothing);
    }
}

/// The receiving half is never further than the end of the frame.
pub proof fn lemma_reading_bound(state: ReadModel, head: FrameHead, opened: Option<OpCode>, pos: nat)
    requires
        reading_at(state, head, opened, pos),
    ensures
        pos <= head.spec_encoded_len() + head.length,
{
    reveal(reading_at);
    lemma_encoded_len(head);
}

/// Whether every call comes with room in the caller's buffer and with a
/// source that gives at least one byte.
pub open spec fn all_positive(calls: Seq<(nat, nat)>) -> bool {
    forall|i: int| 0 <= i < calls.len() ==> (#[trigger] calls[i]).0 > 0 && calls[i].1 > 0
}

/// Any sequence of reads keeps the receiving half on the frame, of which
/// the first `avail` bytes have reached the source: the caller is handed
/// exactly the payload that lies among the bytes taken off the wire, in
/// order, whatever the sizes of the buffers and the limits of the source.
/// Where none of these is zero, every read takes at least one byte until
/// the source has no more.
pub proof fn lemma_read_run(
    state: ReadModel,
    head: FrameHead,
    payload: Seq<u8>,
    opened: Option<OpCode>,
    pos: nat,
    avail: nat,
    calls: Seq<(nat, nat)>,
)
    requires
        !head.opcode.spec_is_control(),
        head.length == payload.len(),
        reading_at(state, head, opened, pos),
        pos <= avail <= wire_frame(head, payload).len(),
    ensures
        ({
            let frame = wire_frame(head, payload);
            let head_len = head.spec_encoded_len();
            let run = read_run(
                state,
                head.mask.is_some(),
                frame.subrange(pos as int, avail as int),
                calls,
            );
            &&& run.error.is_none()
            &&& pos + run.consumed <= avail
            &&& reading_at(run.state, head, opened, pos + run.consumed)
            &&& run.delivered == payload.subrange(
                payload_before(head_len, pos) as int,
                payload_before(head_len, pos + run.consumed) as int,
            )
            &&& all_positive(calls) ==> (run.consumed >= calls.len() || pos + run.consumed
                == avail)
        }),
    decreases calls.len(),
{
    let frame = wire_frame(head, payload);
    let head_len = head.spec_encoded_len();
    let wire = frame.subrange(pos as int, avail as int);
    let expects_masked = head.mask.is_some();
    let from = payload_before(head_len, pos);
    lemma_frame_len(head, payload);
    if calls.len() == 0 {
        assert(payload.subrange(from as int, from as int) =~= Seq::<u8>::empty());
    } else {
        lemma_read_call(state, head, payload, opened, pos, avail, calls[0].0, calls[0].1);
        let first = read_call(state, expects_masked, wire, calls[0].0, calls[0].1);
        let mid = pos + first.consumed;
        lemma_read_run(first.state, head, payload, opened, mid, avail, calls.drop_first());
        assert(wire.subrange(first.consumed as int, wire.len() as int) =~= frame.subrange(
            mid as int,
            avail as int,
        ));
        let rest = read_run(
            first.state,
            expects_masked,
            frame.subrange(mid as int, avail as int),
            calls.drop_first(),
        );
        let via = payload_before(head_len, mid);
        let to = payload_before(head_len, mid + rest.consumed);
        assert(payload.subrange(from as int, via as int) + payload.subrange(via as int, to as int)
            =~= payload.subrange(from as int, to as int));
        if all_positive(calls) {
            assert(calls[0].0 > 0 && calls[0].1 > 0);
            assert forall|i: int| 0 <= i < calls.drop_first().len() implies (
            #[trigger] calls.drop_first()[i]).0 > 0 && calls.drop_first()[i].1 > 0 by {
                assert(calls.drop_first()[i] == calls[i + 1]);
            }
        }
    }
}

/// A frame read from its first byte on, when its first `avail` bytes have
/// reached the source: a data frame that is masked as the receiving role
/// expects reaches the caller unchanged, as far as it has come.
///
/// Whatever the sizes of the caller's buffers and the limits of the source
/// in each call, no read fails, and the bytes handed out are the start of
/// the payload: all of the payload that lies among the bytes taken off the
/// wire. When the whole frame is through, they are the whole payload, and
/// the frame is listed with its opcode and final flag. With no size and no
/// limit at zero, as many reads as the source has bytes are enough to take
/// them all.
pub proof fn lemma_frame_read_back(
    head: FrameHead,
    payload: Seq<u8>,
    expects_masked: bool,
    avail: nat,
    calls: Seq<(nat, nat)>,
)
    requires
        !head.opcode.spec_is_control(),
        head.length == payload.len(),
        head.mask.is_some() == expects_masked,
        avail <= wire_frame(head, payload).len(),
    ensures
        ({
            let frame = wire_frame(head, payload);
            let run = read_run(
                ReadModel::initial(),
                expects_masked,
                frame.subrange(0, avail as int),
                calls,
            );
            &&& run.error.is_none()
            &&& run.consumed <= avail
            &&& run.delivered.len() == payload_before(head.spec_encoded_len(), run.consumed)
            &&& run.delivered.len() <= payload.len()
            &&& run.delivered == payload.subrange(0, run.delivered.len() as int)
            &&& run.consumed == frame.len() ==> {
                &&& run.delivered == payload
                &&& run.state.last == Some((head.opcode, head.fin))
                &&& run.state.frame.is_none()
            }
            &&& (all_positive(calls) && calls.len() >= avail) ==> run.consumed == avail
        }),
{
    let frame = wire_frame(head, payload);
    let encoded = head.spec_encode();
    lemma_encoded_len(head);
    lemma_frame_len(head, payload);
    assert(encoded.subrange(0, 0) =~= Seq::<u8>::empty());
    assert(reading_at(ReadModel::initial(), head, None, 0)) by {
        reveal(reading_at);
    }
    lemma_read_run(ReadModel::initial(), head, payload, None, 0, avail, calls);
    let run = read_run(ReadModel::initial(), expects_masked, frame.subrange(0, avail as int), calls);
    if run.consumed == frame.len() {
        assert(payload.subrange(0, payload.len() as int) =~= payload);
        assert(run.state.last == Some((head.opcode, head.fin)) && run.state.frame.is_none()) by {
            reveal(reading_at);
        }
    }
}

/// What one write, or a sequence of writes, has come to.
pub struct WriteRun {
    /// The sending half afterwards.
    pub state: WriteModel,
    /// The bytes that the sink took, in order.
    pub wire: Seq<u8>,
    /// Number of bytes of the caller's payload that the writes reported
    /// as accepted.
    pub accepted: nat,
    /// The error that ended the sequence, if one did.
    pub error: Option<Error>,
}

/// The smaller of two numbers.
pub open spec fn lesser(a: nat, b: nat) -> nat {
    if a <= b {
        a
    } else {
        b
    }
}

/// One write of the application, which offers `payload` for a frame of
/// kind `opcode` with final flag `fin`, while `mask` is the mask that the
/// role has made for this call and `limit` is the most that goes out in one
/// operation.
#[verifier::opaque]
pub open spec fn write_call(
    state: WriteModel,
    mask: Option<[u8; 4]>,
    opcode: OpCode,
    fin: bool,
    payload: Seq<u8>,
    limit: nat,
) -> WriteRun {
    let (ready, plan) = state.prepare(mask, opcode, fin, payload.len());
    match plan {
        WritePlan::Return(outcome) => WriteRun {
            state: ready,
            wire: Seq::empty(),
            accepted: 0,
            error: match outcome {
                Ok(_) => None,
                Err(error) => Some(error),
            },
        },
        WritePlan::Staged => {
            let n = lesser(ready.staged.len(), limit);
            WriteRun {
                state: ready.commit_staged(n),
                wire: ready.staged.subrange(0, n as int),
                accepted: 0,
                error: None,
            }
        },
        _ => {
            let n = lesser(ready.payload_want(payload.len()), limit);
            WriteRun {
                state: ready.commit_payload(n),
                wire: ready.wire_chunk(payload.subrange(0, n as int)),
                accepted: n,
                error: None,
            }
        },
    }
}

/// A sequence of writes of the application, one for each pair in `calls`:
/// the mask that the role has made for the call, and the limit of the sink
/// in it. Each write offers what the writes before it have not accepted.
/// The first error ends the sequence.
pub open spec fn write_run(
    state: WriteModel,
    opcode: OpCode,
    fin: bool,
    payload: Seq<u8>,
    calls: Seq<(Option<[u8; 4]>, nat)>,
) -> WriteRun
    decreases calls.len(),
{
    if calls.len() == 0 {
        WriteRun { state, wire: Seq::empty(), accepted: 0, error: None }
    } else {
        let first = write_call(state, calls[0].0, opcode, fin, payload, calls[0].1);
        if first.error.is_some() || first.accepted > payload.len() {
            first
        } else {
            let rest = write_run(
                first.state,
                opcode,
                fin,
                payload.subrange(first.accepted as int, payload.len() as int),
                calls.drop_first(),
            );
            WriteRun {
                state: rest.state,
                wire: first.wire + rest.wire,
                accepted: first.accepted + rest.accepted,
                error: rest.error,
            }
        }
    }
}

/// Nothing waits to go out between frames, and no close frame has gone or
/// is going out.
pub open spec fn quiet(state: WriteModel) -> bool {
    &&& !state.closed
    &&& !state.closing
    &&& state.pong.is_none()
    &&& !state.ping
    &&& state.close.is_none()
}

/// The sending half has started the frame with this head and put exactly
/// its first `pos` bytes on the wire.
#[verifier::opaque]
pub open spec fn writing_at(state: WriteModel, head: FrameHead, pos: nat) -> bool {
    let encoded = head.spec_encode();
    &&& quiet(state)
    &&& 0 < head.length
    &&& pos <= encoded.len() + head.length
    &&& if pos < encoded.len() {
        &&& state.staged == encoded.subrange(pos as int, encoded.len() as int)
        &&& state.frame == Some(head)
        &&& state.remaining == head.length
    } else {
        &&& state.staged == Seq::<u8>::empty()
        &&& if pos < encoded.len() + head.length {
            state.frame == Some(head) && state.remaining == encoded.len() + head.length - pos
        } else {
            state.frame.is_none() && state.remaining == 0
        }
    }
}

/// The sending half is never further than the end of the frame.
pub proof fn lemma_writing_bound(state: WriteModel, head: FrameHead, pos: nat)
    requires
        writing_at(state, head, pos),
    ensures
        pos <= head.spec_encoded_len() + head.length,
        0 < head.length,
{
    reveal(writing_at);
    lemma_encoded_len(head);
}

/// While the head is going out, a write hands staged bytes to the sink
/// and leaves the state as it is until the sink has taken some.
pub proof fn lemma_write_head_step(
    state: WriteModel,
    head: FrameHead,
    pos: nat,
    mask: Option<[u8; 4]>,
    offered: nat,
    n: nat,
)
    requires
        writing_at(state, head, pos),
        pos < head.spec_encode().len(),
        n <= head.spec_encode().len() - pos,
    ensures
        state.prepare(mask, head.opcode, head.fin, offered) == (state, WritePlan::Staged),
        state.staged.len() == head.spec_encode().len() - pos,
        state.staged.subrange(0, n as int) == head.spec_encode().subrange(
            pos as int,
            (pos + n) as int,
        ),
        writing_at(state.commit_staged(n), head, pos + n),
{
    reveal(writing_at);
    let encoded = head.spec_encode();
    let head_len = encoded.len();
    assert(state.staged.subrange(0, n as int) =~= encoded.subrange(pos as int, (pos + n) as int));
    assert(state.staged.subrange(n as int, state.staged.len() as int) =~= encoded.subrange(
        (pos + n) as int,
        head_len as int,
    ));
    assert(encoded.subrange(head_len as int, head_len as int) =~= Seq::<u8>::empty());
}

/// While the payload is going out, a write hands the next bytes of it to
/// the sink, masked as the frame demands.
pub proof fn lemma_write_payload_step(
    state: WriteModel,
    head: FrameHead,
    payload: Seq<u8>,
    before: nat,
    mask: Option<[u8; 4]>,
    n: nat,
)
    requires
        head.length == payload.len(),
        writing_at(state, head, head.spec_encode().len() + before),
        before < payload.len(),
        n <= payload.len() - before,
    ensures
        ({
            let offered = (payload.len() - before) as nat;
            let (ready, plan) = state.prepare(mask, head.opcode, head.fin, offered);
            &&& ready == state
            &&& plan != WritePlan::Staged
            &&& !(plan is Return)
            &&& state.payload_want(offered) == offered
            &&& state.wire_chunk(payload.subrange(before as int, (before + n) as int))
                == wire_payload(payload, head.mask).subrange(before as int, (before + n) as int)
            &&& writing_at(state.commit_payload(n), head, head.spec_encode().len() + before + n)
        }),
{
    reveal(writing_at);
    assert(state.consumed() == before);
    match head.mask {
        Some(key) => {
            lemma_mask_subrange(payload, key, 0, before as int, (before + n) as int);
        },
        None => {},
    }
}

/// When the frame is through, a write that offers nothing does nothing.
pub proof fn lemma_write_done(state: WriteModel, head: FrameHead, mask: Option<[u8; 4]>)
    requires
        writing_at(state, head, head.spec_encode().len() + head.length as nat),
    ensures
        state.prepare(mask, head.opcode, head.fin, 0) == (
            state,
            WritePlan::Return(Ok::<usize, Error>(0)),
        ),
{
    reveal(writing_at);
}

/// One write keeps the sending half on the frame: what it puts on the
/// wire are the bytes of the frame that come next, and what it reports as
/// accepted is the payload among them. Unless the sink takes nothing, at
/// least one byte goes out. The mask offered in the call plays no part: the
/// frame keeps the one it was started with.
pub proof fn lemma_write_call(
    state: WriteModel,
    head: FrameHead,
    payload: Seq<u8>,
    pos: nat,
    mask: Option<[u8; 4]>,
    limit: nat,
)
    requires
        head.length == payload.len(),
        writing_at(state, head, pos),
    ensures
        ({
            let frame = wire_frame(head, payload);
            let head_len = head.spec_encoded_len();
            let from = payload_before(head_len, pos);
            let call = write_call(
                state,
                mask,
                head.opcode,
                head.fin,
                payload.subrange(from as int, payload.len() as int),
                limit,
            );
            &&& call.error.is_none()
            &&& pos + call.wire.len() <= frame.len()
            &&& call.wire == frame.subrange(pos as int, (pos + call.wire.len()) as int)
            &&& writing_at(call.state, head, pos + call.wire.len())
            &&& from + call.accepted == payload_before(head_len, pos + call.wire.len())
            &&& (limit > 0 && pos < frame.len()) ==> call.wire.len() > 0
        }),
{
    reveal(write_call);
    lemma_writing_bound(state, head, pos);
    lemma_frame_len(head, payload);
    lemma_encoded_len(head);
    let frame = wire_frame(head, payload);
    let encoded = head.spec_encode();
    let sent = wire_payload(payload, head.mask);
    let head_len = encoded.len();
    let from = payload_before(head_len, pos);
    let rest = payload.subrange(from as int, payload.len() as int);
    let nothing = Seq::<u8>::empty();
    assert(frame == encoded + sent) by {
        reveal(wire_frame);
    }
    let call = write_call(state, mask, head.opcode, head.fin, rest, limit);
    if pos < head_len {
        let n = lesser((head_len - pos) as nat, limit);
        lemma_write_head_step(state, head, pos, mask, rest.len(), n);
        assert(encoded.subrange(pos as int, (pos + n) as int) =~= frame.subrange(
            pos as int,
            (pos + n) as int,
        ));
        assert(call.wire.len() == n);
    } else if pos < head_len + payload.len() {
        let n = lesser(rest.len(), limit);
        lemma_write_payload_step(state, head, payload, from, mask, n);
        assert(rest.subrange(0, n as int) =~= payload.subrange(from as int, (from + n) as int));
        assert(sent.subrange(from as int, (from + n) as int) =~= frame.subrange(
            pos as int,
            (pos + n) as int,
        ));
        assert(call.wire.len() == n);
    } else {
        lemma_write_done(state, head, mask);
        assert(rest.len() == 0);
        assert(frame.subrange(pos as int, pos as int) =~= nothing);
    }
}

/// Whether the sink takes at least one byte in every call.
pub open spec fn all_taking(calls: Seq<(Option<[u8; 4]>, nat)>) -> bool {
    forall|i: int| 0 <= i < calls.len() ==> (#[trigger] calls[i]).1 > 0
}

/// Any sequence of writes keeps the sending half on the frame: what goes
/// on the wire are the bytes of the frame that come next, in order, and
/// what is reported as accepted is the payload among them, whatever the
/// limits of the sink. Where no limit is zero, every write puts at least
/// one byte on the wire until the frame is through.
pub proof fn lemma_write_run(
    state: WriteModel,
    head: FrameHead,
    payload: Seq<u8>,
    pos: nat,
    calls: Seq<(Option<[u8; 4]>, nat)>,
)
    requires
        head.length == payload.len(),
        writing_at(state, head, pos),
    ensures
        ({
            let frame = wire_frame(head, payload);
            let head_len = head.spec_encoded_len();
            let from = payload_before(head_len, pos);
            let run = write_run(
                state,
                head.opcode,
                head.fin,
                payload.subrange(from as int, payload.len() as int),
                calls,
            );
            &&& run.error.is_none()
            &&& pos + run.wire.len() <= frame.len()
            &&& run.wire == frame.subrange(pos as int, (pos + run.wire.len()) as int)
            &&& writing_at(run.state, head, pos + run.wire.len())
            &&& from + run.accepted == payload_before(head_len, pos + run.wire.len())
            &&& all_taking(calls) ==> (run.wire.len() >= calls.len() || pos + run.wire.len()
                == frame.len())
        }),
    decreases calls.len(),
{
    let frame = wire_frame(head, payload);
    let head_len = head.spec_encoded_len();
    let from = payload_before(head_len, pos);
    let offered = payload.subrange(from as int, payload.len() as int);
    lemma_frame_len(head, payload);
    lemma_writing_bound(state, head, pos);
    if calls.len() == 0 {
        assert(frame.subrange(pos as int, pos as int) =~= Seq::<u8>::empty());
    } else {
        lemma_write_call(state, head, payload, pos, calls[0].0, calls[0].1);
        let first = write_call(state, calls[0].0, head.opcode, head.fin, offered, calls[0].1);
        let mid = pos + first.wire.len();
        let via = payload_before(head_len, mid);
        lemma_write_run(first.state, head, payload, mid, calls.drop_first());
        assert(offered.subrange(first.accepted as int, offered.len() as int) =~= payload.subrange(
            via as int,
            payload.len() as int,
        ));
        let rest = write_run(
            first.state,
            head.opcode,
            head.fin,
            payload.subrange(via as int, payload.len() as int),
            calls.drop_first(),
        );
        assert(frame.subrange(pos as int, mid as int) + frame.subrange(
            mid as int,
            (mid + rest.wire.len()) as int,
        ) =~= frame.subrange(pos as int, (mid + rest.wire.len()) as int));
        if all_taking(calls) {
            assert(calls[0].1 > 0);
            assert forall|i: int| 0 <= i < calls.drop_first().len() implies (
            #[trigger] calls.drop_first()[i]).1 > 0 by {
                assert(calls.drop_first()[i] == calls[i + 1]);
            }
        }
    }
}

/// The first write of a frame: between frames, with nothing waiting to
/// go out, a write that offers payload starts a frame of exactly the
/// length offered, masked with the mask of this call, and puts the first
/// bytes of its head on the wire.
pub proof fn lemma_write_start(
    state: WriteModel,
    opcode: OpCode,
    fin: bool,
    payload: Seq<u8>,
    mask: Option<[u8; 4]>,
    limit: nat,
)
    requires
        quiet(state),
        state.at_boundary(),
        0 < payload.len() <= u64::MAX,
    ensures
        ({
            let head = FrameHead { fin, opcode, mask, length: payload.len() as u64 };
            let frame = wire_frame(head, payload);
            let call = write_call(state, mask, opcode, fin, payload, limit);
            &&& call.error.is_none()
            &&& call.accepted == 0
            &&& call.wire.len() <= head.spec_encoded_len()
            &&& call.wire == frame.subrange(0, call.wire.len() as int)
            &&& writing_at(call.state, head, call.wire.len())
            &&& limit > 0 ==> call.wire.len() > 0
        }),
{
    reveal(writing_at);
    reveal(write_call);
    reveal(wire_frame);
    let head = FrameHead { fin, opcode, mask, length: payload.len() as u64 };
    let encoded = head.spec_encode();
    lemma_encoded_len(head);
    let n = lesser(encoded.len(), limit);
    assert(encoded.subrange(0, n as int) =~= wire_frame(head, payload).subrange(0, n as int));
    assert(encoded.subrange(encoded.len() as int, encoded.len() as int) =~= Seq::<u8>::empty());
}

/// A frame written from its first byte on: between frames, with nothing
/// waiting to go out, a sequence of writes that offer a payload puts that
/// payload on the wire as one frame, and nothing else.
///
/// Whatever the limits of the sink in each call, no write fails, what is
/// on the wire is the start of the frame, and the payload bytes among it
/// are those reported as accepted. The whole payload is accepted exactly
/// when the whole frame is on the wire, and the sending half then stands
/// between frames again. With no limit at zero, as many writes as the frame
/// has bytes are enough for that.
pub proof fn lemma_frame_written(
    state: WriteModel,
    opcode: OpCode,
    fin: bool,
    payload: Seq<u8>,
    calls: Seq<(Option<[u8; 4]>, nat)>,
)
    requires
        quiet(state),
        state.at_boundary(),
        0 < payload.len() <= u64::MAX,
        calls.len() > 0,
    ensures
        ({
            let head = FrameHead { fin, opcode, mask: calls[0].0, length: payload.len() as u64 };
            let frame = wire_frame(head, payload);
            let run = write_run(state, opcode, fin, payload, calls);
            &&& run.error.is_none()
            &&& run.wire.len() <= frame.len()
            &&& run.wire == frame.subrange(0, run.wire.len() as int)
            &&& run.accepted == payload_before(head.spec_encoded_len(), run.wire.len())
            &&& run.accepted == payload.len() <==> run.wire == frame
            &&& run.wire == frame ==> quiet(run.state) && run.state.at_boundary()
            &&& (all_taking(calls) && calls.len() >= frame.len()) ==> run.wire == frame
        }),
{
    let head = FrameHead { fin, opcode, mask: calls[0].0, length: payload.len() as u64 };
    let frame = wire_frame(head, payload);
    let head_len = head.spec_encoded_len();
    lemma_frame_len(head, payload);
    lemma_write_start(state, opcode, fin, payload, calls[0].0, calls[0].1);
    let first = write_call(state, calls[0].0, opcode, fin, payload, calls[0].1);
    let mid = first.wire.len();
    lemma_write_run(first.state, head, payload, mid, calls.drop_first());
    assert(payload.subrange(0, payload.len() as int) =~= payload);
    let rest = write_run(first.state, opcode, fin, payload, calls.drop_first());
    let run = write_run(state, opcode, fin, payload, calls);
    assert(run.wire == first.wire + rest.wire);
    assert(frame.subrange(0, mid as int) + frame.subrange(mid as int, (mid + rest.wire.len()) as int)
        =~= frame.subrange(0, (mid + rest.wire.len()) as int));
    assert(frame.subrange(0, frame.len() as int) =~= frame);
    if all_taking(calls) {
        assert(calls[0].1 > 0);
        assert forall|i: int| 0 <= i < calls.drop_first().len() implies (
        #[trigger] calls.drop_first()[i]).1 > 0 by {
            assert(calls.drop_first()[i] == calls[i + 1]);
        }
    }
    if run.wire == frame {
        assert(quiet(run.state) && run.state.at_boundary()) by {
            reveal(writing_at);
            lemma_encoded_len(head);
        }
    }
}

/// Between frames, with nothing waiting to go out, writes that offer no
/// payload put nothing on the wire and change nothing.
pub proof fn lemma_write_nothing(
    state: WriteModel,
    opcode: OpCode,
    fin: bool,
    calls: Seq<(Option<[u8; 4]>, nat)>,
)
    requires
        quiet(state),
        state.at_boundary(),
    ensures
        ({
            let run = write_run(state, opcode, fin, Seq::<u8>::empty(), calls);
            &&& run.error.is_none()
            &&& run.wire == Seq::<u8>::empty()
            &&& run.accepted == 0
            &&& run.state == state
        }),
    decreases calls.len(),
{
    let nothing = Seq::<u8>::empty();
    if calls.len() > 0 {
        reveal(write_call);
        let first = write_call(state, calls[0].0, opcode, fin, nothing, calls[0].1);
        assert(first.state == state && first.wire == nothing && first.accepted == 0);
        assert(nothing.subrange(0, 0) =~= nothing);
        lemma_write_nothing(state, opcode, fin, calls.drop_first());
        assert(nothing + nothing =~= nothing);
    }
}

/// From one end to the other: what is written through a stream of one
/// role and read through a stream of the role that faces it comes out as
/// it went in.
///
/// A payload is offered to a fresh sending half of role `W` in any
/// sequence of writes, and what these put on the wire is read by a fresh
/// receiving half of role `R` in any sequence of reads. Whatever the
/// limits of the sink and of the source in each call, and whatever the
/// sizes of the reader's buffers, no read fails, and the bytes handed out
/// are the start of the payload. When the reads have taken all that is on
/// the wire, they have handed out exactly the bytes that the writes
/// reported as accepted; once that is the whole payload, nothing is
/// missing, and a payload that is not empty is listed with the opcode and
/// final flag it was written with. Where no size and no limit is zero, as
/// many reads as there are bytes on the wire are enough to take them all.
pub proof fn lemma_round_trip<W: RoleHelper, R: RoleHelper>(
    payload: Seq<u8>,
    opcode: OpCode,
    fin: bool,
    writes: Seq<(Option<[u8; 4]>, nat)>,
    reads: Seq<(nat, nat)>,
)
    requires
        W::masks_outgoing() == R::expects_masked(),
        !opcode.spec_is_control(),
        payload.len() <= u64::MAX,
        forall|i: int| 0 <= i < writes.len() ==> (#[trigger] writes[i]).0.is_some()
            == W::masks_outgoing(),
    ensures
        ({
            let sent = write_run(WriteModel::initial(), opcode, fin, payload, writes);
            let got = read_run(ReadModel::initial(), R::expects_masked(), sent.wire, reads);
            &&& sent.error.is_none()
            &&& got.error.is_none()
            &&& got.consumed <= sent.wire.len()
            &&& got.delivered.len() <= sent.accepted <= payload.len()
            &&& got.delivered == payload.subrange(0, got.delivered.len() as int)
            &&& got.consumed == sent.wire.len() ==> got.delivered.len() == sent.accepted
            &&& (got.consumed == sent.wire.len() && sent.accepted == payload.len()) ==> {
                &&& got.delivered == payload
                &&& payload.len() > 0 ==> got.state.last == Some((opcode, fin))
            }
            &&& (all_positive(reads) && reads.len() >= sent.wire.len()) ==> got.consumed
                == sent.wire.len()
        }),
{
    let sent = write_run(WriteModel::initial(), opcode, fin, payload, writes);
    let nothing = Seq::<u8>::empty();
    if writes.len() == 0 || payload.len() == 0 {
        let head = FrameHead { fin, opcode, mask: None, length: payload.len() as u64 };
        let masked_head = FrameHead { mask: Some([0u8, 0u8, 0u8, 0u8]), ..head };
        let any = if R::expects_masked() {
            masked_head
        } else {
            head
        };
        if payload.len() == 0 {
            assert(payload =~= nothing);
            lemma_write_nothing(WriteModel::initial(), opcode, fin, writes);
        }
        assert(sent.wire =~= wire_frame(any, payload).subrange(0, 0));
        lemma_frame_read_back(any, payload, R::expects_masked(), 0, reads);
        lemma_frame_len(any, payload);
    } else {
        let head = FrameHead { fin, opcode, mask: writes[0].0, length: payload.len() as u64 };
        let frame = wire_frame(head, payload);
        lemma_frame_written(WriteModel::initial(), opcode, fin, payload, writes);
        lemma_frame_len(head, payload);
        lemma_frame_read_back(head, payload, R::expects_masked(), sent.wire.len(), reads);
        let got = read_run(ReadModel::initial(), R::expects_masked(), sent.wire, reads);
        if got.consumed == sent.wire.len() && sent.accepted == payload.len() {
            assert(payload.subrange(0, payload.len() as int) =~= payload);
        }
    }
}

/// The last bytes of a head that is masked otherwise than the role
/// expects end the direction.
pub proof fn lemma_head_refused(
    state: ReadModel,
    head: FrameHead,
    opened: Option<OpCode>,
    pos: nat,
    n: nat,
)
    requires
        head.spec_is_valid(),
        reading_at(state, head, opened, pos),
        0 < n,
        pos + n <= head.spec_encode().len(),
    ensures
        ({
            let bytes = head.spec_encode().subrange(pos as int, (pos + n) as int);
            let (next, outcome) = state.accept_scratch(!head.mask.is_some(), bytes);
            if pos + n < head.spec_encode().len() {
                outcome == Ok::<ReadEvent, Error>(ReadEvent::Nothing) && reading_at(
                    next,
                    head,
                    opened,
                    pos + n,
                )
            } else {
                outcome == Err::<ReadEvent, Error>(Error::Protocol(ProtocolError::MaskMismatch))
                    && next.failed == Some(ProtocolError::MaskMismatch)
            }
        }),
{
    reveal(reading_at);
    let encoded = head.spec_encode();
    let bytes = encoded.subrange(pos as int, (pos + n) as int);
    let held = state.scratch + bytes;
    let nothing = Seq::<u8>::empty();
    assert(held =~= encoded.subrange(0, (pos + n) as int));
    if pos + n < encoded.len() {
        lemma_decode_prefix(head, pos + n);
    } else {
        assert(held =~= encoded + nothing);
        lemma_decode_encode(head, nothing);
    }
}

/// A direction that has failed stays failed: every further read returns
/// the same error, takes nothing off the wire and hands nothing out.
pub proof fn lemma_failure_is_final(
    state: ReadModel,
    expects_masked: bool,
    wire: Seq<u8>,
    calls: Seq<(nat, nat)>,
)
    requires
        state.failed.is_some(),
        calls.len() > 0,
    ensures
        ({
            let run = read_run(state, expects_masked, wire, calls);
            &&& run.state == state
            &&& run.consumed == 0
            &&& run.delivered == Seq::<u8>::empty()
            &&& run.error == Some(Error::Protocol(state.failed.unwrap()))
        }),
{
    reveal(read_call);
}

/// A frame that is masked otherwise than the receiving role expects is
/// refused: a server takes no unmasked frame, a client no masked one.
///
/// Whatever follows the frame on the wire, and however the bytes arrive,
/// not one byte is handed to the caller and not one is taken off the wire
/// beyond the head. The read that takes the last byte of the head fails
/// with `MaskMismatch`, and the direction stays failed; with no buffer size
/// and no limit at zero, that happens within as many reads as the head has
/// bytes.
pub proof fn lemma_wrong_mask_refused(
    state: ReadModel,
    head: FrameHead,
    rest: Seq<u8>,
    opened: Option<OpCode>,
    pos: nat,
    calls: Seq<(nat, nat)>,
)
    requires
        head.spec_is_valid(),
        reading_at(state, head, opened, pos),
        pos < head.spec_encode().len(),
    ensures
        ({
            let wire = (head.spec_encode() + rest).subrange(
                pos as int,
                (head.spec_encode() + rest).len() as int,
            );
            let run = read_run(state, !head.mask.is_some(), wire, calls);
            &&& run.delivered == Seq::<u8>::empty()
            &&& pos + run.consumed <= head.spec_encode().len()
            &&& match run.error {
                None => pos + run.consumed < head.spec_encode().len() && reading_at(
                    run.state,
                    head,
                    opened,
                    pos + run.consumed,
                ),
                Some(error) => error == Error::Protocol(ProtocolError::MaskMismatch)
                    && run.state.failed == Some(ProtocolError::MaskMismatch),
            }
            &&& (all_positive(calls) && pos + calls.len() >= head.spec_encode().len())
                ==> run.error.is_some()
        }),
    decreases calls.len(),
{
    let encoded = head.spec_encode();
    let all = encoded + rest;
    let wire = all.subrange(pos as int, all.len() as int);
    let expects_masked = !head.mask.is_some();
    let nothing = Seq::<u8>::empty();
    if calls.len() > 0 {
        let first = read_call(state, expects_masked, wire, calls[0].0, calls[0].1);
        lemma_head_want(state, head, opened, pos);
        let n = least(state.fill_want(), calls[0].1, wire.len());
        assert(first.delivered == nothing && first.consumed <= n && (first.consumed == n
            || first.consumed == 0) && (calls[0].0 > 0 ==> first.consumed == n)) by {
            reveal(read_call);
            reveal(reading_at);
        }
        if calls[0].0 == 0 || n == 0 {
            assert(first.state.failed.is_none() && first.error.is_none() && first.consumed == 0
                && reading_at(first.state, head, opened, pos)) by {
                reveal(read_call);
                reveal(reading_at);
                assert(wire.subrange(0, 0) =~= nothing);
            }
        } else {
            assert(wire.subrange(0, n as int) =~= encoded.subrange(pos as int, (pos + n) as int));
            lemma_head_refused(state, head, opened, pos, n);
            assert(first.state == state.accept_scratch(
                expects_masked,
                wire.subrange(0, n as int),
            ).0 && (first.error.is_some() <==> pos + n == encoded.len()) && (first.error.is_some()
                ==> first.error == Some(Error::Protocol(ProtocolError::MaskMismatch)))) by {
                reveal(read_call);
                reveal(reading_at);
            }
        }
        if first.error.is_none() {
            let mid = pos + first.consumed;
            assert(wire.subrange(first.consumed as int, wire.len() as int) =~= all.subrange(
                mid as int,
                all.len() as int,
            ));
            lemma_wrong_mask_refused(first.state, head, rest, opened, mid, calls.drop_first());
            if all_positive(calls) {
                assert(calls[0].0 > 0 && calls[0].1 > 0);
                assert forall|i: int| 0 <= i < calls.drop_first().len() implies (
                #[trigger] calls.drop_first()[i]).0 > 0 && calls.drop_first()[i].1 > 0 by {
                    assert(calls.drop_first()[i] == calls[i + 1]);
                }
            }
        }
    }
}

/// What a masked frame shows on the wire: its head declares the key, and
/// its payload differs from the plain one by that key and nothing else,
/// each byte by the key byte whose turn it is.
pub proof fn lemma_wire_masking(head: FrameHead, payload: Seq<u8>, key: [u8; 4])
    requires
        head.spec_is_valid(),
        head.mask == Some(key),
        head.length == payload.len(),
    ensures
        ({
            let frame = wire_frame(head, payload);
            let head_len = head.spec_encoded_len();
            &&& frame.len() == head_len + payload.len()
            &&& spec_decode(frame) == Decoded::Complete(head, head_len)
            &&& forall|i: int|
                0 <= i < payload.len() ==> #[trigger] frame[head_len + i] ^ payload[i] == key@[i
                    % 4]
        }),
{
    reveal(wire_frame);
    let frame = wire_frame(head, payload);
    let head_len = head.spec_encoded_len();
    lemma_encoded_len(head);
    lemma_decode_encode(head, masked(payload, key, 0));
    lemma_mask_difference(payload, key, 0);
    assert forall|i: int| 0 <= i < payload.len() implies #[trigger] frame[head_len + i]
        ^ payload[i] == key@[i % 4] by {
        assert(frame[head_len + i] == masked(payload, key, 0)[i]);
    }
}

} // verus!
