//! Frame heads and their wire form.
//!
//! A head is two bytes, then zero, two or eight bytes of extended payload
//! length (big-endian), then the four bytes of the masking key if the frame
//! is masked.

use vstd::prelude::*;

verus! {

/// Largest payload length that is stored in the second byte itself.
pub const MAX_INLINE_LEN: u64 = 125;

/// Largest payload length that is stored in two extension bytes.
pub const MAX_SHORT_LEN: u64 = 65535;

/// Largest payload a control frame may carry.
pub const MAX_CONTROL_LEN: usize = 125;

/// Largest number of bytes a frame head occupies.
pub const MAX_HEAD_LEN: usize = 14;

/// What a frame carries.
#[derive(Clone, Copy, Debug, PartialEq, Eq, Structural)]
pub enum OpCode {
    Continue,
    Text,
    Binary,
    Close,
    Ping,
    Pong,
}

/// The ways in which received bytes can break the protocol.
#[derive(Clone, Copy, Debug, PartialEq, Eq, Structural)]
pub enum ProtocolError {
    /// One of the three reserved bits of the first byte is set.
    ReservedBits,
    /// The opcode is none of the six that are defined.
    ReservedOpCode,
    /// The frame is masked where it must not be, or the reverse.
    MaskMismatch,
    /// The payload length is written in a longer form than it needs.
    LengthEncoding,
    /// A control frame announces more than 125 bytes of payload.
    ControlTooLong,
}

impl OpCode {
    /// The four bits that stand for the opcode on the wire.
    pub open spec fn bits(self) -> u8 {
        match self {
            OpCode::Continue => 0,
            OpCode::Text => 1,
            OpCode::Binary => 2,
            OpCode::Close => 8,
            OpCode::Ping => 9,
            OpCode::Pong => 10,
        }
    }

    /// The opcode that four bits stand for, if they stand for one.
    pub open spec fn from_bits(b: u8) -> Option<OpCode> {
        if b == 0 {
            Some(OpCode::Continue)
        } else if b == 1 {
            Some(OpCode::Text)
        } else if b == 2 {
            Some(OpCode::Binary)
        } else if b == 8 {
            Some(OpCode::Close)
        } else if b == 9 {
            Some(OpCode::Ping)
        } else if b == 10 {
            Some(OpCode::Pong)
        } else {
            None
        }
    }

    /// Close, ping and pong are control frames; the rest carry data.
    pub open spec fn spec_is_control(self) -> bool {
        self == OpCode::Close || self == OpCode::Ping || self == OpCode::Pong
    }

    pub fn to_u8(self) -> (b: u8)
        ensures
            b == self.bits(),
            OpCode::from_bits(b) == Some(self),
    {
        match self {
            OpCode::Continue => 0,
            OpCode::Text => 1,
            OpCode::Binary => 2,
            OpCode::Close => 8,
            OpCode::Ping => 9,
            OpCode::Pong => 10,
        }
    }

    pub fn from_u8(b: u8) -> (r: Option<OpCode>)
        ensures
            r == OpCode::from_bits(b),
    {
        match b {
            0 => Some(OpCode::Continue),
            1 => Some(OpCode::Text),
            2 => Some(OpCode::Binary),
            8 => Some(OpCode::Close),
            9 => Some(OpCode::Ping),
            10 => Some(OpCode::Pong),
            _ => None,
        }
    }

    #[verifier::when_used_as_spec(spec_is_control)]
    pub fn is_control(self) -> (c: bool)
        ensures
            c == self.spec_is_control(),
    {
        match self {
            OpCode::Close => true,
            OpCode::Ping => true,
            OpCode::Pong => true,
            _ => false,
        }
    }
}

/// The head of one frame.
#[derive(Clone, Copy, Debug, PartialEq, Eq)]
pub struct FrameHead {
    /// Whether this frame is the last of its message.
    pub fin: bool,
    pub opcode: OpCode,
    /// The masking key, where the payload is masked.
    pub mask: Option<[u8; 4]>,
    /// Number of payload bytes that follow the head.
    pub length: u64,
}

/// What a run of bytes holds when read as the start of a frame.
pub enum Decoded {
    /// The bytes are a proper prefix of a head, as far as can be told.
    Incomplete,
    /// The bytes cannot start any acceptable frame.
    Invalid(ProtocolError),
    /// The bytes start with this head, which takes up so many of them.
    Complete(FrameHead, nat),
}

/// A length in the two-byte form, most significant byte first.
pub open spec fn short_len_bytes(len: u64) -> Seq<u8> {
    seq![(len / 0x100) as u8, (len % 0x100) as u8]
}

/// A length in the eight-byte form, most significant byte first.
pub open spec fn long_len_bytes(len: u64) -> Seq<u8> {
    seq![
        (len / 0x100_0000_0000_0000) as u8,
        (len / 0x1_0000_0000_0000 % 0x100) as u8,
        (len / 0x100_0000_0000 % 0x100) as u8,
        (len / 0x1_0000_0000 % 0x100) as u8,
        (len / 0x100_0000 % 0x100) as u8,
        (len / 0x1_0000 % 0x100) as u8,
        (len / 0x100 % 0x100) as u8,
        (len % 0x100) as u8,
    ]
}

/// The number that two bytes spell, most significant byte first.
pub open spec fn short_len_value(b: Seq<u8>) -> u64
    recommends
        b.len() == 2,
{
    (b[0] * 0x100 + b[1]) as u64
}

/// The number that eight bytes spell, most significant byte first.
pub open spec fn long_len_value(b: Seq<u8>) -> u64
    recommends
        b.len() == 8,
{
    (b[0] * 0x100_0000_0000_0000 + b[1] * 0x1_0000_0000_0000 + b[2] * 0x100_0000_0000 + b[3]
        * 0x1_0000_0000 + b[4] * 0x100_0000 + b[5] * 0x1_0000 + b[6] * 0x100 + b[7]) as u64
}

/// How many bytes of extended length follow the second byte of a head
/// whose second byte has `len7` in its low seven bits.
pub open spec fn extension_len(len7: u8) -> nat {
    if len7 <= 125 {
        0
    } else if len7 == 126 {
        2
    } else {
        8
    }
}

/// How many bytes a head takes up, told from its second byte alone.
pub open spec fn head_len_from(second: u8) -> nat {
    2 + extension_len(second % 128) + if second >= 128 {
        4nat
    } else {
        0nat
    }
}

/// The seven-bit field that announces a payload length.
pub open spec fn len7_of(length: u64) -> u8 {
    if length <= MAX_INLINE_LEN {
        length as u8
    } else if length <= MAX_SHORT_LEN {
        126
    } else {
        127
    }
}

impl FrameHead {
    /// The bytes of the extended length: none, two or eight.
    pub open spec fn extension(self) -> Seq<u8> {
        if self.length <= MAX_INLINE_LEN {
            Seq::empty()
        } else if self.length <= MAX_SHORT_LEN {
            short_len_bytes(self.length)
        } else {
            long_len_bytes(self.length)
        }
    }

    /// The bytes of the masking key: none or four.
    pub open spec fn key_bytes(self) -> Seq<u8> {
        match self.mask {
            Some(key) => key@,
            None => Seq::empty(),
        }
    }

    /// The first byte: the final flag on top, the opcode in the low four bits.
    pub open spec fn first_byte(self) -> u8 {
        (self.opcode.bits() + if self.fin {
            128int
        } else {
            0int
        }) as u8
    }

    /// The second byte: the mask flag on top, the length field below.
    pub open spec fn second_byte(self) -> u8 {
        (len7_of(self.length) + if self.mask.is_some() {
            128int
        } else {
            0int
        }) as u8
    }

    /// The wire form of the head. The length is always written in the
    /// shortest of the three forms that can hold it.
    pub open spec fn spec_encode(self) -> Seq<u8> {
        seq![self.first_byte(), self.second_byte()] + self.extension() + self.key_bytes()
    }

    /// Number of bytes of the wire form.
    pub open spec fn spec_encoded_len(self) -> nat {
        head_len_from(self.second_byte())
    }

    /// A control frame carries at most 125 bytes.
    pub open spec fn spec_is_valid(self) -> bool {
        self.opcode.spec_is_control() ==> self.length <= MAX_INLINE_LEN
    }
}

/// The payload length that the head in `bytes` announces. `bytes` holds the
/// whole head.
pub open spec fn announced_len(bytes: Seq<u8>) -> u64 {
    let len7 = bytes[1] % 128;
    if len7 <= 125 {
        len7 as u64
    } else if len7 == 126 {
        short_len_value(bytes.subrange(2, 4))
    } else {
        long_len_value(bytes.subrange(2, 10))
    }
}

/// Whether the head in `bytes` writes its length in the shortest form.
pub open spec fn len_is_minimal(bytes: Seq<u8>) -> bool {
    let len7 = bytes[1] % 128;
    let len = announced_len(bytes);
    if len7 <= 125 {
        true
    } else if len7 == 126 {
        len > MAX_INLINE_LEN
    } else {
        len > MAX_SHORT_LEN
    }
}

/// The masking key of the head in `bytes`, which holds the whole head.
pub open spec fn announced_mask(bytes: Seq<u8>) -> Option<[u8; 4]> {
    if bytes[1] >= 128 {
        let at = 2 + extension_len(bytes[1] % 128) as int;
        Some([bytes[at], bytes[at + 1], bytes[at + 2], bytes[at + 3]])
    } else {
        None
    }
}

/// Reads `bytes` as the start of a frame.
///
/// Nothing is decided before two bytes are there. Then the first byte is
/// judged, then the head is awaited in full, then its length is judged.
pub open spec fn spec_decode(bytes: Seq<u8>) -> Decoded {
    if bytes.len() < 2 {
        Decoded::Incomplete
    } else if bytes[0] / 16 % 8 != 0 {
        Decoded::Invalid(ProtocolError::ReservedBits)
    } else if OpCode::from_bits(bytes[0] % 16).is_none() {
        Decoded::Invalid(ProtocolError::ReservedOpCode)
    } else if bytes.len() < head_len_from(bytes[1]) {
        Decoded::Incomplete
    } else if !len_is_minimal(bytes) {
        Decoded::Invalid(ProtocolError::LengthEncoding)
    } else if OpCode::from_bits(bytes[0] % 16).unwrap().spec_is_control() && announced_len(bytes)
        > MAX_INLINE_LEN {
        Decoded::Invalid(ProtocolError::ControlTooLong)
    } else {
        Decoded::Complete(
            FrameHead {
                fin: bytes[0] >= 128,
                opcode: OpCode::from_bits(bytes[0] % 16).unwrap(),
                mask: announced_mask(bytes),
                length: announced_len(bytes),
            },
            head_len_from(bytes[1]),
        )
    }
}

impl FrameHead {
    pub fn new(fin: bool, opcode: OpCode, mask: Option<[u8; 4]>, length: u64) -> (head: FrameHead)
        ensures
            head == (FrameHead { fin, opcode, mask, length }),
    {
        FrameHead { fin, opcode, mask, length }
    }

    /// Number of bytes that `encode` writes.
    pub fn encoded_len(&self) -> (n: usize)
        ensures
            n == self.spec_encoded_len(),
            n == self.spec_encode().len(),
            2 <= n <= MAX_HEAD_LEN,
    {
        let ext: usize = if self.length <= MAX_INLINE_LEN {
            0
        } else if self.length <= MAX_SHORT_LEN {
            2
        } else {
            8
        };
        let key: usize = if self.mask.is_some() {
            4
        } else {
            0
        };
        2 + ext + key
    }

    /// Writes the head at the start of `out` and returns how many bytes it
    /// took. Where `out` is too short for it, nothing is written.
    pub fn encode(&self, out: &mut [u8]) -> (r: Option<usize>)
        ensures
            r.is_some() <==> self.spec_encode().len() <= old(out)@.len(),
            r.is_none() ==> final(out)@ == old(out)@,
            r.is_some() ==> r.unwrap() == self.spec_encode().len() && final(out)@
                == self.spec_encode() + old(out)@.subrange(
                r.unwrap() as int,
                old(out)@.len() as int,
            ),
    {
        let n = self.encoded_len();
        if out.len() < n {
            return None;
        }
        let fin_bit: u8 = if self.fin {
            128
        } else {
            0
        };
        let mask_bit: u8 = if self.mask.is_some() {
            128
        } else {
            0
        };
        let length = self.length;
        out[0] = self.opcode.to_u8() + fin_bit;
        let mut at: usize = 2;
        if length <= MAX_INLINE_LEN {
            out[1] = length as u8 + mask_bit;
        } else if length <= MAX_SHORT_LEN {
            out[1] = 126 + mask_bit;
            let ext = short_len_array(length);
            put_bytes(out, 2, &ext);
            at = 4;
        } else {
            out[1] = 127 + mask_bit;
            let ext = long_len_array(length);
            put_bytes(out, 2, &ext);
            at = 10;
        }
        assert(out@.subrange(0, at as int) =~= seq![self.first_byte(), self.second_byte()]
            + self.extension());
        if let Some(key) = self.mask {
            put_bytes(out, at, &key);
        }
        assert(out@ =~= self.spec_encode() + old(out)@.subrange(n as int, old(out)@.len() as int));
        Some(n)
    }
}

/// The two-byte form of a length, as an array.
fn short_len_array(length: u64) -> (b: [u8; 2])
    requires
        length <= MAX_SHORT_LEN,
    ensures
        b@ == short_len_bytes(length),
{
    let b = [(length / 0x100) as u8, (length % 0x100) as u8];
    assert(b@ =~= short_len_bytes(length));
    b
}

/// The eight-byte form of a length, as an array.
fn long_len_array(length: u64) -> (b: [u8; 8])
    ensures
        b@ == long_len_bytes(length),
{
    let b = [
        (length / 0x100_0000_0000_0000) as u8,
        (length / 0x1_0000_0000_0000 % 0x100) as u8,
        (length / 0x100_0000_0000 % 0x100) as u8,
        (length / 0x1_0000_0000 % 0x100) as u8,
        (length / 0x100_0000 % 0x100) as u8,
        (length / 0x1_0000 % 0x100) as u8,
        (length / 0x100 % 0x100) as u8,
        (length % 0x100) as u8,
    ];
    assert(b@ =~= long_len_bytes(length));
    b
}

/// Copies `src` into `out`, starting at index `at`.
pub fn put_bytes(out: &mut [u8], at: usize, src: &[u8])
    requires
        at + src@.len() <= old(out)@.len(),
    ensures
        final(out)@ == old(out)@.subrange(0, at as int) + src@ + old(out)@.subrange(
            at + src@.len(),
            old(out)@.len() as int,
        ),
{
    let total = out.len();
    let mut i: usize = 0;
    while i < src.len()
        invariant
            i <= src@.len(),
            at + src@.len() <= out@.len() == total,
            out@.len() == old(out)@.len(),
            forall|j: int| 0 <= j < at ==> out@[j] == old(out)@[j],
            forall|j: int| at <= j < at + i ==> out@[j] == src@[j - at],
            forall|j: int| at + i <= j < out@.len() ==> out@[j] == old(out)@[j],
        decreases src@.len() - i,
    {
        out[at + i] = src[i];
        i += 1;
    }
    assert(out@ =~= old(out)@.subrange(0, at as int) + src@ + old(out)@.subrange(
        at + src@.len(),
        old(out)@.len() as int,
    ));
}

/// How many bytes the head takes up whose second byte is `second`.
pub fn head_len(second: u8) -> (n: usize)
    ensures
        n == head_len_from(second),
        2 <= n <= MAX_HEAD_LEN,
{
    let len7 = second % 128;
    let ext: usize = if len7 <= 125 {
        0
    } else if len7 == 126 {
        2
    } else {
        8
    };
    let key: usize = if second >= 128 {
        4
    } else {
        0
    };
    2 + ext + key
}

/// The number spelt by the eight bytes of `bytes` from index 2 on.
fn read_long_len(bytes: &[u8]) -> (v: u64)
    requires
        bytes@.len() >= 10,
    ensures
        v == long_len_value(bytes@.subrange(2, 10)),
{
    let v = (bytes[2] as u64) * 0x100_0000_0000_0000 + (bytes[3] as u64) * 0x1_0000_0000_0000 + (
    bytes[4] as u64) * 0x100_0000_0000 + (bytes[5] as u64) * 0x1_0000_0000 + (bytes[6] as u64)
        * 0x100_0000 + (bytes[7] as u64) * 0x1_0000 + (bytes[8] as u64) * 0x100 + (
    bytes[9] as u64);
    v
}

impl FrameHead {
    /// Reads the head that `bytes` starts with.
    ///
    /// `Ok(None)` asks for more bytes. Otherwise the head comes with the
    /// number of bytes that it took up; what follows them is payload.
    pub fn decode(bytes: &[u8]) -> (r: Result<Option<(FrameHead, usize)>, ProtocolError>)
        ensures
            match spec_decode(bytes@) {
                Decoded::Incomplete => r == Ok::<Option<(FrameHead, usize)>, ProtocolError>(None),
                Decoded::Invalid(e) => r == Err::<Option<(FrameHead, usize)>, ProtocolError>(e),
                Decoded::Complete(head, n) => r == Ok::<
                    Option<(FrameHead, usize)>,
                    ProtocolError,
                >(Some((head, n as usize))),
            },
    {
        if bytes.len() < 2 {
            return Ok(None);
        }
        let first = bytes[0];
        let second = bytes[1];
        if first / 16 % 8 != 0 {
            return Err(ProtocolError::ReservedBits);
        }
        let opcode = match OpCode::from_u8(first % 16) {
            Some(opcode) => opcode,
            None => {
                return Err(ProtocolError::ReservedOpCode);
            },
        };
        let total = head_len(second);
        if bytes.len() < total {
            return Ok(None);
        }
        let len7 = second % 128;
        let length: u64 = if len7 <= 125 {
            len7 as u64
        } else if len7 == 126 {
            (bytes[2] as u64) * 0x100 + (bytes[3] as u64)
        } else {
            read_long_len(bytes)
        };
        if (len7 == 126 && length <= MAX_INLINE_LEN) || (len7 == 127 && length <= MAX_SHORT_LEN) {
            return Err(ProtocolError::LengthEncoding);
        }
        if opcode.is_control() && length > MAX_INLINE_LEN {
            return Err(ProtocolError::ControlTooLong);
        }
        let mask = if second >= 128 {
            let at = total - 4;
            Some([bytes[at], bytes[at + 1], bytes[at + 2], bytes[at + 3]])
        } else {
            None
        };
        let head = FrameHead { fin: first >= 128, opcode, mask, length };
        Ok(Some((head, total)))
    }
}

/// The eight bytes of a length, each weighted by its place, add up to it.
proof fn lemma_long_len_sum(l: u64)
    by (bit_vector)
    ensures
        (l / 0x100_0000_0000_0000) * 0x100_0000_0000_0000 + (l / 0x1_0000_0000_0000 % 0x100)
            * 0x1_0000_0000_0000 + (l / 0x100_0000_0000 % 0x100) * 0x100_0000_0000 + (l
            / 0x1_0000_0000 % 0x100) * 0x1_0000_0000 + (l / 0x100_0000 % 0x100) * 0x100_0000 + (l
            / 0x1_0000 % 0x100) * 0x1_0000 + (l / 0x100 % 0x100) * 0x100 + l % 0x100 == l,
        l / 0x100_0000_0000_0000 < 0x100,
{
}

/// The eight-byte form spells the length it was made from.
pub proof fn lemma_long_len_round_trip(length: u64)
    ensures
        long_len_bytes(length).len() == 8,
        long_len_value(long_len_bytes(length)) == length,
{
    lemma_long_len_sum(length);
}

/// The two-byte form spells the length it was made from.
pub proof fn lemma_short_len_round_trip(length: u64)
    requires
        length <= MAX_SHORT_LEN,
    ensures
        short_len_bytes(length).len() == 2,
        short_len_value(short_len_bytes(length)) == length,
{
}

/// The wire form of a head has the length that its second byte announces.
pub proof fn lemma_encoded_len(head: FrameHead)
    ensures
        head.spec_encode().len() == head.spec_encoded_len(),
        2 <= head.spec_encode().len() <= MAX_HEAD_LEN,
        head.spec_encode()[0] == head.first_byte(),
        head.spec_encode()[1] == head.second_byte(),
{
}

/// Decoding what `encode` wrote gives the head back, whatever follows it on
/// the wire. This holds of every payload length, so also of those on either
/// side of the limits between the three forms: 125 and 126, 65535 and 65536.
pub proof fn lemma_decode_encode(head: FrameHead, rest: Seq<u8>)
    requires
        head.spec_is_valid(),
    ensures
        spec_decode(head.spec_encode() + rest) == Decoded::Complete(
            head,
            head.spec_encode().len(),
        ),
{
    let wire = head.spec_encode() + rest;
    let n = head.spec_encode().len();
    lemma_encoded_len(head);
    lemma_long_len_round_trip(head.length);
    assert(wire[0] == head.first_byte());
    assert(wire[1] == head.second_byte());
    assert(wire[0] % 16 == head.opcode.bits());
    assert(OpCode::from_bits(head.opcode.bits()) == Some(head.opcode));
    assert forall|i: int| 0 <= i < n implies wire[i] == head.spec_encode()[i] by {}
    if head.length > MAX_INLINE_LEN {
        if head.length <= MAX_SHORT_LEN {
            assert(wire.subrange(2, 4) =~= short_len_bytes(head.length));
        } else {
            assert(wire.subrange(2, 10) =~= long_len_bytes(head.length));
        }
    }
    assert(announced_len(wire) == head.length);
    match head.mask {
        Some(key) => {
            let at = 2 + extension_len(wire[1] % 128) as int;
            assert(announced_mask(wire) == Some(
                [wire[at], wire[at + 1], wire[at + 2], wire[at + 3]],
            ));
            assert([wire[at], wire[at + 1], wire[at + 2], wire[at + 3]]@ =~= key@);
        },
        None => {},
    }
    assert(announced_mask(wire) == head.mask);
}

/// As long as a head has not arrived in full, decoding asks for more:
/// every proper prefix of a wire form is incomplete.
pub proof fn lemma_decode_prefix(head: FrameHead, have: nat)
    requires
        have < head.spec_encode().len(),
    ensures
        spec_decode(head.spec_encode().subrange(0, have as int)) == Decoded::Incomplete,
{
    lemma_encoded_len(head);
    let part = head.spec_encode().subrange(0, have as int);
    if have >= 2 {
        assert(part[0] == head.first_byte());
        assert(part[1] == head.second_byte());
        assert(part[0] % 16 == head.opcode.bits());
        assert(OpCode::from_bits(head.opcode.bits()) == Some(head.opcode));
    }
}

} // verus!
