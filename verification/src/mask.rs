//! Payload masking: each byte is combined by exclusive or with one of the
//! four bytes of a key, taken in turn.

use vstd::prelude::*;

verus! {

/// `data` masked with `key`, where the first byte of `data` is the byte
/// number `offset` of its payload.
pub open spec fn masked(data: Seq<u8>, key: [u8; 4], offset: nat) -> Seq<u8> {
    Seq::new(data.len(), |i: int| data[i] ^ key@[(offset + i) % 4])
}

/// The position in the key that follows `n` bytes after position `cursor`.
pub open spec fn spec_advance(cursor: u8, n: nat) -> u8 {
    ((cursor + n) % 4) as u8
}

/// Exclusive or with the same byte twice changes nothing.
proof fn lemma_xor_twice(a: u8, k: u8)
    by (bit_vector)
    ensures
        (a ^ k) ^ k == a,
        (a ^ k) ^ a == k,
{
}

/// Masking is its own inverse: masking with the same key at the same
/// offset gives the data back.
pub proof fn lemma_mask_twice(data: Seq<u8>, key: [u8; 4], offset: nat)
    ensures
        masked(masked(data, key, offset), key, offset) == data,
{
    let twice = masked(masked(data, key, offset), key, offset);
    assert forall|i: int| 0 <= i < data.len() implies twice[i] == data[i] by {
        lemma_xor_twice(data[i], key@[(offset + i) % 4]);
    }
    assert(twice =~= data);
}

/// A masked payload differs from the plain one by the key and nothing else:
/// at every index the two bytes differ by the key byte whose turn it is.
pub proof fn lemma_mask_difference(data: Seq<u8>, key: [u8; 4], offset: nat)
    ensures
        masked(data, key, offset).len() == data.len(),
        forall|i: int|
            0 <= i < data.len() ==> #[trigger] masked(data, key, offset)[i] ^ data[i] == key@[(
            offset + i) % 4],
{
    assert forall|i: int| 0 <= i < data.len() implies #[trigger] masked(data, key, offset)[i]
        ^ data[i] == key@[(offset + i) % 4] by {
        lemma_xor_twice(data[i], key@[(offset + i) % 4]);
    }
}

/// Only the offset's remainder by four matters.
pub proof fn lemma_mask_offset(data: Seq<u8>, key: [u8; 4], offset: nat)
    ensures
        masked(data, key, offset) == masked(data, key, offset % 4),
{
    assert forall|i: int| 0 <= i < data.len() implies #[trigger] masked(data, key, offset)[i]
        == masked(data, key, offset % 4)[i] by {
        assert((offset + i) % 4 == (offset % 4 + i) % 4);
    }
    assert(masked(data, key, offset) =~= masked(data, key, offset % 4));
}

/// Masking piece by piece is masking the whole: a payload may be cut
/// anywhere, as long as the second piece goes on where the first stopped.
pub proof fn lemma_mask_split(a: Seq<u8>, b: Seq<u8>, key: [u8; 4], offset: nat)
    ensures
        masked(a + b, key, offset) == masked(a, key, offset) + masked(b, key, offset + a.len()),
{
    assert(masked(a + b, key, offset) =~= masked(a, key, offset) + masked(
        b,
        key,
        offset + a.len(),
    ));
}

/// A stretch of a masked payload is that stretch of the payload, masked
/// from where it starts.
pub proof fn lemma_mask_subrange(data: Seq<u8>, key: [u8; 4], offset: nat, from: int, to: int)
    requires
        0 <= from <= to <= data.len(),
    ensures
        masked(data, key, offset).subrange(from, to) == masked(
            data.subrange(from, to),
            key,
            offset + from as nat,
        ),
{
    assert(masked(data, key, offset).subrange(from, to) =~= masked(
        data.subrange(from, to),
        key,
        offset + from as nat,
    ));
}

/// The position in the key after `n` more bytes.
pub fn advance(cursor: u8, n: usize) -> (next: u8)
    requires
        cursor < 4,
    ensures
        next == spec_advance(cursor, n as nat),
        next < 4,
{
    ((cursor as usize + n % 4) % 4) as u8
}

/// Masks, or unmasks, the first `n` bytes of `buf` where they are.
/// `cursor` is the position in the key of the first byte; the position
/// after the last one is returned.
pub fn mask_in_place(buf: &mut [u8], n: usize, key: [u8; 4], cursor: u8) -> (next: u8)
    requires
        n <= old(buf)@.len(),
        cursor < 4,
    ensures
        final(buf)@ == masked(old(buf)@.subrange(0, n as int), key, cursor as nat) + old(buf)@.subrange(n as int, old(buf)@.len() as int),
        next == spec_advance(cursor, n as nat),
        next < 4,
{
    let mut i: usize = 0;
    let mut at: u8 = cursor;
    while i < n
        invariant
            i <= n <= buf@.len(),
            buf@.len() == old(buf)@.len(),
            cursor < 4,
            at == spec_advance(cursor, i as nat),
            forall|j: int| 0 <= j < i ==> buf@[j] == old(buf)@[j] ^ key@[(cursor + j) % 4],
            forall|j: int| i <= j < buf@.len() ==> buf@[j] == old(buf)@[j],
        decreases n - i,
    {
        buf[i] = buf[i] ^ key[at as usize];
        at = if at == 3 {
            0
        } else {
            at + 1
        };
        i += 1;
    }
    assert(buf@ =~= masked(old(buf)@.subrange(0, n as int), key, cursor as nat) + old(buf)@.subrange(n as int, old(buf)@.len() as int));
    at
}

/// Writes `src`, masked, into `dst` from index `at` on. `src` is left as
/// it is. `cursor` is the position in the key of the first byte; the
/// position after the last one is returned.
pub fn mask_into(src: &[u8], dst: &mut [u8], at: usize, key: [u8; 4], cursor: u8) -> (next: u8)
    requires
        at + src@.len() <= old(dst)@.len(),
        cursor < 4,
    ensures
        final(dst)@ == old(dst)@.subrange(0, at as int) + masked(src@, key, cursor as nat) + old(dst)@.subrange(at + src@.len(), old(dst)@.len() as int),
        next == spec_advance(cursor, src@.len()),
        next < 4,
{
    let total = dst.len();
    let mut i: usize = 0;
    let mut turn: u8 = cursor;
    while i < src.len()
        invariant
            i <= src@.len(),
            at + src@.len() <= dst@.len() == total,
            dst@.len() == old(dst)@.len(),
            cursor < 4,
            turn == spec_advance(cursor, i as nat),
            forall|j: int| 0 <= j < at ==> dst@[j] == old(dst)@[j],
            forall|j: int|
                at <= j < at + i ==> dst@[j] == src@[j - at] ^ key@[(cursor + (j - at)) % 4],
            forall|j: int| at + i <= j < dst@.len() ==> dst@[j] == old(dst)@[j],
        decreases src@.len() - i,
    {
        dst[at + i] = src[i] ^ key[turn as usize];
        turn = if turn == 3 {
            0
        } else {
            turn + 1
        };
        i += 1;
    }
    assert(dst@ =~= old(dst)@.subrange(0, at as int) + masked(src@, key, cursor as nat) + old(dst)@.subrange(at + src@.len(), old(dst)@.len() as int));
    turn
}

} // verus!
