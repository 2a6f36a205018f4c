//! Little-endian integers inside byte buffers.

use vstd::prelude::*;

verus! {

/// The 16-bit number whose little-endian bytes are `b0`, `b1`.
pub open spec fn le16(b0: u8, b1: u8) -> u16 {
    (b0 + 0x100 * b1) as u16
}

/// The 32-bit number whose little-endian bytes are `b0` to `b3`.
pub open spec fn le32(b0: u8, b1: u8, b2: u8, b3: u8) -> u32 {
    (b0 + 0x100 * b1 + 0x1_0000 * b2 + 0x100_0000 * b3) as u32
}

/// The two little-endian bytes of a number.
pub open spec fn le16_bytes(v: u16) -> Seq<u8> {
    seq![(v % 0x100) as u8, (v / 0x100) as u8]
}

/// The four little-endian bytes of a number.
pub open spec fn le32_bytes(v: u32) -> Seq<u8> {
    seq![
        (v % 0x100) as u8,
        (v / 0x100 % 0x100) as u8,
        (v / 0x1_0000 % 0x100) as u8,
        (v / 0x100_0000) as u8,
    ]
}

/// The 16-bit number stored at `offset`.
pub open spec fn seq_u16(s: Seq<u8>, offset: int) -> u16 {
    le16(s[offset], s[offset + 1])
}

/// The 32-bit number stored at `offset`.
pub open spec fn seq_u32(s: Seq<u8>, offset: int) -> u32 {
    le32(s[offset], s[offset + 1], s[offset + 2], s[offset + 3])
}

/// `s` with the bytes from `offset` on replaced by `data`.
pub open spec fn overlay(s: Seq<u8>, offset: int, data: Seq<u8>) -> Seq<u8> {
    Seq::new(
        s.len(),
        |i: int|
            if offset <= i < offset + data.len() {
                data[i - offset]
            } else {
                s[i]
            },
    )
}

/// `s` with a 16-bit number stored at an offset.
pub open spec fn put_u16(s: Seq<u8>, offset: int, v: u16) -> Seq<u8> {
    overlay(s, offset, le16_bytes(v))
}

/// `s` with a 32-bit number stored at an offset.
pub open spec fn put_u32(s: Seq<u8>, offset: int, v: u32) -> Seq<u8> {
    overlay(s, offset, le32_bytes(v))
}

/// A buffer of zero bytes.
pub open spec fn zeros(n: nat) -> Seq<u8> {
    Seq::new(n, |i: int| 0u8)
}

/// Decoding the bytes of a number gives the number back, and encoding a
/// decoded number gives its bytes back.
pub proof fn lemma_le16_round_trip(v: u16, b0: u8, b1: u8)
    ensures
        le16(le16_bytes(v)[0], le16_bytes(v)[1]) == v,
        le16_bytes(le16(b0, b1)) == seq![b0, b1],
{
    let w = le16(b0, b1);
    assert(w == b0 + 0x100 * b1);
    assert(w % 0x100 == b0);
    assert(w / 0x100 == b1);
    assert(le16_bytes(w) =~= seq![b0, b1]);
}

/// As `lemma_le16_round_trip`, for 32-bit numbers.
pub proof fn lemma_le32_round_trip(v: u32, b0: u8, b1: u8, b2: u8, b3: u8)
    ensures
        ({
            let b = le32_bytes(v);
            le32(b[0], b[1], b[2], b[3]) == v
        }),
        le32_bytes(le32(b0, b1, b2, b3)) == seq![b0, b1, b2, b3],
{
    let w = le32(b0, b1, b2, b3);
    assert(w == b0 + 0x100 * b1 + 0x1_0000 * b2 + 0x100_0000 * b3);
    assert(w % 0x100 == b0);
    assert(w / 0x100 % 0x100 == b1);
    assert(w / 0x1_0000 % 0x100 == b2);
    assert(w / 0x100_0000 == b3);
    assert(le32_bytes(w) =~= seq![b0, b1, b2, b3]);
}

/// A 32-bit field reads back what was stored in it, and a field that does not
/// overlap it keeps its value.
pub proof fn law_put_then_get_u32(s: Seq<u8>, offset: int, v: u32, other: int)
    requires
        0 <= offset,
        offset + 4 <= s.len(),
        0 <= other,
        other + 4 <= s.len(),
    ensures
        seq_u32(put_u32(s, offset, v), offset) == v,
        other + 4 <= offset || offset + 4 <= other ==> seq_u32(put_u32(s, offset, v), other)
            == seq_u32(s, other),
{
    lemma_le32_round_trip(v, 0, 0, 0, 0);
}

/// The number that two little-endian bytes stand for.
pub fn make_u16(b0: u8, b1: u8) -> (v: u16)
    ensures
        v == le16(b0, b1),
{
    b0 as u16 + 0x100 * (b1 as u16)
}

/// The number that four little-endian bytes stand for.
pub fn make_u32(b0: u8, b1: u8, b2: u8, b3: u8) -> (v: u32)
    ensures
        v == le32(b0, b1, b2, b3),
{
    b0 as u32 + 0x100 * (b1 as u32) + 0x1_0000 * (b2 as u32) + 0x100_0000 * (b3 as u32)
}

/// Stores `value` at `offset`.
pub fn set_u16(buf: &mut [u8], offset: usize, value: u16)
    requires
        offset + 2 <= old(buf)@.len(),
    ensures
        final(buf)@ == put_u16(old(buf)@, offset as int, value),
{
    buf[offset] = (value % 0x100) as u8;
    buf[offset + 1] = (value / 0x100) as u8;
    assert(buf@ =~= put_u16(old(buf)@, offset as int, value));
}

/// Stores `value` at `offset`.
pub fn set_u32(buf: &mut [u8], offset: usize, value: u32)
    requires
        offset + 4 <= old(buf)@.len(),
    ensures
        final(buf)@ == put_u32(old(buf)@, offset as int, value),
{
    buf[offset] = (value % 0x100) as u8;
    buf[offset + 1] = (value / 0x100 % 0x100) as u8;
    buf[offset + 2] = (value / 0x1_0000 % 0x100) as u8;
    buf[offset + 3] = (value / 0x100_0000) as u8;
    assert(buf@ =~= put_u32(old(buf)@, offset as int, value));
}

/// The number stored at `offset`.
pub fn get_u32(buf: &[u8], offset: usize) -> (v: u32)
    requires
        offset + 4 <= buf@.len(),
    ensures
        v == seq_u32(buf@, offset as int),
{
    make_u32(buf[offset], buf[offset + 1], buf[offset + 2], buf[offset + 3])
}

/// The number stored at `offset`.
pub fn get_u16(buf: &[u8], offset: usize) -> (v: u16)
    requires
        offset + 2 <= buf@.len(),
    ensures
        v == seq_u16(buf@, offset as int),
{
    make_u16(buf[offset], buf[offset + 1])
}

/// Copies the first `len` bytes of `src` to the start of `dst`.
pub fn memcpy(dst: &mut [u8], src: &[u8], len: usize)
    requires
        len <= old(dst)@.len(),
        len <= src@.len(),
    ensures
        final(dst)@ == overlay(old(dst)@, 0, src@.take(len as int)),
{
    copy_range(dst, 0, src, 0, len)
}

/// Fills the first `len` bytes of `dst` with the low byte of `byte`.
pub fn memset(dst: &mut [u8], byte: i32, len: usize)
    requires
        len <= old(dst)@.len(),
    ensures
        final(dst)@ == overlay(old(dst)@, 0, Seq::new(len as nat, |i: int| low_byte(byte))),
{
    let value: u8 = (byte & 0xff) as u8;
    let mut i: usize = 0;
    while i < len
        invariant
            i <= len <= old(dst)@.len(),
            value == low_byte(byte),
            dst@ == overlay(old(dst)@, 0, Seq::new(i as nat, |j: int| low_byte(byte))),
        decreases len - i,
    {
        dst[i] = value;
        i += 1;
        assert(dst@ =~= overlay(old(dst)@, 0, Seq::new(i as nat, |j: int| low_byte(byte))));
    }
}

/// The low eight bits of `byte`.
pub open spec fn low_byte(byte: i32) -> u8 {
    (byte & 0xff) as u8
}

/// The difference of the first two bytes of `a` and `b` that differ, from `i`
/// on and below `len`; 0 where none do.
pub open spec fn first_difference(a: Seq<u8>, b: Seq<u8>, len: int, i: int) -> int
    decreases len - i,
{
    if i >= len {
        0
    } else if a[i] != b[i] {
        a[i] - b[i]
    } else {
        first_difference(a, b, len, i + 1)
    }
}

/// How the first `len` bytes of `a` compare with those of `b`: the difference
/// of the first two that differ.
pub open spec fn difference(a: Seq<u8>, b: Seq<u8>, len: usize) -> int {
    first_difference(a, b, len as int, 0)
}

/// Whether the first `len` bytes of `a` are those of `b`.
pub open spec fn same_start(a: Seq<u8>, b: Seq<u8>, len: usize) -> bool {
    a.take(len as int) == b.take(len as int)
}

/// Compares the first `len` bytes of two buffers. The sign of the result orders
/// them; it is 0 exactly where they are equal.
pub fn memcmp(lhs: &[u8], rhs: &[u8], len: usize) -> (d: i32)
    requires
        len <= lhs@.len(),
        len <= rhs@.len(),
    ensures
        d == difference(lhs@, rhs@, len),
        d == 0 <==> same_start(lhs@, rhs@, len),
{
    byte_difference(lhs, rhs, len)
}

/// The difference of the first two of `len` bytes that differ.
pub fn byte_difference(lhs: &[u8], rhs: &[u8], len: usize) -> (d: i32)
    requires
        len <= lhs@.len(),
        len <= rhs@.len(),
    ensures
        d == difference(lhs@, rhs@, len),
        d == 0 <==> same_start(lhs@, rhs@, len),
{
    let mut i: usize = 0;
    while i < len
        invariant
            i <= len,
            len <= lhs@.len(),
            len <= rhs@.len(),
            forall|k: int| 0 <= k < i ==> lhs@[k] == rhs@[k],
            first_difference(lhs@, rhs@, len as int, 0) == first_difference(
                lhs@,
                rhs@,
                len as int,
                i as int,
            ),
        decreases len - i,
    {
        let a: u8 = lhs[i];
        let b: u8 = rhs[i];
        if a != b {
            assert(lhs@.take(len as int)[i as int] != rhs@.take(len as int)[i as int]);
            return a as i32 - b as i32;
        }
        i += 1;
    }
    assert(lhs@.take(len as int) =~= rhs@.take(len as int));
    0
}

/// Copies `len` bytes of `src` from `from` on over those of `dst` from `at` on.
pub fn copy_range(dst: &mut [u8], at: usize, src: &[u8], from: usize, len: usize)
    requires
        at + len <= old(dst)@.len(),
        from + len <= src@.len(),
    ensures
        final(dst)@ == overlay(old(dst)@, at as int, src@.subrange(from as int, from + len)),
{
    let (dst_len, src_len): (usize, usize) = (dst.len(), src.len());
    let mut i: usize = 0;
    while i < len
        invariant
            i <= len,
            at + len <= dst_len == old(dst)@.len(),
            from + len <= src_len == src@.len(),
            dst@ == overlay(old(dst)@, at as int, src@.subrange(from as int, from + i)),
        decreases len - i,
    {
        dst[at + i] = src[from + i];
        i += 1;
        assert(dst@ =~= overlay(old(dst)@, at as int, src@.subrange(from as int, from + i)));
    }
    assert(dst@ =~= overlay(old(dst)@, at as int, src@.subrange(from as int, from + len)));
}

/// Whether a buffer has got some of the first of `bytes` and is unchanged behind
/// them.
pub open spec fn is_filled(before: Seq<u8>, after: Seq<u8>, bytes: Seq<u8>) -> bool {
    exists|n: int|
        0 <= n <= bytes.len() && after == overlay(before, 0, #[trigger] bytes.take(n))
}

/// A buffer has got none of the bytes at first.
pub proof fn lemma_filled_none(before: Seq<u8>, bytes: Seq<u8>)
    ensures
        is_filled(before, before, bytes),
{
    assert(before =~= overlay(before, 0, bytes.take(0)));
}

/// A buffer that has the first of the bytes and is unchanged behind them is
/// filled with them.
pub proof fn lemma_filled(before: Seq<u8>, after: Seq<u8>, bytes: Seq<u8>, n: int)
    requires
        0 <= n <= before.len(),
        n <= bytes.len(),
        after.len() == before.len(),
        after.skip(n) == before.skip(n),
        after.take(n) == bytes.take(n),
    ensures
        is_filled(before, after, bytes),
{
    lemma_overlay_take(before, after, n);
}

/// A buffer that has got all of the bytes has got some.
pub proof fn lemma_filled_all(before: Seq<u8>, bytes: Seq<u8>)
    ensures
        is_filled(before, overlay(before, 0, bytes), bytes),
{
    assert(bytes.take(bytes.len() as int) =~= bytes);
}

/// A buffer of which only the first `n` bytes changed is the old one with those
/// laid over it.
pub proof fn lemma_overlay_take(before: Seq<u8>, after: Seq<u8>, n: int)
    requires
        0 <= n <= before.len(),
        after.len() == before.len(),
        after.skip(n) == before.skip(n),
    ensures
        after == overlay(before, 0, after.take(n)),
{
    assert forall|i: int| n <= i < before.len() implies after[i] == before[i] by {
        assert(after.skip(n)[i - n] == before.skip(n)[i - n]);
    }
    assert(after =~= overlay(before, 0, after.take(n)));
}

/// Where the head of a buffer has got some of the bytes, the buffer has.
pub proof fn lemma_filled_head(before: Seq<u8>, head: Seq<u8>, bytes: Seq<u8>)
    requires
        head.len() <= before.len(),
        is_filled(before.take(head.len() as int), head, bytes),
        bytes.len() <= head.len(),
    ensures
        is_filled(before, head + before.skip(head.len() as int), bytes),
{
    let n = choose|n: int|
        0 <= n <= bytes.len() && head == overlay(
            before.take(head.len() as int),
            0,
            #[trigger] bytes.take(n),
        );
    assert(head + before.skip(head.len() as int) =~= overlay(before, 0, bytes.take(n)));
}

} // verus!
