//! Byte buffers: the `bytes` crate as the rest of the library sees it, and
//! integers in network byte order.

use bytes::{Buf, BufMut, BytesMut};
use vstd::prelude::*;

verus! {

/// The number that the first two bytes of `s` spell, most significant byte
/// first.
pub open spec fn be16(s: Seq<u8>) -> int {
    s[0] * 0x100 + s[1]
}

/// The number that the first four bytes of `s` spell, most significant byte
/// first.
pub open spec fn be32(s: Seq<u8>) -> int {
    s[0] * 0x100_0000 + s[1] * 0x1_0000 + s[2] * 0x100 + s[3]
}

/// The four bytes of `n`, most significant byte first.
pub open spec fn be32_bytes(n: u32) -> Seq<u8> {
    seq![
        (n / 0x100_0000) as u8,
        (n / 0x1_0000 % 0x100) as u8,
        (n / 0x100 % 0x100) as u8,
        (n % 0x100) as u8,
    ]
}

/// The low 32 bits of `n`, which is what a cast to `u32` leaves of it.
pub open spec fn low32(n: int) -> u32 {
    (n % 0x1_0000_0000) as u32
}

/// Reading back the four bytes of a number gives the number.
pub proof fn law_be32_round_trip(n: u32)
    ensures
        be32_bytes(n).len() == 4,
        be32(be32_bytes(n)) == n,
{
}

/// Four bytes are the bytes of the number that they spell.
pub proof fn law_be32_bytes_round_trip(s: Seq<u8>)
    requires
        s.len() == 4,
    ensures
        0 <= be32(s) <= u32::MAX,
        be32_bytes(be32(s) as u32) == s,
{
    let n = be32(s) as u32;
    assert(n / 0x100_0000 == s[0]);
    assert(n / 0x1_0000 == s[0] * 0x100 + s[1]);
    assert(n / 0x100 == s[0] * 0x1_0000 + s[1] * 0x100 + s[2]);
    assert(be32_bytes(n) =~= s);
}

/// The four bytes of `n`, most significant byte first.
pub(crate) fn u32_to_be_bytes(n: u32) -> (r: [u8; 4])
    ensures
        r@ == be32_bytes(n),
{
    let r: [u8; 4] = [
        (n / 0x100_0000) as u8,
        (n / 0x1_0000 % 0x100) as u8,
        (n / 0x100 % 0x100) as u8,
        (n % 0x100) as u8,
    ];
    assert(r@ =~= be32_bytes(n));
    r
}

/// The number that four bytes spell, most significant byte first.
pub(crate) fn u32_from_be_bytes(bytes: [u8; 4]) -> (n: u32)
    ensures
        n == be32(bytes@),
{
    (bytes[0] as u32) * 0x100_0000 + (bytes[1] as u32) * 0x1_0000 + (bytes[2] as u32) * 0x100 + (
    bytes[3] as u32)
}

/// Drops all but the low 32 bits.
pub(crate) fn usize_low32(n: usize) -> (r: u32)
    ensures
        r == low32(n as int),
{
    (n as u64 % 0x1_0000_0000) as u32
}

/// Whether two byte strings are the same.
pub(crate) fn bytes_eq(a: &[u8], b: &[u8]) -> (r: bool)
    ensures
        r == (a@ == b@),
{
    if a.len() != b.len() {
        return false;
    }
    let mut i: usize = 0;
    while i < a.len()
        invariant
            i <= a.len(),
            a.len() == b.len(),
            a@.take(i as int) == b@.take(i as int),
        decreases a.len() - i,
    {
        if a[i] != b[i] {
            return false;
        }
        assert(a@.take(i + 1) =~= a@.take(i as int).push(a@[i as int]));
        assert(b@.take(i + 1) =~= b@.take(i as int).push(b@[i as int]));
        i = i + 1;
    }
    assert(a@.take(i as int) =~= a@);
    assert(b@.take(i as int) =~= b@);
    true
}

/// The bytes of `s` from `from` up to `to`.
pub(crate) fn copy_range(s: &[u8], from: usize, to: usize) -> (r: Vec<u8>)
    requires
        from <= to <= s@.len(),
    ensures
        r@ == s@.subrange(from as int, to as int),
{
    let mut r: Vec<u8> = Vec::new();
    let mut i: usize = from;
    while i < to
        invariant
            from <= i <= to <= s@.len(),
            r@ == s@.subrange(from as int, i as int),
        decreases to - i,
    {
        r.push(s[i]);
        assert(s@.subrange(from as int, i + 1) =~= s@.subrange(from as int, i as int).push(
            s@[i as int],
        ));
        i = i + 1;
    }
    r
}

/// The growable byte buffer of the `bytes` crate.
#[verifier::external_type_specification]
#[verifier::external_body]
pub struct ExBytesMut(bytes::BytesMut);

/// The bytes that a buffer holds and that have not been consumed yet.
pub uninterp spec fn buffered(buf: BytesMut) -> Seq<u8>;

/// Whether a buffer holding `len` bytes can take `more` without its capacity
/// running over. The factor two covers bytes consumed earlier, whose room a
/// growing buffer may carry along.
pub open spec fn has_room(len: int, more: int) -> bool {
    2 * (len + more) <= isize::MAX
}

/// `BytesMut::with_capacity`: the new buffer holds nothing.
#[verifier::external_body]
pub(crate) fn buffer_with_capacity(capacity: usize) -> (buf: BytesMut)
    requires
        capacity <= isize::MAX,
    ensures
        buffered(buf).len() == 0,
{
    BytesMut::with_capacity(capacity)
}

/// `BytesMut::len`: how many bytes the buffer holds.
#[verifier::external_body]
pub(crate) fn buffer_len(buf: &BytesMut) -> (n: usize)
    ensures
        n == buffered(*buf).len(),
{
    buf.len()
}

/// The slice that `BytesMut` dereferences to: all the bytes it holds.
#[verifier::external_body]
pub(crate) fn buffer_bytes(buf: &BytesMut) -> (s: &[u8])
    ensures
        s@ == buffered(*buf),
{
    &buf[..]
}

/// `Buf::advance` on a buffer: the first `n` bytes are consumed.
#[verifier::external_body]
pub(crate) fn buffer_advance(buf: &mut BytesMut, n: usize)
    requires
        n <= buffered(*old(buf)).len(),
    ensures
        buffered(*final(buf)) == buffered(*old(buf)).skip(n as int),
{
    buf.advance(n)
}

/// `Buf::get_u8` on a buffer: the first byte is returned and consumed.
#[verifier::external_body]
pub(crate) fn buffer_get_u8(buf: &mut BytesMut) -> (b: u8)
    requires
        buffered(*old(buf)).len() > 0,
    ensures
        b == buffered(*old(buf))[0],
        buffered(*final(buf)) == buffered(*old(buf)).skip(1),
{
    buf.get_u8()
}

/// `BytesMut::reserve`: room is made, and the bytes stay as they are.
#[verifier::external_body]
pub(crate) fn buffer_reserve(buf: &mut BytesMut, additional: usize)
    requires
        has_room(buffered(*old(buf)).len() as int, additional as int),
    ensures
        buffered(*final(buf)) == buffered(*old(buf)),
{
    buf.reserve(additional)
}

/// `BytesMut::extend_from_slice`: the bytes are appended.
#[verifier::external_body]
pub(crate) fn buffer_extend_from_slice(buf: &mut BytesMut, s: &[u8])
    requires
        has_room(buffered(*old(buf)).len() as int, s@.len() as int),
    ensures
        buffered(*final(buf)) == buffered(*old(buf)) + s@,
{
    buf.extend_from_slice(s)
}

/// `BufMut::put_u8` on a buffer: the byte is appended.
#[verifier::external_body]
pub(crate) fn buffer_put_u8(buf: &mut BytesMut, b: u8)
    requires
        has_room(buffered(*old(buf)).len() as int, 1),
    ensures
        buffered(*final(buf)) == buffered(*old(buf)).push(b),
{
    buf.put_u8(b)
}

/// `BufMut::put_slice` on a buffer: the bytes are appended.
#[verifier::external_body]
pub(crate) fn buffer_put_slice(buf: &mut BytesMut, s: &[u8])
    requires
        has_room(buffered(*old(buf)).len() as int, s@.len() as int),
    ensures
        buffered(*final(buf)) == buffered(*old(buf)) + s@,
{
    buf.put_slice(s)
}

/// `BufMut::put_bytes` on a buffer: `n` copies of the byte are appended.
#[verifier::external_body]
pub(crate) fn buffer_put_bytes(buf: &mut BytesMut, b: u8, n: usize)
    requires
        has_room(buffered(*old(buf)).len() as int, n as int),
    ensures
        buffered(*final(buf)) == buffered(*old(buf)) + Seq::new(n as nat, |i: int| b),
{
    buf.put_bytes(b, n)
}

/// `BufMut::put_u32` on a vector: the four bytes of the number are appended,
/// most significant byte first.
#[verifier::external_body]
pub(crate) fn put_u32(v: &mut Vec<u8>, n: u32)
    requires
        old(v)@.len() + 4 <= isize::MAX,
    ensures
        final(v)@ == old(v)@ + be32_bytes(n),
{
    v.put_u32(n)
}

/// `Buf::get_u16` on a slice: the number that the first two bytes spell, most
/// significant byte first; the slice moves past them.
#[verifier::external_body]
pub(crate) fn get_u16(s: &mut &[u8]) -> (n: u16)
    requires
        old(s)@.len() >= 2,
    ensures
        n == be16(old(s)@),
        final(s)@ == old(s)@.skip(2),
{
    s.get_u16()
}

/// `Buf::get_u32` on a slice: the number that the first four bytes spell, most
/// significant byte first; the slice moves past them.
#[verifier::external_body]
pub(crate) fn get_u32(s: &mut &[u8]) -> (n: u32)
    requires
        old(s)@.len() >= 4,
    ensures
        n == be32(old(s)@),
        final(s)@ == old(s)@.skip(4),
{
    s.get_u32()
}

/// Numbers are written in base 256: a byte behind others adds itself to 256 times what
/// they spell.
pub proof fn law_base_256(a: u8, b: u8, c: u8, d: u8)
    ensures
        be16(seq![0, d]) == d,
        be16(seq![c, d]) == 256 * be16(seq![0, c]) + d,
        be32(seq![0, 0, 0, d]) == d,
        be32(seq![a, b, c, d]) == 256 * be32(seq![0, a, b, c]) + d,
{
}

/// Which bytes follow a number does not matter.
pub proof fn law_numbers_in_front(s: Seq<u8>, more: Seq<u8>)
    ensures
        s.len() >= 2 ==> be16(s + more) == be16(s.take(2)),
        s.len() >= 4 ==> be32(s + more) == be32(s.take(4)),
{
}

/// What 32 bits leave of a number: the number itself where it fits, and otherwise what is
/// left after taking away 2^32.
pub proof fn law_low32(n: int)
    ensures
        0 <= n < 0x1_0000_0000 ==> low32(n) == n,
        low32(n + 0x1_0000_0000) == low32(n),
{
}

/// There is room for anything below a gibibyte on every machine, and room for more bytes
/// is room for fewer.
pub proof fn law_room(len: int, more: int, fewer: int)
    requires
        0 <= len,
        0 <= fewer <= more,
    ensures
        len + more < 0x4000_0000 ==> has_room(len, more),
        has_room(len, more) ==> has_room(len, fewer),
        has_room(len, more) ==> len + more <= isize::MAX,
{
}

} // verus!
