//! Frames: how messages are told apart in the stream of bytes from a peer.
//!
//! A frame is a length in four bytes, most significant byte first, then as many
//! bytes: the tag of the message and its payload. A frame of length zero is a
//! keepalive and carries no message.

use bytes::BytesMut;
use vstd::prelude::*;

use super::message::{
    is_tag_byte, law_tag_bytes, law_tag_bytes_are_distinct, tag_byte, Message, MessageTag,
    MessageView,
};
use crate::buffer::{
    be32, be32_bytes, buffer_advance, buffer_bytes, buffer_extend_from_slice, buffer_get_u8,
    buffer_len, buffer_put_u8, buffer_reserve, buffered, copy_range, has_room,
    law_be32_round_trip, u32_from_be_bytes, u32_to_be_bytes,
};

verus! {

/// The largest frame length taken: a block of 16 KiB and some reserve.
pub const MAX: usize = 17384;

/// Splits a stream of bytes into messages and joins messages into one.
#[derive(Debug)]
pub struct MessageCodec;

/// A frame whose length is above the limit.
#[derive(Debug, Clone, Copy, PartialEq, Eq, Structural)]
pub struct FrameTooLarge {
    pub length: usize,
}

/// What the bytes received so far come to.
#[verifier::ext_equal]
pub enum Received {
    /// No whole message yet.
    Incomplete,
    /// The next frame is longer than allowed.
    TooLarge(int),
    /// A message.
    Complete(MessageView),
}

/// What is received when `s` has arrived, and the bytes that are left after it.
///
/// Keepalives and frames with an unknown tag are passed over.
pub open spec fn received(s: Seq<u8>) -> (Received, Seq<u8>)
    decreases s.len(),
{
    let length = be32(s);
    if s.len() < 4 {
        (Received::Incomplete, s)
    } else if length == 0 {
        received(s.skip(4))
    } else if s.len() == 4 {
        (Received::Incomplete, s)
    } else if length > MAX {
        (Received::TooLarge(length), s)
    } else if s.len() < 4 + length {
        (Received::Incomplete, s)
    } else if !is_tag_byte(s[4]) {
        received(s.skip(4 + length))
    } else {
        (
            Received::Complete(
                MessageView { tag: tag_of(s[4]), payload: s.subrange(5, 4 + length) },
            ),
            s.skip(4 + length),
        )
    }
}

/// The tag that a byte stands for.
pub open spec fn tag_of(b: u8) -> MessageTag
    recommends
        is_tag_byte(b),
{
    choose|tag: MessageTag| tag_byte(tag) == b
}

/// The frame that carries a message.
pub open spec fn frame(m: MessageView) -> Seq<u8> {
    be32_bytes((m.payload.len() + 1) as u32).push(tag_byte(m.tag)) + m.payload
}

impl MessageCodec {
    /// Takes the next message out of `src`, if all of it has arrived.
    pub fn decode(&mut self, src: &mut BytesMut) -> (r: Result<Option<Message>, FrameTooLarge>)
        ensures
            match received(buffered(*old(src))).0 {
                Received::Incomplete => r matches Ok(None),
                Received::TooLarge(length) => r matches Err(e) && e.length == length,
                Received::Complete(message) => r matches Ok(Some(m)) && m@ == message,
            },
            buffered(*final(src)) == received(buffered(*old(src))).1,
            *final(self) == *old(self),
    {
        loop
            invariant
                received(buffered(*src)) == received(buffered(*old(src))),
                *self == *old(self),
            decreases buffered(*src).len(),
        {
            let ghost s = buffered(*src);
            let n: usize = buffer_len(src);
            if n < 4 {
                return Ok(None);
            }
            let all = buffer_bytes(src);
            let length: usize = u32_from_be_bytes([all[0], all[1], all[2], all[3]]) as usize;
            assert(length == be32(s));
            if length == 0 {
                buffer_advance(src, 4);
                continue;
            }
            if n < 5 {
                return Ok(None);
            }
            if length > MAX {
                return Err(FrameTooLarge { length });
            }
            if n < 4 + length {
                buffer_reserve(src, 4 + length - n);
                return Ok(None);
            }
            buffer_advance(src, 4);
            let tag: u8 = buffer_get_u8(src);
            assert(s.skip(4).skip(1) =~= s.skip(5));
            assert(s.skip(5).skip(length - 1) =~= s.skip(4 + length));
            match MessageTag::from_byte(tag) {
                None => {
                    buffer_advance(src, length - 1);
                    continue;
                },
                Some(tag) => {
                    let payload = copy_range(buffer_bytes(src), 0, length - 1);
                    assert(s.skip(5).subrange(0, length - 1) =~= s.subrange(5, 4 + length));
                    buffer_advance(src, length - 1);
                    return Ok(Some(Message { tag, payload }));
                },
            }
        }
    }

    /// Appends the frame of a message to `dst`.
    pub fn encode(&mut self, item: Message, dst: &mut BytesMut) -> (r: Result<(), FrameTooLarge>)
        requires
            item.payload@.len() < usize::MAX,
            item.payload@.len() + 1 <= MAX ==> has_room(
                buffered(*old(dst)).len() as int,
                5 + item.payload@.len() as int,
            ),
        ensures
            r is Ok <==> item.payload@.len() + 1 <= MAX,
            r is Ok ==> buffered(*final(dst)) == buffered(*old(dst)) + frame(item@),
            r matches Err(e) ==> e.length == item.payload@.len() + 1 && buffered(*final(dst))
                == buffered(*old(dst)),
            *final(self) == *old(self),
    {
        let payload_len: usize = item.payload.len() + 1;
        if payload_len > MAX {
            return Err(FrameTooLarge { length: payload_len });
        }
        let len_slice = u32_to_be_bytes(payload_len as u32);
        buffer_reserve(dst, 4 + payload_len);
        buffer_extend_from_slice(dst, len_slice.as_slice());
        buffer_put_u8(dst, item.tag.to_byte());
        buffer_extend_from_slice(dst, item.payload.as_slice());
        assert(buffered(*dst) =~= buffered(*old(dst)) + frame(item@));
        Ok(())
    }
}

/// What is received from a frame and any bytes after it is the message that
/// was framed, and the bytes after it are left.
pub proof fn law_frame_round_trip(m: MessageView, after: Seq<u8>)
    requires
        m.payload.len() + 1 <= MAX,
    ensures
        received(frame(m) + after) == (Received::Complete(m), after),
{
    let s = frame(m) + after;
    let length = m.payload.len() as int + 1;
    law_be32_round_trip(length as u32);
    law_tag_bytes_are_distinct(m.tag, m.tag);
    assert(s.len() == 4 + length + after.len());
    assert(s[0] == be32_bytes(length as u32)[0]);
    assert(s[1] == be32_bytes(length as u32)[1]);
    assert(s[2] == be32_bytes(length as u32)[2]);
    assert(s[3] == be32_bytes(length as u32)[3]);
    assert(be32(s) == length);
    assert(s[4] == tag_byte(m.tag));
    law_tag_bytes_are_distinct(tag_of(s[4]), m.tag);
    assert(tag_byte(tag_of(s[4])) == s[4]);
    assert(s.subrange(5, 4 + length) =~= m.payload);
    assert(s.skip(4 + length) =~= after);
}

/// Messages framed one after the other are received one after the other.
pub proof fn law_frames_in_order(ms: Seq<MessageView>, after: Seq<u8>)
    requires
        ms.len() > 0,
        forall|i: int| 0 <= i < ms.len() ==> (#[trigger] ms[i]).payload.len() + 1 <= MAX,
    ensures
        received(frames(ms) + after) == (Received::Complete(ms[0]), frames(ms.skip(1)) + after),
{
    assert(frames(ms) + after =~= frame(ms[0]) + (frames(ms.skip(1)) + after));
    law_frame_round_trip(ms[0], frames(ms.skip(1)) + after);
}

/// The frames of several messages, one after the other.
pub open spec fn frames(ms: Seq<MessageView>) -> Seq<u8>
    decreases ms.len(),
{
    if ms.len() == 0 {
        seq![]
    } else {
        frame(ms[0]) + frames(ms.skip(1))
    }
}

/// Where the stream is cut does not matter. What was received stays received
/// when more bytes arrive, and while a message is incomplete, decoding goes on
/// from the bytes that were left as if it had seen all of them at once.
pub proof fn law_arrival_in_pieces(s: Seq<u8>, more: Seq<u8>)
    ensures
        received(s).0 is Incomplete ==> received(s + more) == received(received(s).1 + more),
        !(received(s).0 is Incomplete) ==> received(s + more) == (
            received(s).0,
            received(s).1 + more,
        ),
    decreases s.len(),
{
    let t = s + more;
    let length = be32(s);
    if s.len() >= 4 {
        assert(be32(t) == length);
        if length == 0 {
            law_arrival_in_pieces(s.skip(4), more);
            assert(t.skip(4) =~= s.skip(4) + more);
        } else if s.len() >= 5 && length <= MAX && s.len() >= 4 + length {
            assert(t.skip(4 + length) =~= s.skip(4 + length) + more);
            if is_tag_byte(s[4]) {
                assert(t.subrange(5, 4 + length) =~= s.subrange(5, 4 + length));
            } else {
                law_arrival_in_pieces(s.skip(4 + length), more);
            }
        }
    }
}

/// A keepalive in front of a stream changes nothing in what is received.
pub proof fn law_keepalive_is_passed_over(s: Seq<u8>)
    ensures
        received(be32_bytes(0) + s) == received(s),
{
    let t = be32_bytes(0) + s;
    assert(be32(t) == 0);
    assert(t.skip(4) =~= s);
}

/// A frame with an unknown tag in front of a stream changes nothing in what is
/// received.
pub proof fn law_unknown_tag_is_passed_over(tag: u8, payload: Seq<u8>, s: Seq<u8>)
    requires
        !is_tag_byte(tag),
        payload.len() + 1 <= MAX,
    ensures
        received(be32_bytes((payload.len() + 1) as u32).push(tag) + payload + s) == received(s),
{
    let length = payload.len() as int + 1;
    let head = be32_bytes(length as u32);
    let t = head.push(tag) + payload + s;
    law_be32_round_trip(length as u32);
    assert(t[0] == head[0] && t[1] == head[1] && t[2] == head[2] && t[3] == head[3]);
    assert(be32(t) == length);
    assert(t[4] == tag);
    assert(t.skip(4 + length) =~= s);
}

/// What is left never grows, and a message is never larger than the limit.
pub proof fn law_received_is_bounded(s: Seq<u8>)
    ensures
        received(s).1.len() <= s.len(),
        received(s).0 matches Received::Complete(m) ==> m.payload.len() + 1 <= MAX
            && received(s).1.len() + 5 + m.payload.len() <= s.len(),
    decreases s.len(),
{
    let length = be32(s);
    if s.len() >= 4 {
        if length == 0 {
            law_received_is_bounded(s.skip(4));
        } else if s.len() >= 5 && length <= MAX && s.len() >= 4 + length {
            if !is_tag_byte(s[4]) {
                law_received_is_bounded(s.skip(4 + length));
            }
        }
    }
}

/// The parts of a frame and where they stand: in four bytes how many bytes follow, then
/// the byte of the tag, then the payload as it is.
pub proof fn law_frame_layout(m: MessageView)
    requires
        m.payload.len() + 1 <= MAX,
    ensures
        frame(m).len() == 5 + m.payload.len(),
        0x100_0000 * frame(m)[0] + 0x1_0000 * frame(m)[1] + 0x100 * frame(m)[2] + frame(m)[3]
            == frame(m).len() - 4,
        frame(m)[4] == tag_byte(m.tag),
        frame(m).skip(5) == m.payload,
{
    let length = (m.payload.len() + 1) as u32;
    law_be32_round_trip(length);
    let head = be32_bytes(length);
    let s = frame(m);
    assert(s[0] == head[0] && s[1] == head[1] && s[2] == head[2] && s[3] == head[3]);
    assert(be32(head) == length);
    assert(s.skip(5) =~= m.payload);
}

/// Nothing is received, and no byte is consumed, before a message has arrived in full:
/// not with a part of the length, not with the length alone unless it is zero, and not
/// with a part of what a length within the limit announces.
pub proof fn law_incomplete_message(s: Seq<u8>)
    requires
        s.len() < 4 || ({
            let length = 0x100_0000 * s[0] + 0x1_0000 * s[1] + 0x100 * s[2] + s[3];
            length > 0 && (s.len() == 4 || (length <= MAX && s.len() < 4 + length))
        }),
    ensures
        received(s) == (Received::Incomplete, s),
{
}

/// A message that has arrived in full is received with its tag and all of its payload, and
/// what follows it is left. One with an unknown tag is passed over.
pub proof fn law_complete_message(s: Seq<u8>, length: int)
    requires
        s.len() >= 4,
        length == 0x100_0000 * s[0] + 0x1_0000 * s[1] + 0x100 * s[2] + s[3],
        0 < length <= MAX,
        s.len() >= 4 + length,
    ensures
        !(s[4] <= 8 || s[4] == 20) ==> received(s) == received(s.skip(4 + length)),
        (s[4] <= 8 || s[4] == 20) ==> {
            &&& received(s).0 matches Received::Complete(m)
            &&& tag_byte(m.tag) == s[4]
            &&& m.payload == s.subrange(5, 4 + length)
            &&& received(s).1 == s.skip(4 + length)
        },
{
    law_tag_bytes(s[4]);
}

/// A message that is announced as longer than the limit is refused with that length, once
/// more than the length has arrived. No byte is consumed.
pub proof fn law_too_large_message(s: Seq<u8>, length: int)
    requires
        s.len() > 4,
        length == 0x100_0000 * s[0] + 0x1_0000 * s[1] + 0x100 * s[2] + s[3],
        length > MAX,
    ensures
        received(s) == (Received::TooLarge(length), s),
{
}

/// The limit leaves room for a block of 16 KiB, and for a thousand bytes more.
pub proof fn law_limit(m: MessageView)
    ensures
        MAX == 16384 + 1000,
        m.payload.len() == 16384 + 8 ==> m.payload.len() + 1 <= MAX,
{
}

/// Four zero bytes in front of a stream are consumed, and nothing is received from them.
pub proof fn law_zero_length(s: Seq<u8>)
    requires
        s.len() >= 4,
        s.take(4) == seq![0u8, 0, 0, 0],
    ensures
        received(s) == received(s.skip(4)),
{
    assert(s.take(4)[0] == s[0] && s.take(4)[1] == s[1] && s.take(4)[2] == s[2] && s.take(4)[3]
        == s[3]);
}

} // verus!
