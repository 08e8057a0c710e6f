//! The messages that peers exchange once they have shaken hands.

use vstd::prelude::*;

verus! {

/// What a message is about.
#[derive(Debug, Clone, Copy, PartialEq, Eq, Structural)]
pub enum MessageTag {
    Choke,
    Unchoke,
    Interested,
    NotInterested,
    Have,
    Bitfield,
    Request,
    Piece,
    Cancel,
    Extended,
}

/// The byte that stands for a tag on the wire.
pub open spec fn tag_byte(tag: MessageTag) -> u8 {
    match tag {
        MessageTag::Choke => 0,
        MessageTag::Unchoke => 1,
        MessageTag::Interested => 2,
        MessageTag::NotInterested => 3,
        MessageTag::Have => 4,
        MessageTag::Bitfield => 5,
        MessageTag::Request => 6,
        MessageTag::Piece => 7,
        MessageTag::Cancel => 8,
        MessageTag::Extended => 20,
    }
}

/// Whether `b` stands for some tag.
pub open spec fn is_tag_byte(b: u8) -> bool {
    b <= 8 || b == 20
}

impl MessageTag {
    /// The tag that a byte stands for, if it stands for any.
    pub fn from_byte(b: u8) -> (r: Option<MessageTag>)
        ensures
            r is Some <==> is_tag_byte(b),
            r matches Some(tag) ==> tag_byte(tag) == b,
    {
        match b {
            0 => Some(MessageTag::Choke),
            1 => Some(MessageTag::Unchoke),
            2 => Some(MessageTag::Interested),
            3 => Some(MessageTag::NotInterested),
            4 => Some(MessageTag::Have),
            5 => Some(MessageTag::Bitfield),
            6 => Some(MessageTag::Request),
            7 => Some(MessageTag::Piece),
            8 => Some(MessageTag::Cancel),
            20 => Some(MessageTag::Extended),
            _ => None,
        }
    }

    /// The byte that stands for the tag.
    pub fn to_byte(self) -> (b: u8)
        ensures
            b == tag_byte(self),
    {
        match self {
            MessageTag::Choke => 0,
            MessageTag::Unchoke => 1,
            MessageTag::Interested => 2,
            MessageTag::NotInterested => 3,
            MessageTag::Have => 4,
            MessageTag::Bitfield => 5,
            MessageTag::Request => 6,
            MessageTag::Piece => 7,
            MessageTag::Cancel => 8,
            MessageTag::Extended => 20,
        }
    }
}

/// Every tag has a byte of its own.
pub proof fn law_tag_bytes_are_distinct(a: MessageTag, b: MessageTag)
    ensures
        is_tag_byte(tag_byte(a)),
        tag_byte(a) == tag_byte(b) ==> a == b,
{
}

/// A tag and what comes with it.
#[derive(Debug)]
pub struct Message {
    pub tag: MessageTag,
    pub payload: Vec<u8>,
}

/// What a message says, its payload taken as a sequence of bytes.
#[verifier::ext_equal]
pub struct MessageView {
    pub tag: MessageTag,
    pub payload: Seq<u8>,
}

impl View for Message {
    type V = MessageView;

    open spec fn view(&self) -> MessageView {
        MessageView { tag: self.tag, payload: self.payload@ }
    }
}

/// The bytes that stand for tags are those from zero to eight, in the order of the tags,
/// and twenty.
pub proof fn law_tag_bytes(b: u8)
    ensures
        seq![
            tag_byte(MessageTag::Choke),
            tag_byte(MessageTag::Unchoke),
            tag_byte(MessageTag::Interested),
            tag_byte(MessageTag::NotInterested),
            tag_byte(MessageTag::Have),
            tag_byte(MessageTag::Bitfield),
            tag_byte(MessageTag::Request),
            tag_byte(MessageTag::Piece),
            tag_byte(MessageTag::Cancel),
            tag_byte(MessageTag::Extended),
        ] == seq![0u8, 1, 2, 3, 4, 5, 6, 7, 8, 20],
        is_tag_byte(b) <==> exists|tag: MessageTag| tag_byte(tag) == b,
{
    if is_tag_byte(b) {
        let tag = if b == 0 {
            MessageTag::Choke
        } else if b == 1 {
            MessageTag::Unchoke
        } else if b == 2 {
            MessageTag::Interested
        } else if b == 3 {
            MessageTag::NotInterested
        } else if b == 4 {
            MessageTag::Have
        } else if b == 5 {
            MessageTag::Bitfield
        } else if b == 6 {
            MessageTag::Request
        } else if b == 7 {
            MessageTag::Piece
        } else if b == 8 {
            MessageTag::Cancel
        } else {
            MessageTag::Extended
        };
        assert(tag_byte(tag) == b);
    }
}

/// What is said of a message is what stands in its fields.
pub proof fn law_message_view(message: Message)
    ensures
        message@.tag == message.tag,
        message@.payload == message.payload@,
{
}

} // verus!
