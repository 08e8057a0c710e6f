//! What is said to a peer before pieces are asked for: the bitfield, the
//! extension handshake, and the metadata of a torrent known by a magnet link only.

use vstd::prelude::*;
use vstd::string::*;
use vstd::utf8::*;

use super::message::{Message, MessageTag, MessageView};
use crate::bencode::{
    bencoded_str, bencoded_uint, dict_of, dict_text, encodes, integer_text, law_dict_round_trip,
    law_integer_round_trip, law_written_is_read, lemma_dict_with_one_entry, lemma_dictionary,
    lemma_entry, lemma_no_entry, lemma_written, push_str, push_uint, read_term, Term, ValueView,
};
use crate::buffer::copy_range;
use crate::digest::sha1_digest;
use crate::torrent::{
    bencoded_info, finalized_info, law_finalized_info, Info, InfoView, PiecesLengthError,
};

verus! {

/// The id under which metadata is asked to be sent. Any number but zero would do.
pub const METADATA_EXTENSION_ID: u8 = 2;

/// The id of the message that opens the use of extensions.
pub const HANDSHAKE_EXTENDED_MSG_ID: u8 = 0;

/// How far the talk with a peer has come.
#[derive(Debug, Clone, Copy, PartialEq, Eq, Structural)]
pub enum Phase {
    /// The peer has yet to say which pieces it has.
    AwaitBitfield { support_extensions: bool },
    /// The peer has yet to say which extensions it has.
    AwaitExtensionHandshake,
    /// Pieces and metadata can be asked for.
    Ready,
}

/// The talk with a peer.
#[derive(Debug)]
pub struct Framer {
    phase: Phase,
    peer_metadata_extension_id: Option<u8>,
    /// The metadata that the peer sent, its hashes filled in.
    info: Option<Info>,
}

/// What is known of the talk with a peer.
#[verifier::ext_equal]
pub struct FramerView {
    pub phase: Phase,
    pub peer_metadata_extension_id: Option<u8>,
    pub info: Option<InfoView>,
}

impl View for Framer {
    type V = FramerView;

    closed spec fn view(&self) -> FramerView {
        FramerView {
            phase: self.phase,
            peer_metadata_extension_id: self.peer_metadata_extension_id,
            info: match self.info {
                Some(info) => Some(info@),
                None => None,
            },
        }
    }
}

/// What to do after a message has been received.
#[derive(Debug)]
pub enum Action {
    /// Nothing: the talk has come as far as it goes by itself.
    Proceed,
    /// Send a message, then receive one.
    Send(Message),
    /// Read the dictionary of extensions out of these bytes, and hand on the id
    /// that it gives to `ut_metadata`.
    ReadExtensions(Vec<u8>),
}

/// What to do to get at the metadata.
#[derive(Debug)]
pub enum MetadataAction {
    /// Nothing: it is known already.
    Known(Info),
    /// Send a message, then receive one.
    Send(Message),
}

/// What to do to get at the metadata.
#[verifier::ext_equal]
pub enum MetadataActionView {
    Known(InfoView),
    Send(MessageView),
}

impl View for MetadataAction {
    type V = MetadataActionView;

    open spec fn view(&self) -> MetadataActionView {
        match self {
            MetadataAction::Known(info) => MetadataActionView::Known(info@),
            MetadataAction::Send(message) => MetadataActionView::Send(message@),
        }
    }
}

/// Why a peer is not talked to any more.
#[derive(Debug, Clone, Copy, PartialEq, Eq, Structural)]
pub enum FramerError {
    /// A message of another kind was expected.
    UnexpectedTag { expected: MessageTag, found: MessageTag },
    /// An extended message with another id was expected.
    UnexpectedExtendedId { expected_id: u8, found_id: u8 },
    /// The peer does not support metadata extensions.
    NoMetadataExtension,
}

/// A dictionary in bencode that says which id the extension `ut_metadata` has.
pub open spec fn extension_dictionary(ut_metadata: u8) -> Seq<u8> {
    seq!['d' as u8]
        + bencoded_str("m"@)
        + seq!['d' as u8]
        + bencoded_str("ut_metadata"@) + bencoded_uint(ut_metadata as nat)
        + seq!['e' as u8]
        + seq!['e' as u8]
}

/// The message that opens the use of extensions: it tells the peer the id under
/// which metadata is asked to be sent.
pub open spec fn extension_handshake() -> MessageView {
    MessageView {
        tag: MessageTag::Extended,
        payload: seq![HANDSHAKE_EXTENDED_MSG_ID] + extension_dictionary(METADATA_EXTENSION_ID),
    }
}

/// The message that asks for the first piece of the metadata, under the id that
/// the peer gave.
pub open spec fn metadata_request(peer_metadata_extension_id: u8) -> MessageView {
    MessageView {
        tag: MessageTag::Extended,
        payload: seq![peer_metadata_extension_id]
            + seq!['d' as u8]
            + bencoded_str("msg_type"@) + bencoded_uint(0)
            + bencoded_str("piece"@) + bencoded_uint(0)
            + seq!['e' as u8],
    }
}

/// A talk that has just begun.
pub open spec fn begun(support_extensions: bool) -> FramerView {
    FramerView {
        phase: Phase::AwaitBitfield { support_extensions },
        peer_metadata_extension_id: None,
        info: None,
    }
}

/// The talk after the peer has sent its bitfield.
pub open spec fn after_bitfield(talk: FramerView) -> FramerView {
    FramerView {
        phase: if talk.phase->support_extensions {
            Phase::AwaitExtensionHandshake
        } else {
            Phase::Ready
        },
        ..talk
    }
}

/// The talk after the peer has said which id its metadata extension has.
pub open spec fn after_extensions(talk: FramerView, ut_metadata: u8) -> FramerView {
    FramerView { phase: Phase::Ready, peer_metadata_extension_id: Some(ut_metadata), ..talk }
}

/// The talk after the peer has sent an info dictionary as metadata.
pub open spec fn after_metadata(talk: FramerView, info: InfoView) -> FramerView {
    FramerView { info: Some(finalized_info(info)), ..talk }
}

/// What is to be done to get at the metadata, if anything can be done.
pub open spec fn metadata_action(talk: FramerView) -> Option<MetadataActionView> {
    match (talk.peer_metadata_extension_id, talk.info) {
        (None, _) => None,
        (Some(_), Some(info)) => Some(MetadataActionView::Known(info)),
        (Some(id), None) => Some(MetadataActionView::Send(metadata_request(id))),
    }
}

/// What is wrong with a message where an extended one with the given id is
/// expected, if anything is.
pub open spec fn extended_error(message: MessageView, id: u8) -> Option<FramerError> {
    if message.tag != MessageTag::Extended {
        Some(
            FramerError::UnexpectedTag { expected: MessageTag::Extended, found: message.tag },
        )
    } else if message.payload[0] != id {
        Some(FramerError::UnexpectedExtendedId { expected_id: id, found_id: message.payload[0] })
    } else {
        None
    }
}

/// Whether a message holds the id that an extended message has to hold.
pub open spec fn has_id(message: MessageView) -> bool {
    message.tag == MessageTag::Extended ==> message.payload.len() > 0
}

impl Framer {
    /// Whether what is known of the peer fits how far the talk has come: extensions
    /// are known only once the talk is ready, and metadata only from a peer that
    /// has the extension for it, and only in full.
    pub open spec fn wf(&self) -> bool {
        &&& self@.phase != Phase::Ready ==> self@.peer_metadata_extension_id is None
        &&& self@.info is Some ==> self@.peer_metadata_extension_id is Some
        &&& self@.info matches Some(info) ==> info.pieces.len() % 20 == 0 && info
            == finalized_info(info)
    }

    /// A talk that has just begun. Extensions are used if the peer supports them.
    pub fn new(support_extensions: bool) -> (r: Self)
        ensures
            r.wf(),
            r@ == begun(support_extensions),
    {
        Framer {
            phase: Phase::AwaitBitfield { support_extensions },
            peer_metadata_extension_id: None,
            info: None,
        }
    }

    /// How far the talk has come.
    pub fn phase(&self) -> (r: Phase)
        ensures
            r == self@.phase,
    {
        self.phase
    }

    /// Takes the bitfield message of the peer. Which pieces it has is not looked
    /// at. Where extensions are used, the extension handshake is to be sent next.
    pub fn receive_bitfield(&mut self, message: &Message) -> (r: Result<Action, FramerError>)
        requires
            old(self).wf(),
            old(self)@.phase is AwaitBitfield,
        ensures
            final(self).wf(),
            if message@.tag != MessageTag::Bitfield {
                &&& r == Err::<Action, FramerError>(
                    FramerError::UnexpectedTag {
                        expected: MessageTag::Bitfield,
                        found: message@.tag,
                    },
                )
                &&& final(self)@ == old(self)@
            } else if old(self)@.phase->support_extensions {
                &&& r matches Ok(Action::Send(m))
                &&& m@ == extension_handshake()
                &&& final(self)@ == after_bitfield(old(self)@)
            } else {
                &&& r matches Ok(Action::Proceed)
                &&& final(self)@ == after_bitfield(old(self)@)
            },
    {
        if message.tag != MessageTag::Bitfield {
            return Err(
                FramerError::UnexpectedTag { expected: MessageTag::Bitfield, found: message.tag },
            );
        }
        match self.phase {
            Phase::AwaitBitfield { support_extensions: true } => {
                let mut payload: Vec<u8> = Vec::new();
                payload.push(HANDSHAKE_EXTENDED_MSG_ID);
                payload.push(100u8);
                push_str(&mut payload, "m");
                payload.push(100u8);
                push_str(&mut payload, "ut_metadata");
                push_uint(&mut payload, METADATA_EXTENSION_ID as u64);
                payload.push(101u8);
                payload.push(101u8);
                assert(payload@ =~= extension_handshake().payload);
                self.phase = Phase::AwaitExtensionHandshake;
                Ok(Action::Send(Message { tag: MessageTag::Extended, payload }))
            },
            _ => {
                self.phase = Phase::Ready;
                Ok(Action::Proceed)
            },
        }
    }

    /// Takes the extension handshake of the peer. What follows the id of the
    /// message is a dictionary of the extensions that the peer has.
    pub fn receive_extension_handshake(&self, message: &Message) -> (r: Result<
        Action,
        FramerError,
    >)
        requires
            self@.phase is AwaitExtensionHandshake,
            has_id(message@),
        ensures
            match extended_error(message@, HANDSHAKE_EXTENDED_MSG_ID) {
                Some(e) => r == Err::<Action, FramerError>(e),
                None => {
                    &&& r matches Ok(Action::ReadExtensions(bytes))
                    &&& bytes@ == message@.payload.skip(1)
                },
            },
    {
        check_extended(message, HANDSHAKE_EXTENDED_MSG_ID)?;
        let bytes = copy_range(message.payload.as_slice(), 1, message.payload.len());
        assert(bytes@ =~= message@.payload.skip(1));
        Ok(Action::ReadExtensions(bytes))
    }

    /// Takes the id under which the peer wants to be asked for metadata.
    pub fn extensions_read(&mut self, ut_metadata: u8)
        requires
            old(self).wf(),
            old(self)@.phase is AwaitExtensionHandshake,
        ensures
            final(self).wf(),
            final(self)@ == after_extensions(old(self)@, ut_metadata),
    {
        self.peer_metadata_extension_id = Some(ut_metadata);
        self.phase = Phase::Ready;
    }

    /// The metadata, or the message that asks the peer for it.
    pub fn magnet_torrent_info(&self) -> (r: Result<MetadataAction, FramerError>)
        requires
            self@.phase is Ready,
        ensures
            match metadata_action(self@) {
                None => r == Err::<MetadataAction, FramerError>(FramerError::NoMetadataExtension),
                Some(action) => {
                    &&& r matches Ok(a)
                    &&& a@ == action
                },
            },
    {
        let id = match self.peer_metadata_extension_id {
            None => {
                return Err(FramerError::NoMetadataExtension);
            },
            Some(id) => id,
        };
        if let Some(info) = &self.info {
            return Ok(MetadataAction::Known(info.clone()));
        }
        let mut payload: Vec<u8> = Vec::new();
        payload.push(id);
        payload.push(100u8);
        push_str(&mut payload, "msg_type");
        push_uint(&mut payload, 0);
        push_str(&mut payload, "piece");
        push_uint(&mut payload, 0);
        payload.push(101u8);
        assert(payload@ =~= metadata_request(id).payload);
        Ok(MetadataAction::Send(Message { tag: MessageTag::Extended, payload }))
    }

    /// Takes the info dictionary that the peer sent as metadata: fills in its
    /// hashes, keeps it and returns it.
    pub fn metadata_read(&mut self, info: Info) -> (r: Result<Info, PiecesLengthError>)
        requires
            old(self).wf(),
            old(self)@.phase is Ready,
            old(self)@.peer_metadata_extension_id is Some,
        ensures
            final(self).wf(),
            r is Ok <==> info@.pieces.len() % 20 == 0,
            r matches Err(e) ==> e.length == info@.pieces.len() && final(self)@ == old(self)@,
            r matches Ok(known) ==> known@ == finalized_info(info@) && final(self)@
                == after_metadata(old(self)@, info@),
    {
        let mut info = info;
        info.finalize()?;
        assert(finalized_info(info@) =~= info@);
        let known = info.clone();
        self.info = Some(info);
        Ok(known)
    }

    /// The id under which the peer wants to be asked for metadata, if it supports
    /// that.
    pub fn peer_metadata_extension_id(&self) -> (r: Option<u8>)
        ensures
            r == self@.peer_metadata_extension_id,
    {
        self.peer_metadata_extension_id
    }
}

/// Whether a message is an extended one with the given id.
fn check_extended(message: &Message, id: u8) -> (r: Result<(), FramerError>)
    requires
        has_id(message@),
    ensures
        match extended_error(message@, id) {
            Some(e) => r == Err::<(), FramerError>(e),
            None => r is Ok,
        },
{
    if message.tag != MessageTag::Extended {
        return Err(
            FramerError::UnexpectedTag { expected: MessageTag::Extended, found: message.tag },
        );
    }
    let found: u8 = message.payload[0];
    if found != id {
        return Err(FramerError::UnexpectedExtendedId { expected_id: id, found_id: found });
    }
    Ok(())
}

/// Takes the answer to a request for metadata. What follows the id of the message
/// is a dictionary that says how long the metadata is, and then the metadata.
pub fn receive_metadata(message: &Message) -> (r: Result<Vec<u8>, FramerError>)
    requires
        has_id(message@),
    ensures
        match extended_error(message@, METADATA_EXTENSION_ID) {
            Some(e) => r == Err::<Vec<u8>, FramerError>(e),
            None => {
                &&& r matches Ok(bytes)
                &&& bytes@ == message@.payload.skip(1)
            },
        },
{
    check_extended(message, METADATA_EXTENSION_ID)?;
    let bytes = copy_range(message.payload.as_slice(), 1, message.payload.len());
    assert(bytes@ =~= message@.payload.skip(1));
    Ok(bytes)
}

/// The metadata at the end of a payload: its last `total_size` bytes.
pub open spec fn metadata_in(payload: Seq<u8>, total_size: nat) -> Seq<u8> {
    payload.skip(payload.len() - total_size)
}

/// The metadata at the end of a message: its last `total_size` bytes.
pub fn metadata_bytes(message: &Message, total_size: usize) -> (r: Vec<u8>)
    requires
        total_size <= message@.payload.len(),
    ensures
        r@ == message@.payload.skip(message@.payload.len() - total_size),
        r@ == metadata_in(message@.payload, total_size as nat),
{
    let n: usize = message.payload.len();
    let r = copy_range(message.payload.as_slice(), n - total_size, n);
    assert(r@ =~= message@.payload.skip(n - total_size));
    r
}

/// A dictionary of extensions as text.
pub open spec fn extension_text(ut_metadata: u8) -> Seq<char> {
    dict_text(
        seq![("m"@, dict_text(seq![("ut_metadata"@, integer_text(ut_metadata as int))]))],
    )
}

/// An extension handshake as it is sent is one that is taken from a peer. What is
/// read from it is a dictionary that gives the extension `ut_metadata` the id that
/// was written.
pub proof fn law_extension_handshake_round_trip(ut_metadata: u8)
    ensures
        ({
            let sent = MessageView {
                tag: MessageTag::Extended,
                payload: seq![HANDSHAKE_EXTENDED_MSG_ID] + extension_dictionary(ut_metadata),
            };
            &&& has_id(sent)
            &&& extended_error(sent, HANDSHAKE_EXTENDED_MSG_ID) is None
            &&& sent.payload.skip(1) == encode_utf8(extension_text(ut_metadata))
        }),
        encodes(
            extension_text(ut_metadata),
            ValueView::Dict(
                map![
                    "m"@ => ValueView::Dict(
                        map!["ut_metadata"@ => ValueView::Int(ut_metadata as int)],
                    ),
                ],
            ),
        ),
{
    reveal_strlit("m");
    reveal_strlit("ut_metadata");
    is_ascii_chars_encode_utf8("m"@);
    is_ascii_chars_encode_utf8("ut_metadata"@);
    let id = integer_text(ut_metadata as int);
    let inner = dict_text(seq![("ut_metadata"@, id)]);
    law_written_is_read("m"@, ut_metadata as nat);
    lemma_dict_with_one_entry("ut_metadata"@, id);
    lemma_dict_with_one_entry("m"@, inner);
    let payload = seq![HANDSHAKE_EXTENDED_MSG_ID] + extension_dictionary(ut_metadata);
    assert(payload.skip(1) =~= extension_dictionary(ut_metadata));
    assert(extension_dictionary(ut_metadata) =~= encode_utf8(extension_text(ut_metadata)));
    law_integer_round_trip(ut_metadata as i64);
    lemma_one_entry_is_read_back("ut_metadata", id, ValueView::Int(ut_metadata as int));
    lemma_one_entry_is_read_back(
        "m",
        inner,
        ValueView::Dict(map!["ut_metadata"@ => ValueView::Int(ut_metadata as int)]),
    );
}

/// A dictionary with one entry is read back.
proof fn lemma_one_entry_is_read_back(key: &str, text: Seq<char>, value: ValueView)
    requires
        encodes(text, value),
        encode_utf8(key@).len() <= usize::MAX,
    ensures
        encodes(dict_text(seq![(key@, text)]), ValueView::Dict(map![key@ => value])),
{
    let entries = seq![(key@, text)];
    let values = seq![value];
    assert(entries[0].1 == text && values[0] == value);
    law_dict_round_trip(entries, values);
    let read = Seq::new(entries.len(), |i: int| (entries[i].0, values[i]));
    assert(read =~= seq![(key@, value)]);
    reveal_with_fuel(dict_of, 2);
    assert(read.drop_last() =~= seq![]);
    assert(dict_of(read) =~= map![key@ => value]);
}

/// A peer can be asked for metadata exactly if extensions are used with it. It is
/// asked under the id that it gave.
pub proof fn law_metadata_needs_extensions(support_extensions: bool, ut_metadata: u8)
    ensures
        support_extensions ==> after_bitfield(begun(support_extensions)).phase
            == Phase::AwaitExtensionHandshake && metadata_action(
            after_extensions(after_bitfield(begun(support_extensions)), ut_metadata),
        ) == Some(MetadataActionView::Send(metadata_request(ut_metadata))),
        !support_extensions ==> after_bitfield(begun(support_extensions)).phase == Phase::Ready
            && metadata_action(after_bitfield(begun(support_extensions))) is None,
{
}

/// Metadata is asked for once: what has been sent is what is given back from then
/// on, with the hash of the dictionary that was sent.
pub proof fn law_metadata_is_kept(talk: FramerView, info: InfoView)
    requires
        talk.peer_metadata_extension_id is Some,
    ensures
        metadata_action(after_metadata(talk, info)) == Some(
            MetadataActionView::Known(finalized_info(info)),
        ),
        finalized_info(info).info_hash == sha1_digest(bencoded_info(info)),
{
}

/// The metadata is found behind whatever dictionary comes before it.
pub proof fn law_metadata_is_found(id: u8, dictionary: Seq<u8>, metadata: Seq<u8>)
    ensures
        (seq![id] + dictionary + metadata).skip(
            (seq![id] + dictionary + metadata).len() - metadata.len(),
        ) == metadata,
        metadata_in(seq![id] + dictionary + metadata, metadata.len()) == metadata,
{
    let payload = seq![id] + dictionary + metadata;
    assert(payload.skip(payload.len() - metadata.len()) =~= metadata);
}

/// Metadata is asked for under the id that the peer gave, whatever that id is. What
/// follows the id is a dictionary that asks for the first piece.
pub proof fn law_metadata_request(id: u8)
    ensures
        metadata_request(id).tag == MessageTag::Extended,
        metadata_request(id).payload.len() > 0,
        metadata_request(id).payload[0] == id,
        read_term(metadata_request(id).payload.skip(1)) == Some(
            (
                Term::Dictionary(
                    seq![
                        (encode_utf8("msg_type"@), Term::Number(0)),
                        (encode_utf8("piece"@), Term::Number(0)),
                    ],
                ),
                Seq::<u8>::empty(),
            ),
        ),
{
    let end = seq!['e' as u8] + Seq::<u8>::empty();
    let piece = bencoded_str("piece"@) + bencoded_uint(0) + end;
    let entries = bencoded_str("msg_type"@) + bencoded_uint(0) + piece;
    lemma_no_entry(seq![]);
    lemma_written(seq![], 0);
    lemma_entry(encode_utf8("piece"@), bencoded_uint(0), Term::Number(0), end);
    lemma_entry(encode_utf8("msg_type"@), bencoded_uint(0), Term::Number(0), piece);
    lemma_dictionary(entries);
    assert(metadata_request(id).payload.skip(1) =~= seq!['d' as u8] + entries);
    let none = Seq::<(Seq<u8>, Term)>::empty();
    assert(seq![(encode_utf8("msg_type"@), Term::Number(0))] + (seq![
        (encode_utf8("piece"@), Term::Number(0)),
    ] + none) =~= seq![
        (encode_utf8("msg_type"@), Term::Number(0)),
        (encode_utf8("piece"@), Term::Number(0)),
    ]);
}

/// A dictionary of extensions holds the id of one extension, `ut_metadata`.
pub proof fn law_extension_dictionary(ut_metadata: u8, rest: Seq<u8>)
    ensures
        read_term(extension_dictionary(ut_metadata) + rest) == Some(
            (
                Term::Dictionary(
                    seq![
                        (
                            encode_utf8("m"@),
                            Term::Dictionary(
                                seq![
                                    (
                                        encode_utf8("ut_metadata"@),
                                        Term::Number(ut_metadata as nat),
                                    ),
                                ],
                            ),
                        ),
                    ],
                ),
                rest,
            ),
        ),
{
    let id = bencoded_uint(ut_metadata as nat);
    let inner_read = seq![(encode_utf8("ut_metadata"@), Term::Number(ut_metadata as nat))];
    let inner = seq!['d' as u8] + (bencoded_str("ut_metadata"@) + id + seq!['e' as u8]);
    let none = Seq::<(Seq<u8>, Term)>::empty();
    lemma_written(seq![], ut_metadata as nat);
    assert forall|after: Seq<u8>| #[trigger]
        read_term(inner + after) == Some((Term::Dictionary(inner_read), after)) by {
        let end = seq!['e' as u8] + after;
        lemma_no_entry(after);
        lemma_entry(
            encode_utf8("ut_metadata"@),
            id,
            Term::Number(ut_metadata as nat),
            end,
        );
        lemma_dictionary(bencoded_str("ut_metadata"@) + id + end);
        assert(inner + after =~= seq!['d' as u8] + (bencoded_str("ut_metadata"@) + id + end));
        assert(inner_read + none =~= inner_read);
    }
    let end = seq!['e' as u8] + rest;
    lemma_no_entry(rest);
    lemma_entry(encode_utf8("m"@), inner, Term::Dictionary(inner_read), end);
    lemma_dictionary(bencoded_str("m"@) + inner + end);
    assert(extension_dictionary(ut_metadata) + rest =~= seq!['d' as u8] + (bencoded_str("m"@)
        + inner + end));
    let read = seq![(encode_utf8("m"@), Term::Dictionary(inner_read))];
    assert(read + none =~= read);
}

/// The extension handshake that is sent tells the peer the id under which a reply with
/// metadata is taken later on: what is written into the one is what is asked of the other.
pub proof fn law_replies_are_taken_under_the_id_told(reply: MessageView)
    requires
        reply.tag == MessageTag::Extended,
        reply.payload.len() > 0,
    ensures
        extension_handshake().tag == MessageTag::Extended,
        extension_handshake().payload.len() > 0,
        extension_handshake().payload[0] == 0,
        read_term(extension_handshake().payload.skip(1)) == Some(
            (
                Term::Dictionary(
                    seq![
                        (
                            encode_utf8("m"@),
                            Term::Dictionary(
                                seq![(encode_utf8("ut_metadata"@), Term::Number(2))],
                            ),
                        ),
                    ],
                ),
                Seq::<u8>::empty(),
            ),
        ),
        extended_error(reply, METADATA_EXTENSION_ID) is None <==> reply.payload[0] == 2,
{
    let sent = extension_dictionary(METADATA_EXTENSION_ID);
    law_extension_dictionary(METADATA_EXTENSION_ID, seq![]);
    assert(extension_handshake().payload.skip(1) =~= sent);
    assert(sent + Seq::<u8>::empty() =~= sent);
}

/// Which messages are taken where an extended one is expected, and what is said of any
/// other. What follows the id has no part in it.
pub proof fn law_extended_message(message: MessageView, id: u8)
    requires
        message.payload.len() > 0,
    ensures
        extended_error(message, id) is None <==> message.tag == MessageTag::Extended
            && message.payload[0] == id,
        message.tag != MessageTag::Extended ==> extended_error(message, id) == Some(
            FramerError::UnexpectedTag { expected: MessageTag::Extended, found: message.tag },
        ),
        message.tag == MessageTag::Extended && message.payload[0] != id ==> extended_error(
            message,
            id,
        ) == Some(
            FramerError::UnexpectedExtendedId { expected_id: id, found_id: message.payload[0] },
        ),
        has_id(message),
{
}

/// Only an extended message without a payload lacks an id.
pub proof fn law_has_id(message: MessageView)
    ensures
        has_id(message) <==> message.tag != MessageTag::Extended || message.payload.len() > 0,
{
}

/// How the talk goes on: a bitfield leads to the extension handshake if extensions are
/// used, and past it if not; the handshake of the peer gives the id that it tells; metadata
/// adds itself. Nothing else changes.
pub proof fn law_talk(talk: FramerView, support_extensions: bool, id: u8, info: InfoView)
    ensures
        begun(support_extensions).phase == (Phase::AwaitBitfield { support_extensions }),
        begun(support_extensions).peer_metadata_extension_id is None,
        begun(support_extensions).info is None,
        talk.phase == (Phase::AwaitBitfield { support_extensions }) ==> after_bitfield(talk).phase
            == if support_extensions {
            Phase::AwaitExtensionHandshake
        } else {
            Phase::Ready
        },
        after_bitfield(talk).peer_metadata_extension_id == talk.peer_metadata_extension_id,
        after_bitfield(talk).info == talk.info,
        after_extensions(talk, id).phase == Phase::Ready,
        after_extensions(talk, id).peer_metadata_extension_id == Some(id),
        after_extensions(talk, id).info == talk.info,
        after_metadata(talk, info).phase == talk.phase,
        after_metadata(talk, info).peer_metadata_extension_id == talk.peer_metadata_extension_id,
{
}

/// Metadata that has been sent has the hashes that stand in its pieces, and the hash of
/// its four fields in bencode. It is given back with every field as it was sent.
pub proof fn law_metadata_comes_back(talk: FramerView, info: InfoView, i: int)
    requires
        talk.peer_metadata_extension_id is Some,
        info.pieces.len() % 20 == 0,
    ensures
        ({
            let action = metadata_action(after_metadata(talk, info));
            &&& action matches Some(MetadataActionView::Known(known))
            &&& known.length == info.length
            &&& known.name == info.name
            &&& known.piece_length == info.piece_length
            &&& known.pieces == info.pieces
            &&& known.info_hash == sha1_digest(bencoded_info(info))
            &&& 20 * known.hashes.len() == info.pieces.len()
            &&& 0 <= i < known.hashes.len() ==> known.hashes[i] == info.pieces.subrange(
                20 * i,
                20 * i + 20,
            )
        }),
{
    law_finalized_info(info, i);
}

/// Metadata is asked for as long as it is not known, and never of a peer that has no id
/// for it. The request bears the id.
pub proof fn law_metadata_action(talk: FramerView)
    ensures
        metadata_action(talk) is None <==> talk.peer_metadata_extension_id is None,
        talk.peer_metadata_extension_id is Some && talk.info is Some ==> metadata_action(talk)
            == Some(MetadataActionView::Known(talk.info->0)),
        talk.peer_metadata_extension_id is Some && talk.info is None ==> {
            &&& metadata_action(talk) matches Some(MetadataActionView::Send(request))
            &&& request.tag == MessageTag::Extended
            &&& request.payload[0] == talk.peer_metadata_extension_id->0
        },
{
    if talk.peer_metadata_extension_id is Some {
        law_metadata_request(talk.peer_metadata_extension_id->0);
    }
}

/// What is said of an action is what stands in it.
pub proof fn law_metadata_action_view(action: MetadataAction)
    ensures
        action matches MetadataAction::Known(info) ==> action@ == MetadataActionView::Known(info@),
        action matches MetadataAction::Send(m) ==> action@ == MetadataActionView::Send(m@),
{
}

} // verus!
