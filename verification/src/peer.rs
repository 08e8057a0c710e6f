//! The downloader: its identity, and how it makes itself known to a peer.

pub mod codec;
pub mod download;
pub mod file;
pub mod framer;
pub mod message;
pub mod queue;

use bytes::BytesMut;
use vstd::prelude::*;
use vstd::string::*;
use vstd::utf8::*;

use crate::buffer::{
    be32, buffer_put_bytes, buffer_put_slice, buffer_put_u8, buffer_with_capacity, buffered,
    bytes_eq, copy_range,
};
use crate::peers::{announce_url, tracker_url};
use crate::torrent::{hash_at, Torrent};

verus! {

/// The length of a handshake: the length of the name of the protocol, the name,
/// eight reserved bytes, the info hash and the peer id.
pub const HANDSHAKE_LEN: usize = 68;

/// Downloads torrents under an id of its own.
#[derive(Debug)]
pub struct Downloader {
    peer_id: String,
    /// The peers that said that they support extensions, each once.
    peers_supporting_extensions: Vec<[u8; 20]>,
}

/// What a downloader knows.
#[verifier::ext_equal]
pub struct DownloaderView {
    pub peer_id: Seq<char>,
    pub peers_supporting_extensions: Set<Seq<u8>>,
}

impl View for Downloader {
    type V = DownloaderView;

    closed spec fn view(&self) -> DownloaderView {
        DownloaderView {
            peer_id: self.peer_id@,
            peers_supporting_extensions: ids(self.peers_supporting_extensions@),
        }
    }
}

/// The ids of some peers.
spec fn ids(peers: Seq<[u8; 20]>) -> Set<Seq<u8>> {
    Set::new(|id: Seq<u8>| exists|i: int| 0 <= i < peers.len() && (#[trigger] peers[i])@ == id)
}

/// Whether a character is a digit or a letter of the English alphabet.
pub open spec fn is_alphanumeric(c: char) -> bool {
    '0' <= c <= '9' || 'A' <= c <= 'Z' || 'a' <= c <= 'z'
}

/// Whether a text can be the id of a downloader: twenty digits or letters.
pub open spec fn is_peer_id(s: Seq<char>) -> bool {
    &&& s.len() == 20
    &&& forall|i: int| 0 <= i < s.len() ==> is_alphanumeric(#[trigger] s[i])
}

/// `fastrand::alphanumeric`: some digit or letter, chosen at random.
pub assume_specification[ fastrand::alphanumeric ]() -> (c: char)
    ensures
        is_alphanumeric(c),
;

/// The name of the protocol.
pub open spec fn protocol() -> Seq<u8> {
    encode_utf8("BitTorrent protocol"@)
}

/// The eight reserved bytes of a handshake. The twentieth bit from the right,
/// counted from zero, signals support for extensions.
pub open spec fn reserved_bytes(extensions: bool) -> Seq<u8> {
    seq![
        0u8,
        0,
        0,
        0,
        0,
        if extensions {
            0x10u8
        } else {
            0
        },
        0,
        0,
    ]
}

/// The handshake for a torrent from a peer.
pub open spec fn handshake(extensions: bool, info_hash: Seq<u8>, peer_id: Seq<u8>) -> Seq<u8> {
    seq![19u8] + protocol() + reserved_bytes(extensions) + info_hash + peer_id
}

/// Why a handshake is refused.
#[derive(Debug, Clone, Copy, PartialEq, Eq, Structural)]
pub enum HandshakeError {
    /// It is not as long as a handshake is.
    Length,
    /// The length of the name of the protocol is wrong.
    ProtocolLength,
    /// The name of the protocol is wrong.
    Protocol,
}

/// What is wrong with a handshake, if anything is.
pub open spec fn handshake_error(s: Seq<u8>) -> Option<HandshakeError> {
    if s.len() != HANDSHAKE_LEN {
        Some(HandshakeError::Length)
    } else if s[0] != 19 {
        Some(HandshakeError::ProtocolLength)
    } else if s.subrange(1, 20) != protocol() {
        Some(HandshakeError::Protocol)
    } else {
        None
    }
}

/// The id that a peer gave in its handshake.
pub open spec fn handshake_peer_id(s: Seq<u8>) -> Seq<u8> {
    s.subrange(48, 68)
}

/// Whether a peer said in its handshake that it supports extensions.
pub open spec fn handshake_extensions(s: Seq<u8>) -> bool {
    s[25] & 0x10 == 0x10
}

/// The name of the protocol takes nineteen bytes.
proof fn lemma_protocol_len()
    ensures
        protocol().len() == 19,
{
    reveal_strlit("BitTorrent protocol");
    is_ascii_chars_encode_utf8("BitTorrent protocol"@);
}

/// An id takes a byte for each of its characters.
proof fn lemma_peer_id_len(peer_id: Seq<char>)
    requires
        is_peer_id(peer_id),
    ensures
        encode_utf8(peer_id).len() == 20,
{
    assert forall|i: int| 0 <= i < peer_id.len() implies (#[trigger] peer_id[i] as nat) < 128 by {
        assert(is_alphanumeric(peer_id[i]));
    }
    is_ascii_chars_encode_utf8(peer_id);
}

impl Downloader {
    /// Whether the downloader has an id, and keeps no peer in mind twice.
    pub closed spec fn wf(&self) -> bool {
        &&& is_peer_id(self@.peer_id)
        &&& forall|i: int, j: int|
            0 <= i < j < self.peers_supporting_extensions@.len() ==> (
            #[trigger] self.peers_supporting_extensions@[i])@ != (
            #[trigger] self.peers_supporting_extensions@[j])@
    }

    /// A downloader with an id chosen at random.
    pub fn new() -> (r: Self)
        ensures
            r.wf(),
            is_peer_id(r@.peer_id),
            r@.peers_supporting_extensions == Set::<Seq<u8>>::empty(),
    {
        Self::with_peer_id(random_peer_id())
    }

    /// A downloader with the given id.
    pub fn with_peer_id(peer_id: String) -> (r: Self)
        requires
            is_peer_id(peer_id@),
        ensures
            r.wf(),
            r@.peer_id == peer_id@,
            r@.peers_supporting_extensions == Set::<Seq<u8>>::empty(),
    {
        let r = Self { peer_id, peers_supporting_extensions: Vec::new() };
        assert(r@.peers_supporting_extensions =~= Set::<Seq<u8>>::empty());
        r
    }

    /// Whether a peer said that it supports extensions.
    pub fn does_peer_support_extensions(&self, peer_id: &[u8; 20]) -> (r: bool)
        ensures
            r == self@.peers_supporting_extensions.contains(peer_id@),
    {
        let peers = &self.peers_supporting_extensions;
        let mut i: usize = 0;
        while i < peers.len()
            invariant
                i <= peers.len(),
                *peers == self.peers_supporting_extensions,
                forall|j: int| 0 <= j < i ==> (#[trigger] peers@[j])@ != peer_id@,
            decreases peers.len() - i,
        {
            if bytes_eq(peers[i].as_slice(), peer_id.as_slice()) {
                assert(peers@[i as int]@ == peer_id@);
                return true;
            }
            i = i + 1;
        }
        false
    }

    /// The URL that the tracker of a torrent is asked for peers at.
    pub fn discover_peers_url(&self, torrent: &Torrent) -> (r: String)
        ensures
            r@ == tracker_url(
                torrent@.announce,
                self@.peer_id,
                torrent@.info.length,
                torrent@.info.info_hash,
            ),
    {
        announce_url(torrent, self.peer_id.as_str())
    }

    /// The handshake to send to a peer. Support for extensions is signalled when
    /// the torrent came from a magnet link.
    pub fn handshake_request(&self, torrent: &Torrent) -> (r: BytesMut)
        requires
            self.wf(),
        ensures
            buffered(r) == handshake(
                torrent@.from_magnet_link,
                torrent@.info.info_hash,
                encode_utf8(self@.peer_id),
            ),
            buffered(r).len() == HANDSHAKE_LEN,
    {
        proof {
            lemma_protocol_len();
            lemma_peer_id_len(self@.peer_id);
        }
        let mut data = buffer_with_capacity(HANDSHAKE_LEN);
        buffer_put_u8(&mut data, 19);
        buffer_put_slice(&mut data, "BitTorrent protocol".as_bytes());
        if torrent.from_magnet_link {
            buffer_put_bytes(&mut data, 0, 5);
            buffer_put_u8(&mut data, 16);
            buffer_put_bytes(&mut data, 0, 2);
        } else {
            buffer_put_bytes(&mut data, 0, 8);
        }
        assert(buffered(data) =~= seq![19u8] + protocol() + reserved_bytes(
            torrent@.from_magnet_link,
        ));
        buffer_put_slice(&mut data, torrent.info.info_hash.as_slice());
        buffer_put_slice(&mut data, self.peer_id.as_str().as_bytes());
        data
    }

    /// Takes the handshake that a peer sent back: gives the id of the peer, and
    /// keeps in mind whether it supports extensions.
    pub fn handshake_response(&mut self, resp: &[u8]) -> (r: Result<[u8; 20], HandshakeError>)
        requires
            old(self).wf(),
        ensures
            final(self).wf(),
            final(self)@.peer_id == old(self)@.peer_id,
            match handshake_error(resp@) {
                Some(e) => r == Err::<[u8; 20], HandshakeError>(e)
                    && final(self)@.peers_supporting_extensions == old(
                    self,
                )@.peers_supporting_extensions,
                None => {
                    &&& r matches Ok(id)
                    &&& id@ == handshake_peer_id(resp@)
                    &&& final(self)@.peers_supporting_extensions == if handshake_extensions(
                        resp@,
                    ) {
                        old(self)@.peers_supporting_extensions.insert(handshake_peer_id(resp@))
                    } else {
                        old(self)@.peers_supporting_extensions
                    }
                },
            },
    {
        if resp.len() != HANDSHAKE_LEN {
            return Err(HandshakeError::Length);
        }
        if resp[0] != 19 {
            return Err(HandshakeError::ProtocolLength);
        }
        let name = copy_range(resp, 1, 20);
        if !bytes_eq(name.as_slice(), "BitTorrent protocol".as_bytes()) {
            return Err(HandshakeError::Protocol);
        }
        let id_bytes = copy_range(resp, HANDSHAKE_LEN - 20, HANDSHAKE_LEN);
        let remote_peer_id = hash_at(&id_bytes, 0);
        assert(id_bytes@.subrange(0, 20) =~= resp@.subrange(48, 68));
        let reserved = copy_range(resp, 20, 28);
        assert(reserved@[5] == resp@[25]);
        if reserved[5] & 0x10 == 0x10 {
            if !self.does_peer_support_extensions(&remote_peer_id) {
                let ghost before = self.peers_supporting_extensions@;
                self.peers_supporting_extensions.push(remote_peer_id);
                let ghost after = self.peers_supporting_extensions@;
                proof {
                    assert forall|id: Seq<u8>|
                        ids(after).contains(id) <==> ids(before).insert(
                            remote_peer_id@,
                        ).contains(id) by {
                        if ids(before).contains(id) {
                            let i = choose|i: int|
                                0 <= i < before.len() && (#[trigger] before[i])@ == id;
                            assert(after[i]@ == id);
                        }
                        if id == remote_peer_id@ {
                            assert(after[before.len() as int]@ == id);
                        }
                        if ids(after).contains(id) && id != remote_peer_id@ {
                            let i = choose|i: int|
                                0 <= i < after.len() && (#[trigger] after[i])@ == id;
                            assert(before[i]@ == id);
                        }
                    }
                    assert(ids(after) =~= ids(before).insert(remote_peer_id@));
                }
            } else {
                assert(self@.peers_supporting_extensions.insert(remote_peer_id@)
                    =~= self@.peers_supporting_extensions);
            }
        }
        Ok(remote_peer_id)
    }
}

/// An id for a downloader, chosen at random.
fn random_peer_id() -> (r: String)
    ensures
        is_peer_id(r@),
{
    let mut id = String::new();
    let mut i: usize = 0;
    while i < 20
        invariant
            i <= 20,
            id@.len() == i,
            forall|j: int| 0 <= j < i ==> is_alphanumeric(#[trigger] id@[j]),
        decreases 20 - i,
    {
        id.push(fastrand::alphanumeric());
        i = i + 1;
    }
    id
}

/// A handshake made here is accepted by whoever gets it, who learns the id of the
/// sender, and that the sender supports extensions exactly if it said so.
pub proof fn law_handshake_round_trip(
    extensions: bool,
    info_hash: Seq<u8>,
    peer_id: Seq<u8>,
)
    requires
        info_hash.len() == 20,
        peer_id.len() == 20,
    ensures
        handshake(extensions, info_hash, peer_id).len() == HANDSHAKE_LEN,
        handshake_error(handshake(extensions, info_hash, peer_id)) is None,
        handshake_peer_id(handshake(extensions, info_hash, peer_id)) == peer_id,
        handshake_extensions(handshake(extensions, info_hash, peer_id)) == extensions,
{
    let s = handshake(extensions, info_hash, peer_id);
    lemma_protocol_len();
    assert(s.subrange(1, 20) =~= protocol());
    assert(s.subrange(48, 68) =~= peer_id);
    assert(0x10u8 & 0x10 == 0x10) by (bit_vector);
    assert(0u8 & 0x10 == 0) by (bit_vector);
}

/// Support for extensions is the twentieth bit from the right, counted from zero, of
/// the reserved bytes. No other bit is set.
pub proof fn law_extension_bit(extensions: bool)
    ensures
        reserved_bytes(extensions).len() == 8,
        be32(reserved_bytes(extensions).take(4)) == 0,
        be32(reserved_bytes(extensions).skip(4)) == if extensions {
            0x10_0000int
        } else {
            0
        },
{
}

/// The parts of a handshake and where they stand: the length of the name of the protocol,
/// the name, the reserved bytes, the info hash of the torrent and the id of the sender.
pub proof fn law_handshake_layout(extensions: bool, info_hash: Seq<u8>, peer_id: Seq<u8>)
    requires
        info_hash.len() == 20,
        peer_id.len() == 20,
    ensures
        ({
            let s = handshake(extensions, info_hash, peer_id);
            &&& s.len() == 68
            &&& s[0] == 19
            &&& s.subrange(1, 20) == encode_utf8("BitTorrent protocol"@)
            &&& s.subrange(20, 25) == seq![0u8, 0, 0, 0, 0]
            &&& s[25] == if extensions {
                0x10u8
            } else {
                0
            }
            &&& s.subrange(26, 28) == seq![0u8, 0]
            &&& s.subrange(28, 48) == info_hash
            &&& s.subrange(48, 68) == peer_id
        }),
{
    let s = handshake(extensions, info_hash, peer_id);
    lemma_protocol_len();
    assert(s.subrange(1, 20) =~= encode_utf8("BitTorrent protocol"@));
    assert(s.subrange(20, 28) =~= reserved_bytes(extensions));
    assert(s.subrange(20, 25) =~= s.subrange(20, 28).take(5));
    assert(reserved_bytes(extensions).take(5) =~= seq![0u8, 0, 0, 0, 0]);
    assert(s[25] == reserved_bytes(extensions)[5]);
    assert(s.subrange(26, 28) =~= seq![0u8, 0]);
    assert(s.subrange(28, 48) =~= info_hash);
    assert(s.subrange(48, 68) =~= peer_id);
}

/// Which handshakes are taken, and why any other is refused. What the reserved bytes, the
/// info hash and the id are has no part in it.
pub proof fn law_handshake_is_taken(s: Seq<u8>)
    ensures
        handshake_error(s) is None <==> s.len() == 68 && s[0] == 19 && s.subrange(1, 20)
            == encode_utf8("BitTorrent protocol"@),
        handshake_error(s) == Some(HandshakeError::Length) <==> s.len() != 68,
        handshake_error(s) == Some(HandshakeError::ProtocolLength) <==> s.len() == 68 && s[0] != 19,
{
}

/// A taken handshake gives the last twenty bytes as the id of its sender. The sender
/// supports extensions exactly if the twentieth bit from the right of the eight reserved
/// bytes is set, whatever the other bits are.
pub proof fn law_handshake_says(s: Seq<u8>, i: int)
    requires
        s.len() == 68,
    ensures
        handshake_peer_id(s).len() == 20,
        0 <= i < 20 ==> handshake_peer_id(s)[i] == s[48 + i],
        handshake_extensions(s) <==> be32(s.subrange(24, 28)) / 0x10_0000 % 2 == 1,
{
    let b = s[25];
    assert((b & 0x10 == 0x10) == (b / 16 % 2 == 1)) by (bit_vector);
    let t = s.subrange(24, 28);
    assert(t[0] == s[24] && t[1] == b && t[2] == s[26] && t[3] == s[27]);
    let n = be32(t);
    assert(n == s[24] * 0x100_0000 + b * 0x1_0000 + s[26] * 0x100 + s[27]);
    assert(n / 0x10_0000 == s[24] * 16 + b as int / 16);
    assert((b / 16) as int == b as int / 16);
}

/// An id is twenty letters or digits, no more and no less.
pub proof fn law_peer_id(s: Seq<char>)
    ensures
        is_peer_id(s) <==> s.len() == 20 && forall|i: int|
            0 <= i < 20 ==> ('0' <= (#[trigger] s[i]) <= '9' || 'A' <= s[i] <= 'Z' || 'a' <= s[i]
                <= 'z'),
{
    if s.len() == 20 && forall|i: int|
        0 <= i < 20 ==> ('0' <= (#[trigger] s[i]) <= '9' || 'A' <= s[i] <= 'Z' || 'a' <= s[i]
            <= 'z') {
        assert forall|i: int| 0 <= i < s.len() implies is_alphanumeric(#[trigger] s[i]) by {}
    }
    if is_peer_id(s) {
        assert forall|i: int| 0 <= i < 20 implies ('0' <= (#[trigger] s[i]) <= '9' || 'A' <= s[i]
            <= 'Z' || 'a' <= s[i] <= 'z') by {
            assert(is_alphanumeric(s[i]));
        }
    }
}

} // verus!
