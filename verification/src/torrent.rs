//! Torrents: what they hold, and where their description comes from.

use vstd::prelude::*;
use vstd::string::*;
use vstd::utf8::*;

use crate::bencode::{
    bencoded_bytes, bencoded_str, bencoded_uint, lemma_dictionary, lemma_entry, lemma_no_entry,
    lemma_written, push_bytes, push_str, push_uint, read_term, Term,
};
use crate::buffer::bytes_eq;
use crate::digest::{
    hex_bytes, hex_decode, hex_text, hex_value, is_hex, law_hex_round_trip, sha1, sha1_digest,
};
use crate::text::{str_eq, strip_prefix};

verus! {

/// The content of a metainfo file (also known as a .torrent file).
#[derive(Debug)]
pub struct Torrent {
    /// The URL of the tracker, a central server that keeps track of the peers
    /// that share the torrent.
    pub announce: String,
    /// What is shared.
    pub info: Info,
    /// Whether the torrent was obtained from a magnet link.
    pub from_magnet_link: bool,
}

/// What a torrent shares: one file, cut into pieces of equal length, except
/// that the last one may be shorter.
#[derive(Debug)]
pub struct Info {
    /// Size of the file in bytes.
    pub length: usize,
    /// Suggested name to save the file as.
    pub name: String,
    /// Number of bytes in each piece.
    pub piece_length: usize,
    /// The SHA-1 hashes of all pieces, one after the other.
    pub pieces: Vec<u8>,
    /// The SHA-1 hash of each piece.
    pub hashes: Hashes,
    /// The SHA-1 hash of this dictionary in bencode.
    pub info_hash: [u8; 20],
}

/// The SHA-1 hashes of the pieces, in the order of the pieces.
#[derive(Debug)]
pub struct Hashes(pub Vec<[u8; 20]>);

/// What a torrent says.
#[verifier::ext_equal]
pub struct TorrentView {
    pub announce: Seq<char>,
    pub info: InfoView,
    pub from_magnet_link: bool,
}

/// What an info dictionary says.
#[verifier::ext_equal]
pub struct InfoView {
    pub length: nat,
    pub name: Seq<char>,
    pub piece_length: nat,
    pub pieces: Seq<u8>,
    pub hashes: Seq<Seq<u8>>,
    pub info_hash: Seq<u8>,
}

impl View for Hashes {
    type V = Seq<Seq<u8>>;

    open spec fn view(&self) -> Seq<Seq<u8>> {
        Seq::new(self.0@.len(), |i: int| self.0@[i]@)
    }
}

impl View for Info {
    type V = InfoView;

    open spec fn view(&self) -> InfoView {
        InfoView {
            length: self.length as nat,
            name: self.name@,
            piece_length: self.piece_length as nat,
            pieces: self.pieces@,
            hashes: self.hashes@,
            info_hash: self.info_hash@,
        }
    }
}

impl View for Torrent {
    type V = TorrentView;

    open spec fn view(&self) -> TorrentView {
        TorrentView {
            announce: self.announce@,
            info: self.info@,
            from_magnet_link: self.from_magnet_link,
        }
    }
}

impl Hashes {
    /// How many pieces there are.
    pub fn len(&self) -> (n: usize)
        ensures
            n == self@.len(),
    {
        self.0.len()
    }

    /// The hash of a piece, if there is such a piece.
    pub fn get(&self, piece: usize) -> (r: Option<&[u8; 20]>)
        ensures
            r is Some <==> piece < self@.len(),
            r matches Some(hash) ==> hash@ == self@[piece as int],
    {
        if piece < self.0.len() {
            Some(&self.0[piece])
        } else {
            None
        }
    }
}

impl Clone for Hashes {
    fn clone(&self) -> (r: Self)
        ensures
            r@ == self@,
    {
        let mut hashes: Vec<[u8; 20]> = Vec::new();
        let mut i: usize = 0;
        while i < self.0.len()
            invariant
                i <= self.0.len(),
                hashes@ == self.0@.take(i as int),
            decreases self.0.len() - i,
        {
            hashes.push(self.0[i]);
            assert(self.0@.take(i + 1) =~= self.0@.take(i as int).push(self.0@[i as int]));
            i = i + 1;
        }
        assert(self.0@.take(i as int) =~= self.0@);
        Hashes(hashes)
    }
}

impl Clone for Info {
    fn clone(&self) -> (r: Self)
        ensures
            r@ == self@,
    {
        let mut pieces: Vec<u8> = Vec::new();
        pieces.extend_from_slice(self.pieces.as_slice());
        assert(pieces@ =~= self.pieces@);
        Info {
            length: self.length,
            name: self.name.clone(),
            piece_length: self.piece_length,
            pieces,
            hashes: self.hashes.clone(),
            info_hash: self.info_hash,
        }
    }
}

impl Clone for Torrent {
    fn clone(&self) -> (r: Self)
        ensures
            r@ == self@,
    {
        Torrent {
            announce: self.announce.clone(),
            info: self.info.clone(),
            from_magnet_link: self.from_magnet_link,
        }
    }
}

/// An info dictionary that says nothing yet.
pub open spec fn empty_info() -> InfoView {
    InfoView {
        length: 0,
        name: seq![],
        piece_length: 0,
        pieces: seq![],
        hashes: seq![],
        info_hash: zero_hash(),
    }
}

/// Twenty zero bytes.
pub open spec fn zero_hash() -> Seq<u8> {
    Seq::new(20, |i: int| 0u8)
}

/// The info dictionary in bencode: the fields that a metainfo file holds, in the
/// order of their keys.
pub open spec fn bencoded_info(info: InfoView) -> Seq<u8> {
    seq!['d' as u8]
        + bencoded_str("length"@) + bencoded_uint(info.length)
        + bencoded_str("name"@) + bencoded_str(info.name)
        + bencoded_str("piece length"@) + bencoded_uint(info.piece_length)
        + bencoded_str("pieces"@) + bencoded_bytes(info.pieces)
        + seq!['e' as u8]
}

/// The hashes that stand one after the other in `pieces`.
pub open spec fn split_hashes(pieces: Seq<u8>) -> Seq<Seq<u8>> {
    Seq::new(pieces.len() / 20, |i: int| pieces.subrange(20 * i, 20 * i + 20))
}

/// The info dictionary with the hashes of its pieces told apart and with its own
/// hash.
pub open spec fn finalized_info(info: InfoView) -> InfoView {
    InfoView {
        hashes: split_hashes(info.pieces),
        info_hash: sha1_digest(bencoded_info(info)),
        ..info
    }
}

/// The hashes of the pieces do not fill twenty bytes each.
#[derive(Debug, Clone, Copy, PartialEq, Eq, Structural)]
pub struct PiecesLengthError {
    /// How many bytes there are.
    pub length: usize,
}

impl Info {
    /// An info dictionary that says nothing yet.
    pub fn new() -> (r: Self)
        ensures
            r@ == empty_info(),
    {
        let info_hash = [0u8; 20];
        assert(info_hash@ =~= zero_hash());
        Self {
            length: 0,
            name: String::new(),
            piece_length: 0,
            pieces: Vec::new(),
            hashes: Hashes(Vec::new()),
            info_hash,
        }
    }

    /// This dictionary in bencode.
    pub fn bencode(&self) -> (r: Vec<u8>)
        ensures
            r@ == bencoded_info(self@),
    {
        let mut out: Vec<u8> = Vec::new();
        out.push(100u8);
        push_str(&mut out, "length");
        push_uint(&mut out, self.length as u64);
        push_str(&mut out, "name");
        push_str(&mut out, self.name.as_str());
        push_str(&mut out, "piece length");
        push_uint(&mut out, self.piece_length as u64);
        push_str(&mut out, "pieces");
        push_bytes(&mut out, self.pieces.as_slice());
        out.push(101u8);
        assert(out@ =~= bencoded_info(self@));
        out
    }

    /// Fills in the hashes of the pieces and the hash of the dictionary itself
    /// from what was read.
    pub fn finalize(&mut self) -> (r: Result<(), PiecesLengthError>)
        ensures
            r is Ok <==> old(self).pieces@.len() % 20 == 0,
            r is Ok ==> final(self)@ == finalized_info(old(self)@),
            r matches Err(e) ==> e.length == old(self).pieces@.len() && final(self)@ == old(
                self,
            )@,
    {
        let digest = sha1(self.bencode().as_slice());
        let n: usize = self.pieces.len();
        if n % 20 != 0 {
            return Err(PiecesLengthError { length: n });
        }
        let mut hashes: Vec<[u8; 20]> = Vec::new();
        let mut i: usize = 0;
        while i < n / 20
            invariant
                n == self.pieces@.len(),
                i <= n / 20,
                *self == *old(self),
                hashes@.len() == i,
                forall|j: int|
                    0 <= j < i ==> (#[trigger] hashes@[j])@ == self.pieces@.subrange(
                        20 * j,
                        20 * j + 20,
                    ),
            decreases n / 20 - i,
        {
            let hash = hash_at(&self.pieces, 20 * i);
            hashes.push(hash);
            i = i + 1;
        }
        self.hashes = Hashes(hashes);
        self.info_hash = digest;
        assert(self.hashes@ =~= split_hashes(old(self).pieces@));
        Ok(())
    }
}

/// The twenty bytes of `v` from `from` on.
pub(crate) fn hash_at(v: &Vec<u8>, from: usize) -> (r: [u8; 20])
    requires
        from + 20 <= v@.len(),
    ensures
        r@ == v@.subrange(from as int, from + 20),
{
    let n: usize = v.len();
    let mut r = [0u8; 20];
    let mut i: usize = 0;
    while i < 20
        invariant
            i <= 20,
            n == v@.len(),
            from + 20 <= n,
            forall|j: int| 0 <= j < i ==> r@[j] == v@[from + j],
        decreases 20 - i,
    {
        r[i] = v[from + i];
        i = i + 1;
    }
    assert(r@ =~= v@.subrange(from as int, from + 20));
    r
}

/// Completes a torrent as it was read from a metainfo file.
pub fn parse_torrent(torrent: Torrent) -> (r: Result<Torrent, PiecesLengthError>)
    ensures
        r is Ok <==> torrent.info.pieces@.len() % 20 == 0,
        r matches Ok(t) ==> t@ == (TorrentView { info: finalized_info(torrent.info@), ..torrent@ }),
        r matches Err(e) ==> e.length == torrent.info.pieces@.len(),
{
    let mut torrent = torrent;
    match torrent.info.finalize() {
        Ok(()) => Ok(torrent),
        Err(e) => Err(e),
    }
}

/// The hashes told apart, put one after the other again, are the bytes they came
/// from.
pub proof fn law_hashes_are_the_pieces(pieces: Seq<u8>)
    requires
        pieces.len() % 20 == 0,
    ensures
        split_hashes(pieces).flatten() == pieces,
        forall|i: int|
            0 <= i < split_hashes(pieces).len() ==> (#[trigger] split_hashes(pieces)[i]).len()
                == 20,
    decreases pieces.len(),
{
    let hashes = split_hashes(pieces);
    if pieces.len() == 0 {
        assert(hashes.flatten() =~= pieces);
    } else {
        let rest = pieces.skip(20);
        law_hashes_are_the_pieces(rest);
        assert(hashes.drop_first() =~= split_hashes(rest)) by {
            assert forall|i: int| 0 <= i < split_hashes(rest).len() implies hashes.drop_first()[i]
                == #[trigger] split_hashes(rest)[i] by {
                assert(pieces.subrange(20 * (i + 1), 20 * (i + 1) + 20) =~= rest.subrange(
                    20 * i,
                    20 * i + 20,
                ));
            }
        }
        assert(hashes.first() + rest =~= pieces);
    }
}

/// Completing a dictionary that is complete changes nothing: the hash is that of
/// what was read, not of what was filled in.
pub proof fn law_finalize_is_idempotent(info: InfoView)
    ensures
        finalized_info(finalized_info(info)) == finalized_info(info),
{
}

/// A link to a torrent that needs no metainfo file.
#[derive(Debug)]
pub struct Magnet {
    /// The SHA-1 hash of the info dictionary in bencode (required).
    pub info_hash: [u8; 20],
    /// The URL of the tracker.
    pub announce: Option<String>,
    /// Suggested name to save the file as.
    pub name: Option<String>,
}

/// What a magnet link says.
#[verifier::ext_equal]
pub struct MagnetView {
    pub info_hash: Seq<u8>,
    pub announce: Option<Seq<char>>,
    pub name: Option<Seq<char>>,
}

/// The characters of a text that may be missing.
pub open spec fn opt_view(s: Option<String>) -> Option<Seq<char>> {
    match s {
        Some(s) => Some(s@),
        None => None,
    }
}

impl View for Magnet {
    type V = MagnetView;

    open spec fn view(&self) -> MagnetView {
        MagnetView {
            info_hash: self.info_hash@,
            announce: opt_view(self.announce),
            name: opt_view(self.name),
        }
    }
}

/// Why a magnet link is refused.
#[derive(Debug)]
pub enum MagnetError {
    /// It is no URL.
    NotAUrl,
    /// Its topic is no BitTorrent info hash.
    MalformedTopic,
    /// Its info hash is not twenty bytes in hexadecimal.
    InvalidInfoHash,
    /// It has a parameter that is not known.
    UnknownParam(String),
    /// It has no topic, and so no info hash.
    MissingTopic,
}

/// What parsing a magnet link comes to.
#[verifier::ext_equal]
pub enum MagnetOutcome {
    Parsed(MagnetView),
    NotAUrl,
    MalformedTopic,
    InvalidInfoHash,
    UnknownParam(Seq<char>),
    MissingTopic,
}

/// What a result says.
pub open spec fn magnet_outcome(r: Result<Magnet, MagnetError>) -> MagnetOutcome {
    match r {
        Ok(magnet) => MagnetOutcome::Parsed(magnet@),
        Err(MagnetError::NotAUrl) => MagnetOutcome::NotAUrl,
        Err(MagnetError::MalformedTopic) => MagnetOutcome::MalformedTopic,
        Err(MagnetError::InvalidInfoHash) => MagnetOutcome::InvalidInfoHash,
        Err(MagnetError::UnknownParam(key)) => MagnetOutcome::UnknownParam(key@),
        Err(MagnetError::MissingTopic) => MagnetOutcome::MissingTopic,
    }
}

/// What is known of a magnet link before any of its parameters has been read.
pub open spec fn empty_magnet() -> MagnetView {
    MagnetView { info_hash: zero_hash(), announce: None, name: None }
}

/// A query parameter: its key, whether the key is written without escapes, and
/// its value.
pub type QueryParam = (String, bool, String);

/// What query parameters say.
pub open spec fn params_view(params: Seq<QueryParam>) -> Seq<(Seq<char>, bool, Seq<char>)> {
    Seq::new(params.len(), |i: int| (params[i].0@, params[i].1, params[i].2@))
}

/// What stands in front of an info hash in a topic.
pub open spec fn topic_prefix() -> Seq<char> {
    "urn:btih:"@
}

/// A magnet link with one more parameter. A parameter replaces an earlier one
/// with the same key, and a key that is written with escapes is not known.
pub open spec fn with_param(
    magnet: MagnetView,
    param: (Seq<char>, bool, Seq<char>),
) -> MagnetOutcome {
    let (key, plain, value) = param;
    if plain && key == "tr"@ {
        MagnetOutcome::Parsed(MagnetView { announce: Some(value), ..magnet })
    } else if plain && key == "dn"@ {
        MagnetOutcome::Parsed(MagnetView { name: Some(value), ..magnet })
    } else if plain && key == "xt"@ {
        let digits = value.skip(topic_prefix().len() as int);
        if !topic_prefix().is_prefix_of(value) {
            MagnetOutcome::MalformedTopic
        } else if !is_hex(digits, 20) {
            MagnetOutcome::InvalidInfoHash
        } else {
            MagnetOutcome::Parsed(MagnetView { info_hash: hex_bytes(digits), ..magnet })
        }
    } else {
        MagnetOutcome::UnknownParam(key)
    }
}

/// What the given parameters say, whether or not a topic is among them, or what is
/// wrong with the first of them that is refused.
pub open spec fn magnet_of(params: Seq<(Seq<char>, bool, Seq<char>)>) -> MagnetOutcome
    decreases params.len(),
{
    if params.len() == 0 {
        MagnetOutcome::Parsed(empty_magnet())
    } else {
        match magnet_of(params.drop_last()) {
            MagnetOutcome::Parsed(magnet) => with_param(magnet, params.last()),
            refused => refused,
        }
    }
}

/// The value of the last parameter with the given key, if there is one.
pub open spec fn last_value(
    params: Seq<(Seq<char>, bool, Seq<char>)>,
    key: Seq<char>,
) -> Option<Seq<char>>
    decreases params.len(),
{
    if params.len() == 0 {
        None
    } else if params.last().1 && params.last().0 == key {
        Some(params.last().2)
    } else {
        last_value(params.drop_last(), key)
    }
}

/// The magnet link with the given parameters, or what is wrong with the first of
/// them that is refused. A magnet link has a topic.
pub open spec fn complete_magnet_of(
    params: Seq<(Seq<char>, bool, Seq<char>)>,
) -> MagnetOutcome {
    match magnet_of(params) {
        MagnetOutcome::Parsed(magnet) => if last_value(params, "xt"@) is Some {
            MagnetOutcome::Parsed(magnet)
        } else {
            MagnetOutcome::MissingTopic
        },
        refused => refused,
    }
}

/// The query parameters of a URL, or nothing for a text that is no URL.
pub uninterp spec fn url_query_params(url: Seq<char>) -> Option<
    Seq<(Seq<char>, bool, Seq<char>)>,
>;

/// `reqwest::Url::parse`, and then `Url::query_pairs`: the parameters of the
/// query, percent-decoded, in their order. Which texts are URLs and how a query
/// is decoded is left to that crate. The flag tells whether the key came back
/// borrowed from the URL, that is, whether nothing in it had to be decoded.
#[verifier::external_body]
fn query_params(url: &str) -> (r: Option<Vec<QueryParam>>)
    ensures
        r is Some <==> url_query_params(url@) is Some,
        r matches Some(params) ==> Some(params_view(params@)) == url_query_params(url@),
{
    let url = reqwest::Url::parse(url).ok()?;
    let params = url.query_pairs().map(|(k, v)| match k {
        std::borrow::Cow::Borrowed(k) => (k.to_owned(), true, v.into_owned()),
        std::borrow::Cow::Owned(k) => (k, false, v.into_owned()),
    });
    Some(params.collect())
}

/// Puts a magnet link together from its query parameters.
pub fn magnet_from_params(params: Vec<QueryParam>) -> (r: Result<Magnet, MagnetError>)
    ensures
        magnet_outcome(r) == complete_magnet_of(params_view(params@)),
{
    let ghost all = params_view(params@);
    let mut magnet = Magnet { info_hash: [0u8; 20], announce: None, name: None };
    assert(magnet.info_hash@ =~= zero_hash());
    let mut has_topic = false;
    proof {
        lemma_keys_differ();
    }
    let mut i: usize = 0;
    while i < params.len()
        invariant
            i <= params.len(),
            all == params_view(params@),
            magnet_of(all.take(i as int)) == MagnetOutcome::Parsed(magnet@),
            has_topic == (last_value(all.take(i as int), "xt"@) is Some),
            "tr"@ != "xt"@,
            "dn"@ != "xt"@,
        decreases params.len() - i,
    {
        let (key, plain, value) = &params[i];
        assert(all.take(i + 1).drop_last() =~= all.take(i as int));
        assert(all.take(i + 1).last() == (key@, *plain, value@));
        if *plain && str_eq(key.as_str(), "tr") {
            magnet.announce = Some(value.clone());
        } else if *plain && str_eq(key.as_str(), "dn") {
            magnet.name = Some(value.clone());
        } else if *plain && str_eq(key.as_str(), "xt") {
            match strip_prefix(value.as_str(), "urn:btih:") {
                None => {
                    proof {
                        lemma_refusal_stays(all, i + 1);
                    }
                    return Err(MagnetError::MalformedTopic);
                },
                Some(digits) => match hex_decode(digits) {
                    Err(_) => {
                        proof {
                            lemma_refusal_stays(all, i + 1);
                        }
                        return Err(MagnetError::InvalidInfoHash);
                    },
                    Ok(info_hash) => {
                        magnet.info_hash = info_hash;
                        has_topic = true;
                    },
                },
            }
        } else {
            proof {
                lemma_refusal_stays(all, i + 1);
            }
            return Err(MagnetError::UnknownParam(key.clone()));
        }
        i = i + 1;
    }
    assert(all.take(i as int) =~= all);
    if !has_topic {
        return Err(MagnetError::MissingTopic);
    }
    Ok(magnet)
}

/// What is refused after some parameters is refused after all of them.
proof fn lemma_refusal_stays(params: Seq<(Seq<char>, bool, Seq<char>)>, n: int)
    requires
        0 <= n <= params.len(),
        !(magnet_of(params.take(n)) is Parsed),
    ensures
        magnet_of(params) == magnet_of(params.take(n)),
    decreases params.len(),
{
    if n == params.len() {
        assert(params.take(n) =~= params);
    } else {
        assert(params.drop_last().take(n) =~= params.take(n));
        lemma_refusal_stays(params.drop_last(), n);
    }
}

/// Parses a magnet link.
pub fn parse_magnet_link(magnet_link: &str) -> (r: Result<Magnet, MagnetError>)
    ensures
        magnet_outcome(r) == match url_query_params(magnet_link@) {
            None => MagnetOutcome::NotAUrl,
            Some(params) => complete_magnet_of(params),
        },
{
    match query_params(magnet_link) {
        None => Err(MagnetError::NotAUrl),
        Some(params) => magnet_from_params(params),
    }
}

/// The torrent that a magnet link describes. Its length is not known, and is set
/// to a number that is not zero.
pub open spec fn torrent_of_magnet(magnet: MagnetView) -> TorrentView
    recommends
        magnet.announce is Some,
{
    TorrentView {
        announce: magnet.announce->0,
        info: InfoView { info_hash: magnet.info_hash, length: 999, ..empty_info() },
        from_magnet_link: true,
    }
}

/// Metadata that a peer sent does not have the hash that was asked for.
#[derive(Debug)]
pub struct InfoHashMismatch {
    pub expected: [u8; 20],
    pub found: [u8; 20],
}

impl Torrent {
    /// The torrent that a magnet link describes, as far as it is known.
    pub fn from_magnet(magnet: Magnet) -> (r: Self)
        requires
            magnet.announce is Some,
        ensures
            r@ == torrent_of_magnet(magnet@),
    {
        let mut info = Info::new();
        info.info_hash = magnet.info_hash;
        info.length = 999;
        Self { announce: magnet.announce.unwrap(), info, from_magnet_link: true }
    }

    /// Takes over the info dictionary that a peer sent, and tells whether it is
    /// the one that the torrent was to have.
    pub fn set_info(&mut self, info: Info) -> (r: Result<(), InfoHashMismatch>)
        ensures
            final(self)@ == (TorrentView { info: info@, ..old(self)@ }),
            r is Ok <==> old(self)@.info.info_hash == info@.info_hash,
            r matches Err(e) ==> e.expected@ == old(self)@.info.info_hash && e.found@
                == info@.info_hash,
    {
        let expected = self.info.info_hash;
        let found = info.info_hash;
        self.info = info;
        if bytes_eq(expected.as_slice(), found.as_slice()) {
            Ok(())
        } else {
            Err(InfoHashMismatch { expected, found })
        }
    }
}

/// A refused parameter decides whatever follows it: parameters are read in their
/// order, and reading stops at the first one that is refused.
pub proof fn law_first_refusal_decides(
    params: Seq<(Seq<char>, bool, Seq<char>)>,
    more: Seq<(Seq<char>, bool, Seq<char>)>,
)
    requires
        !(magnet_of(params) is Parsed),
    ensures
        magnet_of(params + more) == magnet_of(params),
        complete_magnet_of(params + more) == magnet_of(params),
{
    assert((params + more).take(params.len() as int) =~= params);
    lemma_refusal_stays(params + more, params.len() as int);
}

/// Whether a parameter is one that a magnet link may have.
pub open spec fn is_accepted(param: (Seq<char>, bool, Seq<char>)) -> bool {
    with_param(empty_magnet(), param) is Parsed
}

/// A magnet link is parsed exactly if each of its parameters is accepted and one of
/// them is a topic. Each field then holds what the last parameter with its key says:
/// the info hash is the one that the last topic spells.
pub proof fn law_parsed_magnet(params: Seq<(Seq<char>, bool, Seq<char>)>)
    ensures
        complete_magnet_of(params) is Parsed <==> last_value(params, "xt"@) is Some && forall|
            i: int,
        |
            0 <= i < params.len() ==> is_accepted(#[trigger] params[i]),
        complete_magnet_of(params) is MissingTopic <==> last_value(params, "xt"@) is None
            && forall|i: int| 0 <= i < params.len() ==> is_accepted(#[trigger] params[i]),
        complete_magnet_of(params) matches MagnetOutcome::Parsed(magnet) ==> {
            &&& magnet.announce == last_value(params, "tr"@)
            &&& magnet.name == last_value(params, "dn"@)
            &&& last_value(params, "xt"@) matches Some(topic)
            &&& topic_prefix().is_prefix_of(topic)
            &&& is_hex(topic.skip(topic_prefix().len() as int), 20)
            &&& magnet.info_hash == hex_bytes(topic.skip(topic_prefix().len() as int))
        },
{
    lemma_parsed_params(params);
    lemma_never_missing(params);
}

/// No parameter by itself says that the topic is missing.
proof fn lemma_never_missing(params: Seq<(Seq<char>, bool, Seq<char>)>)
    ensures
        !(magnet_of(params) is MissingTopic),
    decreases params.len(),
{
    if params.len() > 0 {
        lemma_never_missing(params.drop_last());
    }
}

/// Parameters are read to the end exactly if each of them is accepted. Each field
/// then holds what the last parameter with its key says.
proof fn lemma_parsed_params(params: Seq<(Seq<char>, bool, Seq<char>)>)
    ensures
        magnet_of(params) is Parsed <==> forall|i: int|
            0 <= i < params.len() ==> is_accepted(#[trigger] params[i]),
        magnet_of(params) matches MagnetOutcome::Parsed(magnet) ==> {
            &&& magnet.announce == last_value(params, "tr"@)
            &&& magnet.name == last_value(params, "dn"@)
            &&& last_value(params, "xt"@) matches Some(topic) ==> {
                &&& topic_prefix().is_prefix_of(topic)
                &&& is_hex(topic.skip(topic_prefix().len() as int), 20)
                &&& magnet.info_hash == hex_bytes(topic.skip(topic_prefix().len() as int))
            }
        },
    decreases params.len(),
{
    lemma_keys_differ();
    if params.len() > 0 {
        let before = params.drop_last();
        lemma_parsed_params(before);
        if forall|i: int| 0 <= i < params.len() ==> is_accepted(#[trigger] params[i]) {
            assert forall|i: int| 0 <= i < before.len() implies is_accepted(
                #[trigger] before[i],
            ) by {
                assert(before[i] == params[i]);
            }
            assert(is_accepted(params[params.len() - 1]));
        }
        if magnet_of(params) is Parsed {
            assert forall|i: int| 0 <= i < params.len() implies is_accepted(
                #[trigger] params[i],
            ) by {
                if i < before.len() {
                    assert(before[i] == params[i]);
                }
            }
        }
    }
}

/// The keys of a magnet link are different.
proof fn lemma_keys_differ()
    ensures
        "tr"@ != "dn"@,
        "tr"@ != "xt"@,
        "dn"@ != "xt"@,
{
    reveal_strlit("tr");
    reveal_strlit("dn");
    reveal_strlit("xt");
    assert("tr"@[0] == 't' && "dn"@[0] == 'd' && "xt"@[0] == 'x');
}

/// A magnet link that has a topic keeps having one, whatever parameters follow.
pub proof fn law_topic_stays(
    params: Seq<(Seq<char>, bool, Seq<char>)>,
    more: Seq<(Seq<char>, bool, Seq<char>)>,
)
    requires
        last_value(params, "xt"@) is Some,
    ensures
        last_value(params + more, "xt"@) is Some,
        !(complete_magnet_of(params + more) is MissingTopic),
    decreases more.len(),
{
    lemma_never_missing(params + more);
    if more.len() == 0 {
        assert(params + more =~= params);
    } else {
        assert((params + more).drop_last() =~= params + more.drop_last());
        law_topic_stays(params, more.drop_last());
    }
}

/// A topic written for an info hash is read as this info hash.
pub proof fn law_topic_round_trip(info_hash: Seq<u8>, magnet: MagnetView)
    requires
        info_hash.len() == 20,
    ensures
        with_param(magnet, ("xt"@, true, topic_prefix() + hex_text(info_hash)))
            == MagnetOutcome::Parsed(MagnetView { info_hash, ..magnet }),
{
    lemma_keys_differ();
    law_hex_round_trip(info_hash);
    let value = topic_prefix() + hex_text(info_hash);
    assert(value.skip(topic_prefix().len() as int) =~= hex_text(info_hash));
    assert(topic_prefix() =~= value.take(topic_prefix().len() as int));
    assert(topic_prefix().is_prefix_of(value));
}

/// The info dictionary is read back from its bytes in bencode: it has exactly four
/// entries, and each has the full value of its field.
pub proof fn law_info_round_trip(info: InfoView, rest: Seq<u8>)
    ensures
        read_term(bencoded_info(info) + rest) == Some(
            (
                Term::Dictionary(
                    seq![
                        (encode_utf8("length"@), Term::Number(info.length)),
                        (encode_utf8("name"@), Term::Bytes(encode_utf8(info.name))),
                        (encode_utf8("piece length"@), Term::Number(info.piece_length)),
                        (encode_utf8("pieces"@), Term::Bytes(info.pieces)),
                    ],
                ),
                rest,
            ),
        ),
{
    let end = seq!['e' as u8] + rest;
    let pieces = bencoded_str("pieces"@) + bencoded_bytes(info.pieces) + end;
    let piece_length = bencoded_str("piece length"@) + bencoded_uint(info.piece_length) + pieces;
    let name = bencoded_str("name"@) + bencoded_str(info.name) + piece_length;
    let length = bencoded_str("length"@) + bencoded_uint(info.length) + name;
    lemma_no_entry(rest);
    lemma_written(info.pieces, info.piece_length);
    lemma_written(encode_utf8(info.name), info.length);
    lemma_entry(
        encode_utf8("pieces"@),
        bencoded_bytes(info.pieces),
        Term::Bytes(info.pieces),
        end,
    );
    lemma_entry(
        encode_utf8("piece length"@),
        bencoded_uint(info.piece_length),
        Term::Number(info.piece_length),
        pieces,
    );
    lemma_entry(
        encode_utf8("name"@),
        bencoded_str(info.name),
        Term::Bytes(encode_utf8(info.name)),
        piece_length,
    );
    lemma_entry(
        encode_utf8("length"@),
        bencoded_uint(info.length),
        Term::Number(info.length),
        name,
    );
    lemma_grouped_entries(
        seq!['d' as u8],
        (bencoded_str("length"@), bencoded_uint(info.length)),
        (bencoded_str("name"@), bencoded_str(info.name)),
        (bencoded_str("piece length"@), bencoded_uint(info.piece_length)),
        (bencoded_str("pieces"@), bencoded_bytes(info.pieces)),
        seq!['e' as u8],
        rest,
    );
    lemma_dictionary(length);
    assert(bencoded_info(info) + rest == seq!['d' as u8] + length);
    lemma_four(
        (encode_utf8("length"@), Term::Number(info.length)),
        (encode_utf8("name"@), Term::Bytes(encode_utf8(info.name))),
        (encode_utf8("piece length"@), Term::Number(info.piece_length)),
        (encode_utf8("pieces"@), Term::Bytes(info.pieces)),
    );
}

/// Four entries, put together one by one.
proof fn lemma_four(
    a: (Seq<u8>, Term),
    b: (Seq<u8>, Term),
    c: (Seq<u8>, Term),
    d: (Seq<u8>, Term),
)
    ensures
        seq![a] + (seq![b] + (seq![c] + (seq![d] + Seq::<(Seq<u8>, Term)>::empty()))) == seq![
            a,
            b,
            c,
            d,
        ],
{
    assert(seq![a] + (seq![b] + (seq![c] + (seq![d] + Seq::<(Seq<u8>, Term)>::empty())))
        =~= seq![a, b, c, d]);
}

/// Keys and values put together in another grouping.
proof fn lemma_grouped_entries(
    begin: Seq<u8>,
    a: (Seq<u8>, Seq<u8>),
    b: (Seq<u8>, Seq<u8>),
    c: (Seq<u8>, Seq<u8>),
    d: (Seq<u8>, Seq<u8>),
    end: Seq<u8>,
    rest: Seq<u8>,
)
    ensures
        begin + a.0 + a.1 + b.0 + b.1 + c.0 + c.1 + d.0 + d.1 + end + rest == begin + (a.0 + a.1 + (
        b.0 + b.1 + (c.0 + c.1 + (d.0 + d.1 + (end + rest))))),
{
    let four = d.0 + d.1 + (end + rest);
    let three = c.0 + c.1 + four;
    let two = b.0 + b.1 + three;
    let p = begin + a.0 + a.1;
    let q = p + b.0 + b.1;
    let r = q + c.0 + c.1;
    assert(r + d.0 + d.1 + end + rest =~= r + four);
    assert(r + four =~= q + three);
    assert(q + three =~= p + two);
    assert(p + two =~= begin + (a.0 + a.1 + two));
}

/// Dictionaries that differ in any of their four fields are different in bencode.
pub proof fn law_bencoded_info_is_injective(a: InfoView, b: InfoView)
    requires
        bencoded_info(a) == bencoded_info(b),
    ensures
        a.length == b.length,
        a.name == b.name,
        a.piece_length == b.piece_length,
        a.pieces == b.pieces,
{
    law_info_round_trip(a, seq![]);
    law_info_round_trip(b, seq![]);
    let x = (read_term(bencoded_info(a) + seq![])->0).0->Dictionary_0;
    let y = (read_term(bencoded_info(b) + seq![])->0).0->Dictionary_0;
    assert(x == y);
    assert(x[0].1 == Term::Number(a.length) && y[0].1 == Term::Number(b.length));
    assert(x[1].1 == Term::Bytes(encode_utf8(a.name)) && y[1].1 == Term::Bytes(
        encode_utf8(b.name),
    ));
    assert(x[2].1 == Term::Number(a.piece_length) && y[2].1 == Term::Number(b.piece_length));
    assert(x[3].1 == Term::Bytes(a.pieces) && y[3].1 == Term::Bytes(b.pieces));
    encode_utf8_decode_utf8(a.name);
    encode_utf8_decode_utf8(b.name);
}

/// Completing a dictionary leaves what was read as it was. The hashes are those that
/// stand in the pieces, twenty bytes each, in their order; the info hash is the digest
/// of the dictionary in bencode.
pub proof fn law_finalized_info(info: InfoView, i: int)
    requires
        info.pieces.len() % 20 == 0,
    ensures
        finalized_info(info).length == info.length,
        finalized_info(info).name == info.name,
        finalized_info(info).piece_length == info.piece_length,
        finalized_info(info).pieces == info.pieces,
        20 * finalized_info(info).hashes.len() == info.pieces.len(),
        0 <= i < finalized_info(info).hashes.len() ==> finalized_info(info).hashes[i]
            == info.pieces.subrange(20 * i, 20 * i + 20),
        finalized_info(info).info_hash == sha1_digest(bencoded_info(info)),
{
}

/// Dictionaries in which the same was read are completed alike, whatever was filled in
/// before.
pub proof fn law_info_hash_depends_on_what_was_read(a: InfoView, b: InfoView)
    requires
        a.length == b.length,
        a.name == b.name,
        a.piece_length == b.piece_length,
        a.pieces == b.pieces,
    ensures
        finalized_info(a) == finalized_info(b),
{
}

/// What is said of a torrent is what stands in its fields.
pub proof fn law_torrent_view(torrent: Torrent, i: int)
    ensures
        torrent@.announce == torrent.announce@,
        torrent@.from_magnet_link == torrent.from_magnet_link,
        torrent@.info.length == torrent.info.length,
        torrent@.info.name == torrent.info.name@,
        torrent@.info.piece_length == torrent.info.piece_length,
        torrent@.info.pieces == torrent.info.pieces@,
        torrent@.info.info_hash == torrent.info.info_hash@,
        torrent@.info.hashes.len() == torrent.info.hashes.0@.len(),
        0 <= i < torrent.info.hashes.0@.len() ==> torrent@.info.hashes[i]
            == torrent.info.hashes.0@[i]@,
{
}

/// What is said of a magnet link is what stands in its fields, and what is said of a
/// result tells a magnet link and every error apart.
pub proof fn law_magnet_view(magnet: Magnet, r: Result<Magnet, MagnetError>)
    ensures
        magnet@.info_hash == magnet.info_hash@,
        magnet.announce is None <==> magnet@.announce is None,
        magnet.announce matches Some(announce) ==> magnet@.announce == Some(announce@),
        magnet.name is None <==> magnet@.name is None,
        magnet.name matches Some(name) ==> magnet@.name == Some(name@),
        r matches Ok(m) ==> magnet_outcome(r) == MagnetOutcome::Parsed(m@),
        r matches Err(MagnetError::NotAUrl) <==> magnet_outcome(r) is NotAUrl,
        r matches Err(MagnetError::MalformedTopic) <==> magnet_outcome(r) is MalformedTopic,
        r matches Err(MagnetError::InvalidInfoHash) <==> magnet_outcome(r) is InvalidInfoHash,
        r matches Err(MagnetError::MissingTopic) <==> magnet_outcome(r) is MissingTopic,
        r matches Err(MagnetError::UnknownParam(key)) ==> magnet_outcome(r)
            == MagnetOutcome::UnknownParam(key@),
        r is Ok <==> magnet_outcome(r) is Parsed,
{
}

/// What is said of query parameters is what stands in them, one by one.
pub proof fn law_params_view(params: Seq<QueryParam>, i: int)
    ensures
        params_view(params).len() == params.len(),
        0 <= i < params.len() ==> params_view(params)[i] == (
            params[i].0@,
            params[i].1,
            params[i].2@,
        ),
{
}

/// Which parameters a magnet link may have, and what is wrong with any other: a tracker
/// and a name may be anything, a topic is `urn:btih:` and forty hexadecimal digits.
pub proof fn law_single_param(param: (Seq<char>, bool, Seq<char>))
    ensures
        magnet_of(seq![param]) is Parsed <==> param.1 && (param.0 == "tr"@ || param.0 == "dn"@ || (
        param.0 == "xt"@ && param.2.len() == 49 && param.2.take(9) == "urn:btih:"@ && forall|i: int|
            9 <= i < 49 ==> ('0' <= (#[trigger] param.2[i]) <= '9' || 'a' <= param.2[i] <= 'f'
                || 'A' <= param.2[i] <= 'F'))),
        magnet_of(seq![param]) is MalformedTopic <==> param.1 && param.0 == "xt"@ && (param.2.len()
            < 9 || param.2.take(9) != "urn:btih:"@),
        magnet_of(seq![param]) is UnknownParam <==> !param.1 || (param.0 != "tr"@ && param.0
            != "dn"@ && param.0 != "xt"@),
        magnet_of(seq![param]) matches MagnetOutcome::UnknownParam(key) ==> key == param.0,
        !(magnet_of(seq![param]) is NotAUrl),
        !(magnet_of(seq![param]) is MissingTopic),
{
    lemma_keys_differ();
    reveal_strlit("urn:btih:");
    reveal_with_fuel(magnet_of, 2);
    assert(seq![param].drop_last() =~= seq![]);
    assert(seq![param].last() == param);
    let (key, plain, value) = param;
    let prefix = "urn:btih:"@;
    assert(prefix.len() == 9);
    if value.len() >= 9 && value.take(9) == prefix {
        assert(prefix.is_prefix_of(value));
    }
    if prefix.is_prefix_of(value) {
        assert(value.take(9) =~= prefix);
        let digits = value.skip(9);
        if is_hex(digits, 20) {
            assert forall|i: int| 9 <= i < 49 implies ('0' <= (#[trigger] value[i]) <= '9' || 'a'
                <= value[i] <= 'f' || 'A' <= value[i] <= 'F') by {
                assert(hex_value(digits[i - 9]) is Some);
            }
        }
        if value.len() == 49 && forall|i: int|
            9 <= i < 49 ==> ('0' <= (#[trigger] value[i]) <= '9' || 'a' <= value[i] <= 'f' || 'A'
                <= value[i] <= 'F') {
            assert forall|i: int| 0 <= i < digits.len() implies hex_value(
                #[trigger] digits[i],
            ) is Some by {
                assert(digits[i] == value[i + 9]);
            }
        }
    }
}

/// Parameters are read one after the other: whether one more is refused, and why, does
/// not depend on those before it, and one that is read changes its own field only.
pub proof fn law_one_more_param(
    params: Seq<(Seq<char>, bool, Seq<char>)>,
    param: (Seq<char>, bool, Seq<char>),
)
    requires
        magnet_of(params) is Parsed,
    ensures
        magnet_of(params.push(param)) is Parsed <==> magnet_of(seq![param]) is Parsed,
        !(magnet_of(seq![param]) is Parsed) ==> magnet_of(params.push(param)) == magnet_of(
            seq![param],
        ),
        magnet_of(params.push(param)) matches MagnetOutcome::Parsed(after) ==> {
            let before = magnet_of(params)->Parsed_0;
            &&& after.announce == if param.0 == "tr"@ {
                Some(param.2)
            } else {
                before.announce
            }
            &&& after.name == if param.0 == "dn"@ {
                Some(param.2)
            } else {
                before.name
            }
            &&& param.0 != "xt"@ ==> after.info_hash == before.info_hash
        },
{
    lemma_keys_differ();
    reveal_with_fuel(magnet_of, 2);
    assert(params.push(param).drop_last() =~= params);
    assert(seq![param].drop_last() =~= seq![]);
    assert(seq![param].last() == param);
}

/// The info hash of a parsed magnet link is the one that its last topic spells: each
/// byte is two digits, the more significant one first, in either case.
pub proof fn law_info_hash_of_topic(
    params: Seq<(Seq<char>, bool, Seq<char>)>,
    at: int,
    i: int,
)
    requires
        complete_magnet_of(params) is Parsed,
        0 <= at < params.len(),
        params[at].0 == "xt"@,
        forall|j: int| at < j < params.len() ==> (#[trigger] params[j]).0 != "xt"@,
        0 <= i < 20,
    ensures
        ({
            let hash = complete_magnet_of(params)->Parsed_0.info_hash;
            let hi = hex_value(params[at].2[9 + 2 * i]);
            let lo = hex_value(params[at].2[10 + 2 * i]);
            &&& hash.len() == 20
            &&& hi matches Some(h)
            &&& lo matches Some(l)
            &&& hash[i] == 16 * h + l
        }),
{
    reveal_strlit("urn:btih:");
    law_parsed_magnet(params);
    lemma_last_value_at(params, "xt"@, at);
    let topic = params[at].2;
    let digits = topic.skip(9);
    assert(is_accepted(params[at]));
    assert(hex_value(digits[2 * i]) is Some);
    assert(hex_value(digits[2 * i + 1]) is Some);
}

/// The last parameter with a key is the one behind which there is no other.
proof fn lemma_last_value_at(
    params: Seq<(Seq<char>, bool, Seq<char>)>,
    key: Seq<char>,
    at: int,
)
    requires
        0 <= at < params.len(),
        params[at].0 == key,
        params[at].1,
        forall|j: int| at < j < params.len() ==> (#[trigger] params[j]).0 != key,
    ensures
        last_value(params, key) == Some(params[at].2),
    decreases params.len(),
{
    if at < params.len() - 1 {
        let before = params.drop_last();
        assert(params[params.len() - 1].0 != key);
        assert forall|j: int| at < j < before.len() implies (#[trigger] before[j]).0 != key by {
            assert(before[j] == params[j]);
        }
        lemma_last_value_at(before, key, at);
    }
}

/// A parsed magnet link has what the last parameter with a key says, and nothing where
/// there is none.
pub proof fn law_last_parameter_counts(
    params: Seq<(Seq<char>, bool, Seq<char>)>,
    at: int,
)
    requires
        complete_magnet_of(params) is Parsed,
        0 <= at < params.len(),
        forall|j: int| at < j < params.len() ==> (#[trigger] params[j]).0 != params[at].0,
    ensures
        params[at].0 == "tr"@ ==> complete_magnet_of(params)->Parsed_0.announce == Some(
            params[at].2,
        ),
        params[at].0 == "dn"@ ==> complete_magnet_of(params)->Parsed_0.name == Some(params[at].2),
{
    law_parsed_magnet(params);
    assert(is_accepted(params[at]));
    lemma_last_value_at(params, params[at].0, at);
}

/// A parsed magnet link has a topic, and no tracker or name that it does not give.
pub proof fn law_missing_parameters(params: Seq<(Seq<char>, bool, Seq<char>)>)
    requires
        complete_magnet_of(params) is Parsed,
    ensures
        exists|i: int| 0 <= i < params.len() && (#[trigger] params[i]).0 == "xt"@,
        (forall|i: int| 0 <= i < params.len() ==> (#[trigger] params[i]).0 != "tr"@)
            ==> complete_magnet_of(params)->Parsed_0.announce is None,
        (forall|i: int| 0 <= i < params.len() ==> (#[trigger] params[i]).0 != "dn"@)
            ==> complete_magnet_of(params)->Parsed_0.name is None,
{
    law_parsed_magnet(params);
    lemma_value_stands_somewhere(params, "xt"@);
    if last_value(params, "tr"@) is Some {
        lemma_value_stands_somewhere(params, "tr"@);
    }
    if last_value(params, "dn"@) is Some {
        lemma_value_stands_somewhere(params, "dn"@);
    }
}

/// A value that is found is that of some parameter.
proof fn lemma_value_stands_somewhere(
    params: Seq<(Seq<char>, bool, Seq<char>)>,
    key: Seq<char>,
)
    requires
        last_value(params, key) is Some,
    ensures
        exists|i: int| 0 <= i < params.len() && (#[trigger] params[i]).0 == key,
    decreases params.len(),
{
    if params.last().1 && params.last().0 == key {
        assert(params[params.len() - 1].0 == key);
    } else {
        lemma_value_stands_somewhere(params.drop_last(), key);
        let i = choose|i: int|
            0 <= i < params.drop_last().len() && (#[trigger] params.drop_last()[i]).0 == key;
        assert(params[i].0 == key);
    }
}

/// A torrent that is known by a magnet link only asks the tracker of the link for the
/// info hash of the link, and for a length that is not zero. It has no pieces yet.
pub proof fn law_torrent_of_magnet(magnet: MagnetView)
    requires
        magnet.announce is Some,
    ensures
        Some(torrent_of_magnet(magnet).announce) == magnet.announce,
        torrent_of_magnet(magnet).info.info_hash == magnet.info_hash,
        torrent_of_magnet(magnet).info.length == 999,
        torrent_of_magnet(magnet).from_magnet_link,
        torrent_of_magnet(magnet).info.name.len() == 0,
        torrent_of_magnet(magnet).info.piece_length == 0,
        torrent_of_magnet(magnet).info.pieces.len() == 0,
        torrent_of_magnet(magnet).info.hashes.len() == 0,
{
}

/// An info dictionary that says nothing has nothing in it, and twenty zero bytes for
/// its hash.
pub proof fn law_empty_info(i: int)
    ensures
        empty_info().length == 0,
        empty_info().name.len() == 0,
        empty_info().piece_length == 0,
        empty_info().pieces.len() == 0,
        empty_info().hashes.len() == 0,
        empty_info().info_hash.len() == 20,
        0 <= i < 20 ==> empty_info().info_hash[i] == 0,
{
}

/// A link whose parameters are each accepted is parsed if a topic is among them, and refused
/// for the lack of one if not.
pub proof fn law_complete_link(params: Seq<(Seq<char>, bool, Seq<char>)>)
    requires
        forall|i: int| 0 <= i < params.len() ==> magnet_of(seq![#[trigger] params[i]]) is Parsed,
    ensures
        (exists|i: int| 0 <= i < params.len() && (#[trigger] params[i]).0 == "xt"@)
            ==> complete_magnet_of(params) is Parsed,
        (forall|i: int| 0 <= i < params.len() ==> (#[trigger] params[i]).0 != "xt"@)
            ==> complete_magnet_of(params) is MissingTopic,
{
    law_parsed_magnet(params);
    assert forall|i: int| 0 <= i < params.len() implies is_accepted(#[trigger] params[i]) by {
        reveal_with_fuel(magnet_of, 2);
        assert(magnet_of(seq![params[i]]) is Parsed);
        assert(seq![params[i]].drop_last() =~= seq![]);
        assert(seq![params[i]].last() == params[i]);
    }
    if exists|i: int| 0 <= i < params.len() && (#[trigger] params[i]).0 == "xt"@ {
        let i = choose|i: int| 0 <= i < params.len() && (#[trigger] params[i]).0 == "xt"@;
        assert(is_accepted(params[i]));
        lemma_value_is_found(params, "xt"@, i);
    } else if last_value(params, "xt"@) is Some {
        lemma_value_stands_somewhere(params, "xt"@);
    }
}

/// A value that stands somewhere is found.
proof fn lemma_value_is_found(
    params: Seq<(Seq<char>, bool, Seq<char>)>,
    key: Seq<char>,
    i: int,
)
    requires
        0 <= i < params.len(),
        params[i].0 == key,
        params[i].1,
    ensures
        last_value(params, key) is Some,
    decreases params.len(),
{
    if i < params.len() - 1 && !(params.last().1 && params.last().0 == key) {
        assert(params.drop_last()[i] == params[i]);
        lemma_value_is_found(params.drop_last(), key, i);
    }
}

} // verus!
