//! Trackers: what they are asked, and the peers that they answer with.

use vstd::prelude::*;
use vstd::string::*;
use vstd::utf8::*;

use crate::buffer::{be16, copy_range, get_u16};
use crate::digest::{hex_digit, hex_encode, law_hex_digits};
use crate::text::{decimal, decimal_string, digit};
use crate::torrent::Torrent;

verus! {

/// Where a peer listens.
#[derive(Debug, Clone, Copy)]
pub struct PeerAddr {
    /// The IPv4 address, most significant byte first.
    pub ip: [u8; 4],
    pub port: u16,
}

/// Where a peer listens.
#[verifier::ext_equal]
pub struct PeerAddrView {
    pub ip: Seq<u8>,
    pub port: int,
}

impl View for PeerAddr {
    type V = PeerAddrView;

    open spec fn view(&self) -> PeerAddrView {
        PeerAddrView { ip: self.ip@, port: self.port as int }
    }
}

/// The peers that share a torrent.
#[derive(Debug)]
pub struct Peers(pub Vec<PeerAddr>);

impl View for Peers {
    type V = Seq<PeerAddrView>;

    open spec fn view(&self) -> Seq<PeerAddrView> {
        Seq::new(self.0@.len(), |i: int| self.0@[i]@)
    }
}

impl Clone for Peers {
    fn clone(&self) -> (r: Self)
        ensures
            r@ == self@,
    {
        let mut peers: Vec<PeerAddr> = Vec::new();
        let mut i: usize = 0;
        while i < self.0.len()
            invariant
                i <= self.0.len(),
                peers@ == self.0@.take(i as int),
            decreases self.0.len() - i,
        {
            peers.push(self.0[i]);
            assert(self.0@.take(i + 1) =~= self.0@.take(i as int).push(self.0@[i as int]));
            i = i + 1;
        }
        assert(self.0@.take(i as int) =~= self.0@);
        Peers(peers)
    }
}

/// What a tracker answers.
#[derive(Debug)]
pub struct TrackerResponse {
    /// How often, in seconds, the tracker should be asked.
    pub interval: Option<u64>,
    /// The peers to connect to.
    pub peers: Peers,
}

/// A list of peers does not fill six bytes each.
#[derive(Debug, Clone, Copy, PartialEq, Eq, Structural)]
pub struct PeersLengthError {
    /// How many bytes there are.
    pub length: usize,
}

/// The peer that the six bytes of `s` from `from` on stand for.
pub open spec fn peer_at(s: Seq<u8>, from: int) -> PeerAddrView {
    PeerAddrView { ip: s.subrange(from, from + 4), port: be16(s.subrange(from + 4, from + 6)) }
}

/// The peers of a compact list: four bytes of address and two of port for each,
/// most significant byte first.
pub open spec fn compact_peers(s: Seq<u8>) -> Seq<PeerAddrView> {
    Seq::new(s.len() / 6, |i: int| peer_at(s, 6 * i))
}

/// The six bytes that stand for a peer in a compact list.
pub open spec fn compact_bytes(peer: PeerAddrView) -> Seq<u8> {
    peer.ip + seq![(peer.port / 0x100) as u8, (peer.port % 0x100) as u8]
}

impl Peers {
    /// The peers of a compact list.
    pub fn from_bytes(value: &[u8]) -> (r: Result<Peers, PeersLengthError>)
        ensures
            r is Ok <==> value@.len() % 6 == 0,
            r matches Ok(peers) ==> peers@ == compact_peers(value@),
            r matches Err(e) ==> e.length == value@.len(),
    {
        let n: usize = value.len();
        if n % 6 != 0 {
            return Err(PeersLengthError { length: n });
        }
        let mut peers: Vec<PeerAddr> = Vec::new();
        let mut i: usize = 0;
        while i < n / 6
            invariant
                n == value@.len(),
                i <= n / 6,
                peers@.len() == i,
                forall|j: int|
                    0 <= j < i ==> (#[trigger] peers@[j])@ == peer_at(value@, 6 * j),
            decreases n / 6 - i,
        {
            let at: usize = 6 * i;
            let ip = [value[at], value[at + 1], value[at + 2], value[at + 3]];
            let port_bytes = copy_range(value, at + 4, at + 6);
            let mut port_slice: &[u8] = port_bytes.as_slice();
            let port = get_u16(&mut port_slice);
            assert(ip@ =~= value@.subrange(at as int, at + 4));
            peers.push(PeerAddr { ip, port });
            i = i + 1;
        }
        let peers = Peers(peers);
        assert(peers@ =~= compact_peers(value@));
        Ok(peers)
    }

    /// Where the peers listen.
    pub fn adresses(&self) -> (r: &[PeerAddr])
        ensures
            r@ == self.0@,
    {
        self.0.as_slice()
    }
}

/// The bytes of some peers, put one after the other, are read back as these
/// peers.
pub proof fn law_compact_round_trip(peers: Seq<PeerAddrView>)
    requires
        forall|i: int|
            0 <= i < peers.len() ==> (#[trigger] peers[i]).ip.len() == 4 && 0 <= peers[i].port
                <= u16::MAX,
    ensures
        compact_list(peers).len() == 6 * peers.len(),
        compact_peers(compact_list(peers)) == peers,
    decreases peers.len(),
{
    let s = compact_list(peers);
    if peers.len() == 0 {
        assert(compact_peers(s) =~= peers);
    } else {
        let before = peers.drop_last();
        let t = compact_list(before);
        let last = peers.last();
        assert(last == peers[peers.len() - 1]);
        assert forall|i: int| 0 <= i < before.len() implies (#[trigger] before[i]).ip.len() == 4
            && 0 <= before[i].port <= u16::MAX by {
            assert(before[i] == peers[i]);
        }
        law_compact_round_trip(before);
        let n = 6 * before.len() as int;
        assert(s == t + compact_bytes(last));
        assert forall|i: int| 0 <= i < peers.len() implies compact_peers(s)[i]
            == #[trigger] peers[i] by {
            if i < before.len() {
                assert(compact_peers(t)[i] == before[i]);
                assert(s.subrange(6 * i, 6 * i + 4) =~= t.subrange(6 * i, 6 * i + 4));
                assert(s.subrange(6 * i + 4, 6 * i + 6) =~= t.subrange(6 * i + 4, 6 * i + 6));
            } else {
                assert(s.subrange(n, n + 4) =~= last.ip);
                assert(s.subrange(n + 4, n + 6) =~= compact_bytes(last).subrange(4, 6));
            }
        }
        assert(compact_peers(s) =~= peers);
    }
}

/// The compact list of some peers.
pub open spec fn compact_list(peers: Seq<PeerAddrView>) -> Seq<u8>
    decreases peers.len(),
{
    if peers.len() == 0 {
        seq![]
    } else {
        compact_list(peers.drop_last()) + compact_bytes(peers.last())
    }
}

/// What a tracker is told when it is asked for peers.
#[derive(Debug)]
pub struct TrackerRequest {
    /// A text of length 20 which this downloader uses as its id.
    pub peer_id: String,
    /// The port that this downloader listens on.
    pub port: u16,
    /// The total number of bytes uploaded so far.
    pub uploaded: usize,
    /// The total number of bytes downloaded so far.
    pub downloaded: usize,
    /// The number of bytes left to download.
    pub left: usize,
    /// Whether the list of peers should be compact.
    pub compact: u8,
}

/// Whether a character stands for itself in a form.
pub open spec fn is_form_safe(c: char) -> bool {
    c == '*' || c == '-' || c == '.' || c == '_' || '0' <= c <= '9' || 'A' <= c <= 'Z' || 'a' <= c
        <= 'z'
}

/// The upper case hexadecimal digit of a value below sixteen.
pub open spec fn hex_digit_upper(v: int) -> char {
    if v < 10 {
        ('0' as int + v) as char
    } else {
        ('A' as int + v - 10) as char
    }
}

/// A byte in a form: itself, `+` for a space, or a percent sign and two
/// hexadecimal digits.
pub open spec fn form_byte(b: u8) -> Seq<char> {
    if is_form_safe(b as char) {
        seq![b as char]
    } else if b == 0x20 {
        seq!['+']
    } else {
        seq!['%', hex_digit_upper(b as int / 16), hex_digit_upper(b as int % 16)]
    }
}

/// Bytes in a form.
pub open spec fn form_bytes(s: Seq<u8>) -> Seq<char>
    decreases s.len(),
{
    if s.len() == 0 {
        seq![]
    } else {
        form_byte(s[0]) + form_bytes(s.skip(1))
    }
}

/// A key and its value in a form.
pub open spec fn form_pair(pair: (Seq<char>, Seq<char>)) -> Seq<char> {
    form_bytes(encode_utf8(pair.0)).push('=') + form_bytes(encode_utf8(pair.1))
}

/// A form: its keys and values, in the encoding
/// `application/x-www-form-urlencoded`.
pub open spec fn form(pairs: Seq<(Seq<char>, Seq<char>)>) -> Seq<char>
    decreases pairs.len(),
{
    if pairs.len() == 0 {
        seq![]
    } else if pairs.len() == 1 {
        form_pair(pairs[0])
    } else {
        form(pairs.drop_last()).push('&') + form_pair(pairs.last())
    }
}

/// What the pairs of a form say.
pub open spec fn pairs_view(pairs: Seq<(String, String)>) -> Seq<(Seq<char>, Seq<char>)> {
    Seq::new(pairs.len(), |i: int| (pairs[i].0@, pairs[i].1@))
}

/// The error of the `serde_urlencoded` crate.
#[verifier::external_type_specification]
#[verifier::external_body]
pub struct ExUrlencodedError(serde_urlencoded::ser::Error);

/// `serde_urlencoded::to_string` of a list of pairs of texts, which never fails:
/// the form with these keys and values.
#[verifier::external_body]
fn to_form(pairs: &Vec<(String, String)>) -> (r: Result<String, serde_urlencoded::ser::Error>)
    ensures
        r is Ok,
        r->Ok_0@ == form(pairs_view(pairs@)),
{
    serde_urlencoded::to_string(pairs)
}

/// The form that a tracker is asked with.
pub open spec fn tracker_form(peer_id: Seq<char>, left: nat) -> Seq<(Seq<char>, Seq<char>)> {
    seq![
        ("peer_id"@, peer_id),
        ("port"@, decimal(6881)),
        ("uploaded"@, decimal(0)),
        ("downloaded"@, decimal(0)),
        ("left"@, decimal(left)),
        ("compact"@, decimal(1)),
    ]
}

impl TrackerRequest {
    /// The request of a downloader that has nothing yet and `left` bytes to go.
    pub fn new(peer_id: &str, left: usize) -> (r: Self)
        ensures
            r.peer_id@ == peer_id@,
            r.port == 6881,
            r.uploaded == 0,
            r.downloaded == 0,
            r.left == left,
            r.compact == 1,
    {
        Self {
            peer_id: peer_id.to_owned(),
            port: 6881,
            uploaded: 0,
            downloaded: 0,
            left,
            compact: 1,
        }
    }

    /// The keys and values of the request.
    pub open spec fn pairs(&self) -> Seq<(Seq<char>, Seq<char>)> {
        seq![
            ("peer_id"@, self.peer_id@),
            ("port"@, decimal(self.port as nat)),
            ("uploaded"@, decimal(self.uploaded as nat)),
            ("downloaded"@, decimal(self.downloaded as nat)),
            ("left"@, decimal(self.left as nat)),
            ("compact"@, decimal(self.compact as nat)),
        ]
    }

    /// The request as the query of a URL.
    pub fn to_query(&self) -> (r: String)
        ensures
            r@ == form(self.pairs()),
    {
        let mut pairs: Vec<(String, String)> = Vec::new();
        pairs.push(("peer_id".to_owned(), self.peer_id.clone()));
        pairs.push(("port".to_owned(), decimal_string(self.port as u64)));
        pairs.push(("uploaded".to_owned(), decimal_string(self.uploaded as u64)));
        pairs.push(("downloaded".to_owned(), decimal_string(self.downloaded as u64)));
        pairs.push(("left".to_owned(), decimal_string(self.left as u64)));
        pairs.push(("compact".to_owned(), decimal_string(self.compact as u64)));
        assert(pairs_view(pairs@) =~= self.pairs());
        to_form(&pairs).unwrap()
    }
}

/// Bytes in a URL: a percent sign and two lower case hexadecimal digits for each.
pub open spec fn percent_encoded(s: Seq<u8>) -> Seq<char> {
    Seq::new(
        3 * s.len(),
        |i: int|
            if i % 3 == 0 {
                '%'
            } else if i % 3 == 1 {
                hex_digit(s[i / 3] as int / 16)
            } else {
                hex_digit(s[i / 3] as int % 16)
            },
    )
}

/// A hash in a URL, every byte escaped.
pub fn urlencode(t: &[u8; 20]) -> (r: String)
    ensures
        r@ == percent_encoded(t@),
{
    let mut encoded = String::new();
    let mut i: usize = 0;
    while i < 20
        invariant
            i <= 20,
            encoded@ == percent_encoded(t@.take(i as int)),
        decreases 20 - i,
    {
        let byte = [t[i]];
        encoded.push('%');
        let digits = hex_encode(byte.as_slice());
        encoded.append(digits.as_str());
        assert(digits@.len() == 2);
        assert(encoded@ =~= percent_encoded(t@.take(i + 1)));
        i = i + 1;
    }
    assert(t@.take(20) =~= t@);
    encoded
}

/// The URL that a tracker is asked for the peers of a torrent at.
pub open spec fn tracker_url(
    announce: Seq<char>,
    peer_id: Seq<char>,
    left: nat,
    info_hash: Seq<u8>,
) -> Seq<char> {
    announce + "?"@ + form(tracker_form(peer_id, left)) + "&info_hash="@ + percent_encoded(
        info_hash,
    )
}

/// The URL that a downloader with the given id asks for peers at.
pub fn announce_url(torrent: &Torrent, peer_id: &str) -> (r: String)
    ensures
        r@ == tracker_url(
            torrent@.announce,
            peer_id@,
            torrent@.info.length,
            torrent@.info.info_hash,
        ),
{
    let request = TrackerRequest::new(peer_id, torrent.info.length);
    let query = request.to_query();
    assert(request.pairs() =~= tracker_form(peer_id@, torrent@.info.length));
    let mut url = torrent.announce.clone();
    url.append("?");
    url.append(query.as_str());
    url.append("&info_hash=");
    url.append(urlencode(&torrent.info.info_hash).as_str());
    url
}

/// The URL that a downloader without an id of its own asks for peers at.
pub fn discover_peers_url(torrent: &Torrent) -> (r: String)
    ensures
        r@ == tracker_url(
            torrent@.announce,
            "00112233445566778899"@,
            torrent@.info.length,
            torrent@.info.info_hash,
        ),
{
    announce_url(torrent, "00112233445566778899")
}

/// A text whose characters stand for themselves in a form is written as it is.
proof fn lemma_form_of_safe(s: Seq<char>)
    requires
        forall|i: int| 0 <= i < s.len() ==> is_form_safe(#[trigger] s[i]),
    ensures
        form_bytes(encode_utf8(s)) == s,
{
    assert(is_ascii_chars(s));
    is_ascii_chars_encode_utf8(s);
    let bytes = encode_utf8(s);
    assert forall|i: int| 0 <= i < bytes.len() implies is_form_safe(
        (#[trigger] bytes[i]) as char,
    ) && bytes[i] as char == s[i] by {
        assert(is_form_safe(s[i]));
        assert(s[i] as u8 == bytes[i]);
    }
    lemma_form_bytes_of_safe(bytes);
    assert(form_bytes(bytes) =~= s);
}

/// Bytes that stand for themselves in a form are written as they are.
proof fn lemma_form_bytes_of_safe(s: Seq<u8>)
    requires
        forall|i: int| 0 <= i < s.len() ==> is_form_safe((#[trigger] s[i]) as char),
    ensures
        form_bytes(s) == Seq::new(s.len(), |i: int| s[i] as char),
    decreases s.len(),
{
    if s.len() == 0 {
        assert(form_bytes(s) =~= Seq::new(s.len(), |i: int| s[i] as char));
    } else {
        let rest = s.skip(1);
        assert forall|i: int| 0 <= i < rest.len() implies is_form_safe(
            (#[trigger] rest[i]) as char,
        ) by {
            assert(rest[i] == s[i + 1]);
        }
        lemma_form_bytes_of_safe(rest);
        assert(is_form_safe(s[0] as char));
        assert(form_bytes(s) =~= Seq::new(s.len(), |i: int| s[i] as char));
    }
}

/// A number is written in decimal digits, which stand for themselves in a form.
proof fn lemma_form_of_decimal(n: nat)
    ensures
        forall|i: int| 0 <= i < decimal(n).len() ==> is_form_safe(#[trigger] decimal(n)[i]),
    decreases n,
{
    if n >= 10 {
        lemma_form_of_decimal(n / 10);
        let before = decimal(n / 10);
        assert forall|i: int| 0 <= i < decimal(n).len() implies is_form_safe(
            #[trigger] decimal(n)[i],
        ) by {
            if i < before.len() {
                assert(decimal(n)[i] == before[i]);
            } else {
                assert(decimal(n)[i] == digit(n % 10));
            }
        }
    } else {
        assert(decimal(n) =~= seq![digit(n)]);
    }
}

/// A key and a value that stand for themselves are written as they are.
proof fn lemma_form_of_safe_pair(key: Seq<char>, value: Seq<char>)
    requires
        forall|i: int| 0 <= i < key.len() ==> is_form_safe(#[trigger] key[i]),
        forall|i: int| 0 <= i < value.len() ==> is_form_safe(#[trigger] value[i]),
    ensures
        form_pair((key, value)) == key + "="@ + value,
{
    reveal_strlit("=");
    lemma_form_of_safe(key);
    lemma_form_of_safe(value);
    assert(key.push('=') =~= key + "="@);
}

/// The query that a tracker is asked with, for a downloader whose id needs no
/// escapes.
pub proof fn law_tracker_query(peer_id: Seq<char>, left: nat)
    requires
        forall|i: int| 0 <= i < peer_id.len() ==> is_form_safe(#[trigger] peer_id[i]),
    ensures
        form(tracker_form(peer_id, left)) == "peer_id="@ + peer_id
            + "&port=6881&uploaded=0&downloaded=0&left="@ + decimal(left) + "&compact=1"@,
{
    lemma_tracker_query(peer_id, left);
    lemma_form_of_safe(peer_id);
}

/// The query that a tracker is asked with.
#[verifier::spinoff_prover]
#[verifier::rlimit(40)]
proof fn lemma_tracker_query(peer_id: Seq<char>, left: nat)
    ensures
        form(tracker_form(peer_id, left)) == "peer_id="@ + form_bytes(encode_utf8(peer_id))
            + "&port=6881&uploaded=0&downloaded=0&left="@ + decimal(left) + "&compact=1"@,
{
    let pairs = tracker_form(peer_id, left);
    lemma_tracker_pairs(peer_id, left);
    lemma_tracker_numbers();
    lemma_form_of_six(pairs);
    let and = seq!['&'];
    lemma_regroup(
        form_pair(pairs[0]),
        and + form_pair(pairs[1]),
        and + form_pair(pairs[2]),
        and + form_pair(pairs[3]),
        and,
        "left="@,
        decimal(left),
        and + form_pair(pairs[5]),
    );
    lemma_chain(
        and,
        form_pair(pairs[1]),
        form_pair(pairs[2]),
        form_pair(pairs[3]),
        "left="@,
    );
}

/// A form with one more pair.
proof fn lemma_form_push(
    pairs: Seq<(Seq<char>, Seq<char>)>,
    pair: (Seq<char>, Seq<char>),
)
    requires
        pairs.len() > 0,
    ensures
        form(pairs.push(pair)) == form(pairs) + (seq!['&'] + form_pair(pair)),
{
    assert(pairs.push(pair).drop_last() =~= pairs);
    assert(form(pairs).push('&') + form_pair(pair) =~= form(pairs) + (seq!['&'] + form_pair(pair)));
}

/// A form with six pairs.
proof fn lemma_form_of_six(pairs: Seq<(Seq<char>, Seq<char>)>)
    requires
        pairs.len() == 6,
    ensures
        form(pairs) == form_pair(pairs[0]) + (seq!['&'] + form_pair(pairs[1])) + (seq!['&']
            + form_pair(pairs[2])) + (seq!['&'] + form_pair(pairs[3])) + (seq!['&'] + form_pair(
            pairs[4],
        )) + (seq!['&'] + form_pair(pairs[5])),
{
    lemma_form_push(pairs.take(1), pairs[1]);
    lemma_form_push(pairs.take(2), pairs[2]);
    lemma_form_push(pairs.take(3), pairs[3]);
    lemma_form_push(pairs.take(4), pairs[4]);
    lemma_form_push(pairs.take(5), pairs[5]);
    assert(pairs.take(1).push(pairs[1]) =~= pairs.take(2));
    assert(pairs.take(2).push(pairs[2]) =~= pairs.take(3));
    assert(pairs.take(3).push(pairs[3]) =~= pairs.take(4));
    assert(pairs.take(4).push(pairs[4]) =~= pairs.take(5));
    assert(pairs.take(5).push(pairs[5]) =~= pairs);
}

/// Texts put together in another grouping.
proof fn lemma_regroup(
    a: Seq<char>,
    b: Seq<char>,
    c: Seq<char>,
    d: Seq<char>,
    e: Seq<char>,
    f: Seq<char>,
    g: Seq<char>,
    h: Seq<char>,
)
    ensures
        a + b + c + d + (e + (f + g)) + h == a + (b + c + d + (e + f)) + g + h,
{
    assert(a + b + c + d + (e + (f + g)) =~= a + (b + c + d + (e + f)) + g);
}

/// Texts put together in another grouping.
proof fn lemma_chain(
    and: Seq<char>,
    a: Seq<char>,
    b: Seq<char>,
    c: Seq<char>,
    d: Seq<char>,
)
    ensures
        (and + a) + (and + b) + (and + c) + (and + d) == and + a + and + b + and + c + and + d,
{
    assert((and + a) + (and + b) + (and + c) + (and + d) =~= and + a + and + b + and + c + and + d);
}

/// The pairs of the query, written as they are.
proof fn lemma_tracker_pairs(peer_id: Seq<char>, left: nat)
    ensures
        form_pair(("peer_id"@, peer_id)) == "peer_id="@ + form_bytes(encode_utf8(peer_id)),
        form_pair(("left"@, decimal(left))) == "left="@ + decimal(left),
{
    reveal_strlit("peer_id");
    reveal_strlit("left");
    reveal_strlit("=");
    reveal_strlit("peer_id=");
    reveal_strlit("left=");
    lemma_form_of_decimal(left);
    lemma_form_of_safe("peer_id"@);
    assert("peer_id"@.push('=') =~= "peer_id="@);
    lemma_form_of_safe_pair("left"@, decimal(left));
    assert("left"@ + "="@ =~= "left="@);
}

/// The pairs of the query that are always the same, written as they are.
#[verifier::spinoff_prover]
proof fn lemma_tracker_numbers()
    ensures
        seq!['&'] + form_pair(("port"@, decimal(6881))) + seq!['&'] + form_pair(
            ("uploaded"@, decimal(0)),
        ) + seq!['&'] + form_pair(("downloaded"@, decimal(0))) + seq!['&'] + "left="@
            == "&port=6881&uploaded=0&downloaded=0&left="@,
        seq!['&'] + form_pair(("compact"@, decimal(1))) == "&compact=1"@,
{
    reveal_strlit("port");
    reveal_strlit("uploaded");
    reveal_strlit("downloaded");
    reveal_strlit("compact");
    reveal_strlit("=");
    reveal_strlit("left=");
    reveal_strlit("&port=6881&uploaded=0&downloaded=0&left=");
    reveal_strlit("&compact=1");
    lemma_form_of_decimal(6881);
    lemma_form_of_decimal(0);
    lemma_form_of_decimal(1);
    lemma_form_of_safe_pair("port"@, decimal(6881));
    lemma_form_of_safe_pair("uploaded"@, decimal(0));
    lemma_form_of_safe_pair("downloaded"@, decimal(0));
    lemma_form_of_safe_pair("compact"@, decimal(1));
    reveal_with_fuel(decimal, 5);
    assert(decimal(6881) =~= seq!['6', '8', '8', '1']);
    assert(decimal(0) =~= seq!['0']);
    assert(decimal(1) =~= seq!['1']);
    assert(seq!['&'] + form_pair(("port"@, decimal(6881))) + seq!['&'] + form_pair(
        ("uploaded"@, decimal(0)),
    ) + seq!['&'] + form_pair(("downloaded"@, decimal(0))) + seq!['&'] + "left="@
        =~= "&port=6881&uploaded=0&downloaded=0&left="@);
    assert(seq!['&'] + form_pair(("compact"@, decimal(1))) =~= "&compact=1"@);
}

/// Different hashes are written differently in a URL.
pub proof fn law_percent_encoding_is_injective(a: Seq<u8>, b: Seq<u8>)
    requires
        percent_encoded(a) == percent_encoded(b),
    ensures
        a == b,
{
    assert(percent_encoded(a).len() == 3 * a.len());
    assert(percent_encoded(b).len() == 3 * b.len());
    assert forall|i: int| 0 <= i < a.len() implies a[i] == b[i] by {
        let (ah, al) = (percent_encoded(a)[3 * i + 1], percent_encoded(a)[3 * i + 2]);
        let (bh, bl) = (percent_encoded(b)[3 * i + 1], percent_encoded(b)[3 * i + 2]);
        assert(ah == hex_digit(a[i] as int / 16) && al == hex_digit(a[i] as int % 16));
        assert(bh == hex_digit(b[i] as int / 16) && bl == hex_digit(b[i] as int % 16));
    }
    assert(a =~= b);
}

/// Every byte is written as a percent sign and its two hexadecimal digits, in its place.
pub proof fn law_percent_encoding_by_byte(s: Seq<u8>, i: int)
    requires
        0 <= i < s.len(),
    ensures
        percent_encoded(s).len() == 3 * s.len(),
        percent_encoded(s)[3 * i] == '%',
        percent_encoded(s)[3 * i + 1] == "0123456789abcdef"@[s[i] as int / 16],
        percent_encoded(s)[3 * i + 2] == "0123456789abcdef"@[s[i] as int % 16],
{
    law_hex_digits(s[i] as int / 16, '0');
    law_hex_digits(s[i] as int % 16, '0');
    assert((3 * i + 1) / 3 == i && (3 * i + 2) / 3 == i);
}

/// Bytes are written one after the other.
pub proof fn law_percent_encoding_of_sum(a: Seq<u8>, b: Seq<u8>)
    ensures
        percent_encoded(a + b) == percent_encoded(a) + percent_encoded(b),
{
    assert forall|i: int| 0 <= i < 3 * (a.len() + b.len()) implies percent_encoded(a + b)[i] == (
    percent_encoded(a) + percent_encoded(b))[i] by {
        if i >= 3 * a.len() {
            let j = i - 3 * a.len();
            assert(i / 3 == a.len() + j / 3);
            assert(i % 3 == j % 3);
        }
    }
    assert(percent_encoded(a + b) =~= percent_encoded(a) + percent_encoded(b));
}

/// The URL at which a tracker is asked: its own URL, what the downloader says of itself
/// and of what it lacks, and the info hash.
pub proof fn law_tracker_url(
    announce: Seq<char>,
    peer_id: Seq<char>,
    left: nat,
    info_hash: Seq<u8>,
)
    ensures
        tracker_url(announce, peer_id, left, info_hash) == announce + "?peer_id="@ + form_bytes(
            encode_utf8(peer_id),
        ) + "&port=6881&uploaded=0&downloaded=0&left="@ + decimal(left)
            + "&compact=1&info_hash="@ + percent_encoded(info_hash),
{
    reveal_strlit("?");
    reveal_strlit("peer_id=");
    reveal_strlit("?peer_id=");
    reveal_strlit("&compact=1");
    reveal_strlit("&info_hash=");
    reveal_strlit("&compact=1&info_hash=");
    lemma_tracker_query(peer_id, left);
    assert("?"@ + "peer_id="@ =~= "?peer_id="@);
    assert("&compact=1"@ + "&info_hash="@ =~= "&compact=1&info_hash="@);
    lemma_url_parts(
        announce,
        "?"@,
        "peer_id="@,
        form_bytes(encode_utf8(peer_id)),
        "&port=6881&uploaded=0&downloaded=0&left="@,
        decimal(left),
        "&compact=1"@,
        "&info_hash="@,
    );
}

/// Texts put together in another grouping.
proof fn lemma_url_parts(
    a: Seq<char>,
    b: Seq<char>,
    c: Seq<char>,
    d: Seq<char>,
    e: Seq<char>,
    f: Seq<char>,
    g: Seq<char>,
    h: Seq<char>,
)
    ensures
        a + b + (c + d + e + f + g) + h == a + (b + c) + d + e + f + (g + h),
{
    assert(a + b + (c + d + e + f + g) =~= a + (b + c) + d + e + f + g);
    assert(a + (b + c) + d + e + f + g + h =~= a + (b + c) + d + e + f + (g + h));
}

/// A URL names the torrent: two torrents of a tracker with different info hashes are
/// asked for at different URLs.
pub proof fn law_tracker_url_names_the_torrent(
    announce: Seq<char>,
    peer_id: Seq<char>,
    left: nat,
    a: Seq<u8>,
    b: Seq<u8>,
)
    requires
        a.len() == b.len(),
        tracker_url(announce, peer_id, left, a) == tracker_url(announce, peer_id, left, b),
    ensures
        a == b,
{
    let front = announce + "?"@ + form(tracker_form(peer_id, left)) + "&info_hash="@;
    let (u, v) = (front + percent_encoded(a), front + percent_encoded(b));
    assert(u.skip(front.len() as int) =~= percent_encoded(a));
    assert(v.skip(front.len() as int) =~= percent_encoded(b));
    law_percent_encoding_is_injective(a, b);
}

/// Any request is written with its six keys in their order, each with its value.
#[verifier::spinoff_prover]
pub proof fn law_request_query(request: TrackerRequest)
    ensures
        form(request.pairs()) == "peer_id="@ + form_bytes(encode_utf8(request.peer_id@)) + (
        "&port="@ + decimal(request.port as nat)) + ("&uploaded="@ + decimal(
            request.uploaded as nat,
        )) + ("&downloaded="@ + decimal(request.downloaded as nat)) + ("&left="@ + decimal(
            request.left as nat,
        )) + ("&compact="@ + decimal(request.compact as nat)),
{
    reveal_strlit("peer_id");
    reveal_strlit("port");
    reveal_strlit("uploaded");
    reveal_strlit("downloaded");
    reveal_strlit("left");
    reveal_strlit("compact");
    reveal_strlit("peer_id=");
    reveal_strlit("&port=");
    reveal_strlit("&uploaded=");
    reveal_strlit("&downloaded=");
    reveal_strlit("&left=");
    reveal_strlit("&compact=");
    lemma_form_of_safe("peer_id"@);
    assert("peer_id"@.push('=') =~= "peer_id="@);
    lemma_number_pair("port"@, request.port as nat, "&port="@);
    lemma_number_pair("uploaded"@, request.uploaded as nat, "&uploaded="@);
    lemma_number_pair("downloaded"@, request.downloaded as nat, "&downloaded="@);
    lemma_number_pair("left"@, request.left as nat, "&left="@);
    lemma_number_pair("compact"@, request.compact as nat, "&compact="@);
    lemma_form_of_six(request.pairs());
}

/// A key with a number behind another pair.
proof fn lemma_number_pair(key: Seq<char>, n: nat, written: Seq<char>)
    requires
        forall|i: int| 0 <= i < key.len() ==> is_form_safe(#[trigger] key[i]),
        written =~= seq!['&'] + key.push('='),
    ensures
        seq!['&'] + form_pair((key, decimal(n))) == written + decimal(n),
{
    lemma_form_of_decimal(n);
    lemma_form_of_safe(key);
    lemma_form_of_safe(decimal(n));
    assert(seq!['&'] + (key.push('=') + decimal(n)) =~= (seq!['&'] + key.push('=')) + decimal(n));
}

/// A form is its pairs with `&` between them, and a pair is its key and its value with
/// `=` between them.
pub proof fn law_form_of_pairs(
    pairs: Seq<(Seq<char>, Seq<char>)>,
    pair: (Seq<char>, Seq<char>),
)
    ensures
        form(seq![pair]) == form_bytes(encode_utf8(pair.0)) + "="@ + form_bytes(
            encode_utf8(pair.1),
        ),
        pairs.len() > 0 ==> form(pairs.push(pair)) == form(pairs) + "&"@ + form(seq![pair]),
{
    reveal_strlit("=");
    reveal_strlit("&");
    assert(seq![pair][0] == pair);
    let key = form_bytes(encode_utf8(pair.0));
    assert(key.push('=') =~= key + "="@);
    if pairs.len() > 0 {
        lemma_form_push(pairs, pair);
        assert(form(pairs) + (seq!['&'] + form_pair(pair)) =~= form(pairs) + "&"@ + form_pair(
            pair,
        ));
    }
}

/// Bytes are written in a form one by one: letters, digits and `*-._` as themselves, a
/// space as `+`, and any other byte as a percent sign and two digits.
pub proof fn law_form_of_bytes(a: Seq<u8>, b: Seq<u8>, c: u8)
    ensures
        form_bytes(a + b) == form_bytes(a) + form_bytes(b),
        ('0' <= c as char <= '9' || 'A' <= c as char <= 'Z' || 'a' <= c as char <= 'z' || c as char
            == '*' || c as char == '-' || c as char == '.' || c as char == '_') ==> form_bytes(
            seq![c],
        ) == seq![c as char],
        c as char == ' ' ==> form_bytes(seq![c]) == seq!['+'],
        !('0' <= c as char <= '9' || 'A' <= c as char <= 'Z' || 'a' <= c as char <= 'z' || c as char
            == '*' || c as char == '-' || c as char == '.' || c as char == '_' || c as char == ' ')
            ==> form_bytes(seq![c]) == seq![
            '%',
            "0123456789ABCDEF"@[c as int / 16],
            "0123456789ABCDEF"@[c as int % 16],
        ],
    decreases a.len(),
{
    reveal_strlit("0123456789ABCDEF");
    reveal_with_fuel(form_bytes, 2);
    assert(seq![c].skip(1) =~= seq![]);
    assert(form_bytes(seq![c]) =~= form_byte(c));
    if a.len() == 0 {
        assert(a + b =~= b);
        assert(form_bytes(a) + form_bytes(b) =~= form_bytes(b));
    } else {
        law_form_of_bytes(a.skip(1), b, c);
        assert((a + b).skip(1) =~= a.skip(1) + b);
        assert(form_bytes(a + b) =~= form_bytes(a) + form_bytes(b));
    }
}

/// A peer in a compact list is six bytes: four of address, in their order, and two of
/// port, the more significant one first.
pub proof fn law_compact_peer(s: Seq<u8>, i: int)
    requires
        0 <= i,
        6 * i + 6 <= s.len(),
    ensures
        compact_peers(s).len() == s.len() / 6,
        compact_peers(s)[i].ip == seq![s[6 * i], s[6 * i + 1], s[6 * i + 2], s[6 * i + 3]],
        compact_peers(s)[i].port == 256 * s[6 * i + 4] + s[6 * i + 5],
{
    assert(compact_peers(s)[i].ip =~= seq![
        s[6 * i],
        s[6 * i + 1],
        s[6 * i + 2],
        s[6 * i + 3],
    ]);
}

/// The peers of two lists, put one after the other, are those of the list put together.
pub proof fn law_compact_of_sum(a: Seq<u8>, b: Seq<u8>)
    requires
        a.len() % 6 == 0,
    ensures
        compact_peers(a + b) == compact_peers(a) + compact_peers(b),
{
    let n = a.len() / 6;
    assert forall|i: int| 0 <= i < compact_peers(a + b).len() implies compact_peers(a + b)[i] == (
    compact_peers(a) + compact_peers(b))[i] by {
        if i < n {
            assert((a + b).subrange(6 * i, 6 * i + 4) =~= a.subrange(6 * i, 6 * i + 4));
            assert((a + b).subrange(6 * i + 4, 6 * i + 6) =~= a.subrange(6 * i + 4, 6 * i + 6));
        } else {
            let j = i - n;
            assert((a + b).subrange(6 * i, 6 * i + 4) =~= b.subrange(6 * j, 6 * j + 4));
            assert((a + b).subrange(6 * i + 4, 6 * i + 6) =~= b.subrange(6 * j + 4, 6 * j + 6));
        }
    }
    assert(compact_peers(a + b) =~= compact_peers(a) + compact_peers(b));
}

/// What is said of peers is what stands in their fields, one by one.
pub proof fn law_peers_view(peers: Peers, i: int)
    ensures
        peers@.len() == peers.0@.len(),
        0 <= i < peers.0@.len() ==> peers@[i].ip == peers.0@[i].ip@ && peers@[i].port
            == peers.0@[i].port,
{
}

/// What is said of the pairs of a form is what stands in them, one by one.
pub proof fn law_pairs_view(pairs: Seq<(String, String)>, i: int)
    ensures
        pairs_view(pairs).len() == pairs.len(),
        0 <= i < pairs.len() ==> pairs_view(pairs)[i] == (pairs[i].0@, pairs[i].1@),
{
}

} // verus!
