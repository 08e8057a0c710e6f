use bittorrent::peers::{
    announce_url, discover_peers_url, urlencode, Peers, TrackerRequest,
};
use bittorrent::torrent::{Hashes, Info, Torrent};

fn torrent() -> Torrent {
    let mut info_hash = [0u8; 20];
    info_hash[0] = 0xd6;
    info_hash[1] = 0x9f;
    info_hash[19] = 0x0a;
    Torrent {
        announce: "http://tracker/announce".to_string(),
        info: Info {
            length: 92063,
            name: String::new(),
            piece_length: 32768,
            pieces: vec![],
            hashes: Hashes(vec![]),
            info_hash,
        },
        from_magnet_link: false,
    }
}

#[test]
fn a_compact_list_is_read() {
    let bytes = [165, 232, 33, 77, 0xc9, 0x0b, 178, 62, 85, 20, 0xc9, 0x5d];
    let peers = Peers::from_bytes(&bytes).unwrap();
    let addresses = peers.adresses();
    assert_eq!(addresses.len(), 2);
    assert_eq!(addresses[0].ip, [165, 232, 33, 77]);
    assert_eq!(addresses[0].port, 51467);
    assert_eq!(addresses[1].ip, [178, 62, 85, 20]);
    assert_eq!(addresses[1].port, 51549);
}

#[test]
fn an_empty_list_has_no_peers() {
    assert!(Peers::from_bytes(&[]).unwrap().adresses().is_empty());
}

#[test]
fn a_list_must_fill_its_entries() {
    for n in [1usize, 5, 7, 11, 13] {
        let bytes = vec![0; n];
        assert_eq!(Peers::from_bytes(&bytes).unwrap_err().length, n);
    }
}

#[test]
fn written_peers_are_read_back() {
    let peers = [([1u8, 2, 3, 4], 0u16), ([255, 0, 255, 0], 65535), ([9, 9, 9, 9], 256)];
    let mut bytes = vec![];
    for (ip, port) in peers {
        bytes.extend(ip);
        bytes.extend(port.to_be_bytes());
    }
    let read: Vec<([u8; 4], u16)> = Peers::from_bytes(&bytes)
        .unwrap()
        .clone()
        .adresses()
        .iter()
        .map(|p| (p.ip, p.port))
        .collect();
    assert_eq!(read, peers.to_vec());
}

#[test]
fn a_new_request() {
    let request = TrackerRequest::new("abc", 17);
    assert_eq!(request.peer_id, "abc");
    assert_eq!(request.port, 6881);
    assert_eq!(request.uploaded, 0);
    assert_eq!(request.downloaded, 0);
    assert_eq!(request.left, 17);
    assert_eq!(request.compact, 1);
}

#[test]
fn a_request_as_query() {
    assert_eq!(
        TrackerRequest::new("aaaaaaaaaaaaaaaaaaaa", 92063).to_query(),
        "peer_id=aaaaaaaaaaaaaaaaaaaa&port=6881&uploaded=0&downloaded=0&left=92063&compact=1"
    );
}

#[test]
fn an_id_is_escaped_in_a_query() {
    assert_eq!(
        TrackerRequest::new("a b&c=\u{e9}*-._~/", 0).to_query(),
        "peer_id=a+b%26c%3D%C3%A9*-._%7E%2F&port=6881&uploaded=0&downloaded=0&left=0&compact=1"
    );
}

#[test]
fn every_byte_of_a_hash_is_escaped() {
    let mut hash = [0u8; 20];
    hash[0] = 0x61;
    hash[19] = 0xff;
    assert_eq!(
        urlencode(&hash),
        "%61%00%00%00%00%00%00%00%00%00%00%00%00%00%00%00%00%00%00%ff"
    );
}

#[test]
fn the_url_of_an_announcement() {
    assert_eq!(
        announce_url(&torrent(), "aaaaaaaaaaaaaaaaaaaa"),
        "http://tracker/announce?peer_id=aaaaaaaaaaaaaaaaaaaa&port=6881&uploaded=0&downloaded=0&left=92063&compact=1&info_hash=%d6%9f%00%00%00%00%00%00%00%00%00%00%00%00%00%00%00%00%00%0a"
    );
    assert_eq!(
        discover_peers_url(&torrent()),
        "http://tracker/announce?peer_id=00112233445566778899&port=6881&uploaded=0&downloaded=0&left=92063&compact=1&info_hash=%d6%9f%00%00%00%00%00%00%00%00%00%00%00%00%00%00%00%00%00%0a"
    );
}
