use bittorrent::peer::{Downloader, HandshakeError};
use bittorrent::torrent::{Info, Magnet, Torrent};

const ID: &str = "abcdefghij0123456789";

fn downloader() -> Downloader {
    Downloader::with_peer_id(ID.to_string())
}

fn torrent(from_magnet_link: bool) -> Torrent {
    let mut torrent = Torrent::from_magnet(Magnet {
        info_hash: [7; 20],
        announce: Some("http://tracker".to_string()),
        name: None,
    });
    torrent.from_magnet_link = from_magnet_link;
    torrent
}

fn expected(reserved: [u8; 8]) -> Vec<u8> {
    let mut bytes = vec![19];
    bytes.extend_from_slice(b"BitTorrent protocol");
    bytes.extend(reserved);
    bytes.extend([7; 20]);
    bytes.extend_from_slice(ID.as_bytes());
    bytes
}

fn id() -> [u8; 20] {
    let mut id = [0u8; 20];
    id.copy_from_slice(ID.as_bytes());
    id
}

#[test]
fn a_handshake_for_a_torrent_file() {
    let request = downloader().handshake_request(&torrent(false));
    assert_eq!(request.to_vec(), expected([0; 8]));
    assert_eq!(request.len(), 68);
}

#[test]
fn a_handshake_for_a_magnet_link_signals_extensions() {
    let request = downloader().handshake_request(&torrent(true));
    assert_eq!(request.to_vec(), expected([0, 0, 0, 0, 0, 0x10, 0, 0]));
}

#[test]
fn a_handshake_is_taken_by_another_downloader() {
    for from_magnet_link in [false, true] {
        let request = downloader().handshake_request(&torrent(from_magnet_link));
        let mut other = Downloader::new();
        assert!(!other.does_peer_support_extensions(&id()));
        assert_eq!(other.handshake_response(&request), Ok(id()));
        assert_eq!(other.does_peer_support_extensions(&id()), from_magnet_link);
        assert!(!other.does_peer_support_extensions(&[1; 20]));
    }
}

#[test]
fn other_reserved_bits_are_ignored() {
    let mut downloader = downloader();
    let response = expected([255, 255, 255, 255, 255, 0xef, 255, 255]);
    assert_eq!(downloader.handshake_response(&response), Ok(id()));
    assert!(!downloader.does_peer_support_extensions(&id()));
    let response = expected([0, 0, 0, 0, 0, 0xff, 0, 0]);
    assert_eq!(downloader.handshake_response(&response), Ok(id()));
    assert_eq!(downloader.handshake_response(&response), Ok(id()));
    assert!(downloader.does_peer_support_extensions(&id()));
}

#[test]
fn support_is_not_forgotten() {
    let mut downloader = downloader();
    downloader
        .handshake_response(&expected([0, 0, 0, 0, 0, 0x10, 0, 0]))
        .unwrap();
    downloader.handshake_response(&expected([0; 8])).unwrap();
    assert!(downloader.does_peer_support_extensions(&id()));
}

#[test]
fn a_handshake_of_wrong_length_is_refused() {
    let mut downloader = downloader();
    let mut response = expected([0; 8]);
    response.push(0);
    assert_eq!(
        downloader.handshake_response(&response),
        Err(HandshakeError::Length)
    );
    assert_eq!(
        downloader.handshake_response(&response[..67]),
        Err(HandshakeError::Length)
    );
    assert_eq!(
        downloader.handshake_response(&[]),
        Err(HandshakeError::Length)
    );
}

#[test]
fn a_handshake_of_another_protocol_is_refused() {
    let mut downloader = downloader();
    let mut response = expected([0, 0, 0, 0, 0, 0x10, 0, 0]);
    response[0] = 18;
    assert_eq!(
        downloader.handshake_response(&response),
        Err(HandshakeError::ProtocolLength)
    );
    let mut response = expected([0, 0, 0, 0, 0, 0x10, 0, 0]);
    response[19] = b'L';
    assert_eq!(
        downloader.handshake_response(&response),
        Err(HandshakeError::Protocol)
    );
    assert!(!downloader.does_peer_support_extensions(&id()));
}

#[test]
fn the_id_is_made_of_digits_and_letters() {
    let request = Downloader::new().handshake_request(&torrent(false));
    assert_eq!(request.len(), 68);
    assert!(request[48..].iter().all(|b| b.is_ascii_alphanumeric()));
}

#[test]
fn every_downloader_chooses_its_id() {
    let first = Downloader::new().handshake_request(&torrent(false));
    let second = Downloader::new().handshake_request(&torrent(false));
    assert_ne!(first[48..], second[48..]);
}

#[test]
fn the_tracker_is_told_the_id() {
    let mut torrent = torrent(false);
    torrent.info = Info::new();
    assert_eq!(
        downloader().discover_peers_url(&torrent),
        "http://tracker?peer_id=abcdefghij0123456789&port=6881&uploaded=0&downloaded=0&left=0&compact=1&info_hash=%00%00%00%00%00%00%00%00%00%00%00%00%00%00%00%00%00%00%00%00"
    );
}
