use bittorrent::peer::file::{FileDownload, Next};
use bittorrent::peer::queue::NoPeers;
use bittorrent::peers::{PeerAddr, Peers};

fn download(peers: u16, pieces_count: usize) -> FileDownload {
    let peers = (0..peers)
        .map(|port| PeerAddr {
            ip: [127, 0, 0, 1],
            port,
        })
        .collect();
    FileDownload::new(Peers(peers), pieces_count).unwrap()
}

#[test]
fn a_file_needs_peers() {
    let e = FileDownload::new(Peers(vec![]), 3).unwrap_err();
    assert_eq!(e, NoPeers);
}

#[test]
fn at_first_a_few_peers_are_connected_to() {
    let mut many = download(8, 1);
    assert!(many.stuck());
    let ports: Vec<u16> = many.start().iter().map(|p| p.port).collect();
    assert_eq!(ports, vec![0, 1, 2, 3, 4]);
    assert_eq!(many.connecting(), 5);
    assert!(!many.stuck());

    let mut few = download(2, 1);
    assert_eq!(few.start().len(), 2);
    assert_eq!(few.connecting(), 2);
}

#[test]
fn one_peer_downloads_all_pieces() {
    let mut download = download(1, 3);
    download.start();
    assert_eq!(download.connected(), Some(0));
    assert_eq!(download.downloaded(0), Next::Piece(1));
    assert_eq!(download.downloaded(1), Next::Piece(2));
    assert_eq!(download.downloaded(2), Next::Finished);
    assert_eq!(download.downloaded_pieces(), vec![0, 1, 2]);
}

#[test]
fn pieces_may_be_downloaded_in_any_order() {
    let mut download = download(3, 3);
    download.start();
    for piece in 0..3 {
        assert_eq!(download.connected(), Some(piece));
        assert!(download.in_flight(piece));
    }
    assert_eq!(download.downloaded(2), Next::Wait);
    assert_eq!(download.downloaded(0), Next::Wait);
    assert_eq!(download.downloaded_pieces(), vec![0, 2]);
    assert_eq!(download.downloaded(1), Next::Finished);
    assert_eq!(download.downloaded_pieces(), vec![0, 1, 2]);
}

#[test]
fn a_connection_without_a_piece_waits() {
    let mut download = download(2, 1);
    download.start();
    assert_eq!(download.connected(), Some(0));
    assert_eq!(download.connected(), None);
    let retry = download.failed(0);
    assert_eq!(retry.piece, Some(0));
    assert!(retry.peer.is_none());
    assert_eq!(download.downloaded(0), Next::Finished);
}

#[test]
fn a_failed_piece_goes_to_the_end() {
    let mut download = download(7, 3);
    download.start();
    assert_eq!(download.connected(), Some(0));
    let retry = download.failed(0);
    assert_eq!(retry.piece, None);
    assert_eq!(retry.peer.unwrap().port, 5);
    assert_eq!(download.connecting(), 5);
    assert_eq!(download.connected(), Some(1));
    assert_eq!(download.downloaded(1), Next::Piece(2));
    assert_eq!(download.downloaded(2), Next::Piece(0));
    assert_eq!(download.downloaded(0), Next::Finished);
}

#[test]
fn without_peers_the_download_is_stuck() {
    let mut download = download(2, 2);
    download.start();
    download.not_connected();
    assert!(!download.stuck());
    assert_eq!(download.connected(), Some(0));
    let retry = download.failed(0);
    assert!(retry.peer.is_none());
    assert!(download.stuck());
}
