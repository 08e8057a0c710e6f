use bittorrent::peer::queue::{NoPeers, PeerList, PieceQueue, MAX_CONNECTED_PEERS};
use bittorrent::peers::{PeerAddr, Peers};

fn peers(n: u16) -> Peers {
    Peers(
        (0..n)
            .map(|port| PeerAddr {
                ip: [10, 0, 0, 1],
                port,
            })
            .collect(),
    )
}

fn ports(group: &[PeerAddr]) -> Vec<u16> {
    group.iter().map(|p| p.port).collect()
}

#[test]
fn there_must_be_peers() {
    assert_eq!(PeerList::new(peers(0)).unwrap_err(), NoPeers);
}

#[test]
fn peers_come_in_their_order() {
    let mut list = PeerList::new(peers(3)).unwrap();
    assert_eq!(list.next().unwrap().port, 0);
    assert_eq!(list.next().unwrap().port, 1);
    assert_eq!(list.next().unwrap().port, 2);
    assert!(list.next().is_none());
    assert!(list.next().is_none());
}

#[test]
fn the_first_peers_come_together() {
    assert_eq!(MAX_CONNECTED_PEERS, 5);
    let mut list = PeerList::new(peers(7)).unwrap();
    assert_eq!(ports(&list.next_group()), vec![0, 1, 2, 3, 4]);
    assert_eq!(list.next().unwrap().port, 5);
    assert_eq!(list.next().unwrap().port, 6);
    assert!(list.next().is_none());
}

#[test]
fn there_may_be_few_peers() {
    let mut list = PeerList::new(peers(2)).unwrap();
    assert_eq!(ports(&list.next_group()), vec![0, 1]);
    assert!(list.next().is_none());
    assert!(list.next_group().is_empty());
}

#[test]
fn pieces_are_taken_in_their_order() {
    let mut queue = PieceQueue::new(3);
    assert_eq!(queue.take_piece(), Some(0));
    assert_eq!(queue.take_piece(), Some(1));
    assert_eq!(queue.take_piece(), Some(2));
    assert_eq!(queue.take_piece(), None);
    assert!(queue.in_flight(0) && queue.in_flight(1) && queue.in_flight(2));
    assert!(!queue.in_flight(3));
}

#[test]
fn the_last_piece_finishes() {
    let mut queue = PieceQueue::new(2);
    queue.take_piece();
    queue.take_piece();
    assert!(!queue.piece_downloaded(1));
    assert_eq!(queue.downloaded_pieces(), vec![1]);
    assert!(queue.piece_downloaded(0));
    assert_eq!(queue.downloaded_pieces(), vec![0, 1]);
    assert!(!queue.in_flight(0));
}

#[test]
fn a_failed_piece_waits_behind_the_others() {
    let mut queue = PieceQueue::new(3);
    assert_eq!(queue.take_piece(), Some(0));
    queue.piece_failed(0);
    assert!(!queue.in_flight(0));
    assert_eq!(queue.take_piece(), Some(1));
    assert_eq!(queue.take_piece(), Some(2));
    assert_eq!(queue.take_piece(), Some(0));
    assert_eq!(queue.take_piece(), None);
}

#[test]
fn no_piece_is_lost() {
    let mut queue = PieceQueue::new(4);
    let mut failures = 0;
    let mut finished = false;
    while let Some(piece) = queue.take_piece() {
        if piece % 2 == 1 && failures < 5 {
            queue.piece_failed(piece);
            failures += 1;
        } else {
            finished = queue.piece_downloaded(piece);
        }
    }
    assert!(finished);
    assert_eq!(queue.downloaded_pieces(), vec![0, 1, 2, 3]);
}
