use bittorrent::peer::codec::MAX;
use bittorrent::peer::download::{
    DownloadError, PieceDownload, BLOCK_MAX_SIZE, PIPELINED_REQUESTS,
};
use bittorrent::peer::message::{Message, MessageTag};
use bittorrent::torrent::{Hashes, Info};

const LEN: usize = 40000;

fn data() -> Vec<u8> {
    (0..LEN).map(|i| ((i * 7 + 3) % 256) as u8).collect()
}

fn hash_of_data() -> [u8; 20] {
    let mut hash = [0u8; 20];
    hash.copy_from_slice(&hex::decode("809edcbd2d203c77722ce3589ea2dc9f44f429f5").unwrap());
    hash
}

fn info(length: usize, piece_length: usize, hashes: Vec<[u8; 20]>) -> Info {
    let mut info = Info::new();
    info.length = length;
    info.piece_length = piece_length;
    info.hashes = Hashes(hashes);
    info
}

/// A file of two pieces, of which the second holds `data()`.
fn two_pieces() -> Info {
    info(50000 + LEN, 50000, vec![[0; 20], hash_of_data()])
}

fn requests(download: &mut PieceDownload) -> Vec<(u32, u32, u32)> {
    let mut requests = vec![];
    while let Some(m) = download.next_request() {
        assert_eq!(m.tag, MessageTag::Request);
        assert_eq!(m.payload.len(), 12);
        let number = |at: usize| {
            let mut bytes = [0u8; 4];
            bytes.copy_from_slice(&m.payload[at..at + 4]);
            u32::from_be_bytes(bytes)
        };
        requests.push((number(0), number(4), number(8)));
    }
    requests
}

fn piece_message(piece: u32, begin: u32, block: &[u8]) -> Message {
    let mut payload = piece.to_be_bytes().to_vec();
    payload.extend(begin.to_be_bytes());
    payload.extend_from_slice(block);
    Message {
        tag: MessageTag::Piece,
        payload,
    }
}

fn block_message(piece: u32, data: &[u8], block: usize) -> Message {
    let begin = block * BLOCK_MAX_SIZE;
    let end = data.len().min(begin + BLOCK_MAX_SIZE);
    piece_message(piece, begin as u32, &data[begin..end])
}

#[test]
fn limits() {
    assert_eq!(BLOCK_MAX_SIZE, 1 << 14);
    assert_eq!(PIPELINED_REQUESTS, 5);
    assert!(BLOCK_MAX_SIZE + 9 <= MAX);
}

#[test]
fn a_piece_is_asked_for_block_by_block() {
    let mut download = PieceDownload::new(1, &two_pieces()).unwrap();
    assert_eq!(
        requests(&mut download),
        vec![(1, 0, 16384), (1, 16384, 16384), (1, 32768, 7232)]
    );
    assert!(download.next_request().is_none());
}

#[test]
fn a_piece_may_end_where_a_block_ends() {
    let info = info(32768 * 3, 32768, vec![[0; 20]; 3]);
    for piece in 0..3 {
        let mut download = PieceDownload::new(piece, &info).unwrap();
        assert_eq!(
            requests(&mut download),
            vec![(piece as u32, 0, 16384), (piece as u32, 16384, 16384)]
        );
    }
}

#[test]
fn only_the_last_piece_is_shorter() {
    let info = info(92063, 32768, vec![[0; 20]; 3]);
    let lengths: Vec<u32> = (0..3)
        .map(|piece| {
            let mut download = PieceDownload::new(piece, &info).unwrap();
            requests(&mut download).iter().map(|r| r.2).sum()
        })
        .collect();
    assert_eq!(lengths, vec![32768, 32768, 26527]);
}

#[test]
fn a_small_piece_is_one_block() {
    let mut download = PieceDownload::new(0, &info(1, 32768, vec![[0; 20]])).unwrap();
    assert_eq!(requests(&mut download), vec![(0, 0, 1)]);
}

#[test]
fn blocks_may_come_in_any_order() {
    for order in [
        [0, 1, 2],
        [0, 2, 1],
        [1, 0, 2],
        [1, 2, 0],
        [2, 0, 1],
        [2, 1, 0],
    ] {
        let info = two_pieces();
        let mut download = PieceDownload::new(1, &info).unwrap();
        for (i, block) in order.into_iter().enumerate() {
            let last = download.receive(&block_message(1, &data(), block)).unwrap();
            assert_eq!(last, i == 2);
        }
        assert_eq!(download.finish(&info.hashes), Ok(data()));
    }
}

#[test]
fn other_messages_are_passed_over() {
    let info = two_pieces();
    let mut download = PieceDownload::new(1, &info).unwrap();
    for block in 0..3 {
        let other = Message {
            tag: MessageTag::Unchoke,
            payload: vec![],
        };
        assert_eq!(download.receive(&other), Ok(false));
        download.receive(&block_message(1, &data(), block)).unwrap();
    }
    assert_eq!(download.finish(&info.hashes), Ok(data()));
}

#[test]
fn a_block_of_another_piece_is_refused() {
    let mut download = PieceDownload::new(1, &two_pieces()).unwrap();
    assert_eq!(
        download.receive(&block_message(0, &data(), 0)),
        Err(DownloadError::WrongPiece {
            expected: 1,
            found: 0
        })
    );
}

#[test]
fn a_block_behind_the_end_is_refused() {
    let mut download = PieceDownload::new(1, &two_pieces()).unwrap();
    assert_eq!(
        download.receive(&piece_message(1, 49152, &[1])),
        Err(DownloadError::BlockOutOfRange { block: 3, count: 3 })
    );
}

#[test]
fn changed_data_is_refused() {
    let info = two_pieces();
    let mut download = PieceDownload::new(1, &info).unwrap();
    let mut data = data();
    data[20000] ^= 1;
    for block in 0..3 {
        download.receive(&block_message(1, &data, block)).unwrap();
    }
    assert_eq!(
        download.finish(&info.hashes),
        Err(DownloadError::HashMismatch)
    );
}

#[test]
fn missing_data_is_refused() {
    let info = two_pieces();
    let mut download = PieceDownload::new(1, &info).unwrap();
    for block in 0..2 {
        assert_eq!(
            download.receive(&block_message(1, &data(), block)),
            Ok(false)
        );
    }
    assert_eq!(
        download.finish(&info.hashes),
        Err(DownloadError::HashMismatch)
    );
}

#[test]
fn a_block_that_comes_in_parts_is_put_together() {
    let info = two_pieces();
    let mut download = PieceDownload::new(1, &info).unwrap();
    let data = data();
    assert_eq!(
        download.receive(&piece_message(1, 0, &data[..100])),
        Ok(false)
    );
    assert_eq!(
        download.receive(&piece_message(1, 100, &data[100..16384])),
        Ok(false)
    );
    assert_eq!(
        download.receive(&piece_message(1, 16384, &data[16384..])),
        Ok(true)
    );
    assert_eq!(download.finish(&info.hashes), Ok(data));
}

#[test]
fn a_piece_out_of_range_is_refused() {
    let e = PieceDownload::new(3, &two_pieces()).unwrap_err();
    assert_eq!(e, DownloadError::PieceOutOfRange { max: 2 });
}

#[test]
fn a_piece_without_a_hash_is_refused_in_the_end() {
    let info = two_pieces();
    let mut download = PieceDownload::new(2, &info).unwrap();
    assert_eq!(requests(&mut download).len(), 4);
    assert_eq!(
        download.finish(&info.hashes),
        Err(DownloadError::NoHash { piece: 2 })
    );
}

#[test]
fn a_piece_of_no_length_has_no_blocks() {
    let mut empty_hash = [0u8; 20];
    empty_hash.copy_from_slice(&hex::decode("da39a3ee5e6b4b0d3255bfef95601890afd80709").unwrap());
    let info = info(0, 0, vec![empty_hash, [0; 20]]);
    let mut download = PieceDownload::new(0, &info).unwrap();
    assert!(download.next_request().is_none());
    assert_eq!(
        download.receive(&piece_message(0, 0, &[])),
        Err(DownloadError::BlockOutOfRange { block: 0, count: 0 })
    );
    assert_eq!(download.finish(&info.hashes), Ok(vec![]));
}
