use bittorrent::peer::codec::{FrameTooLarge, MessageCodec, MAX};
use bittorrent::peer::message::{Message, MessageTag};
use bytes::BytesMut;

fn decode(src: &mut BytesMut) -> Option<(MessageTag, Vec<u8>)> {
    MessageCodec
        .decode(src)
        .unwrap()
        .map(|m| (m.tag, m.payload))
}

fn encoded(tag: MessageTag, payload: &[u8]) -> Vec<u8> {
    let mut dst = BytesMut::new();
    let message = Message {
        tag,
        payload: payload.to_vec(),
    };
    MessageCodec.encode(message, &mut dst).unwrap();
    dst.to_vec()
}

#[test]
fn every_tag_has_its_byte() {
    let tags = [
        (0, MessageTag::Choke),
        (1, MessageTag::Unchoke),
        (2, MessageTag::Interested),
        (3, MessageTag::NotInterested),
        (4, MessageTag::Have),
        (5, MessageTag::Bitfield),
        (6, MessageTag::Request),
        (7, MessageTag::Piece),
        (8, MessageTag::Cancel),
        (20, MessageTag::Extended),
    ];
    for (byte, tag) in tags {
        assert_eq!(MessageTag::from_byte(byte), Some(tag));
        assert_eq!(tag.to_byte(), byte);
    }
}

#[test]
fn other_bytes_stand_for_no_tag() {
    for byte in [9, 10, 19, 21, 255] {
        assert_eq!(MessageTag::from_byte(byte), None);
    }
}

#[test]
fn a_message_is_framed() {
    assert_eq!(
        encoded(MessageTag::Request, &[9, 8]),
        vec![0, 0, 0, 3, 6, 9, 8]
    );
    assert_eq!(encoded(MessageTag::Interested, &[]), vec![0, 0, 0, 1, 2]);
}

#[test]
fn frames_are_appended() {
    let mut dst = BytesMut::new();
    dst.extend_from_slice(&[42]);
    let message = Message {
        tag: MessageTag::Choke,
        payload: vec![7],
    };
    MessageCodec.encode(message, &mut dst).unwrap();
    assert_eq!(dst.to_vec(), vec![42, 0, 0, 0, 2, 0, 7]);
}

#[test]
fn a_framed_message_is_read_back() {
    let mut bytes = encoded(MessageTag::Extended, &[1, 2, 3]);
    bytes.extend_from_slice(&[77, 78]);
    let mut src = BytesMut::from(bytes.as_slice());
    assert_eq!(
        decode(&mut src),
        Some((MessageTag::Extended, vec![1, 2, 3]))
    );
    assert_eq!(src.to_vec(), vec![77, 78]);
}

#[test]
fn messages_are_read_in_their_order() {
    let mut bytes = encoded(MessageTag::Bitfield, &[255]);
    bytes.extend(encoded(MessageTag::Unchoke, &[]));
    let mut src = BytesMut::from(bytes.as_slice());
    assert_eq!(decode(&mut src), Some((MessageTag::Bitfield, vec![255])));
    assert_eq!(decode(&mut src), Some((MessageTag::Unchoke, vec![])));
    assert_eq!(decode(&mut src), None);
    assert!(src.is_empty());
}

#[test]
fn a_message_may_arrive_in_pieces() {
    let bytes = encoded(MessageTag::Piece, &[1, 2, 3, 4]);
    for cut in 0..bytes.len() {
        let mut src = BytesMut::from(&bytes[..cut]);
        assert_eq!(decode(&mut src), None);
        assert_eq!(src.to_vec(), bytes[..cut].to_vec());
        src.extend_from_slice(&bytes[cut..]);
        assert_eq!(
            decode(&mut src),
            Some((MessageTag::Piece, vec![1, 2, 3, 4]))
        );
    }
}

#[test]
fn keepalives_are_passed_over() {
    let mut bytes = vec![0, 0, 0, 0, 0, 0, 0, 0];
    bytes.extend(encoded(MessageTag::Have, &[5]));
    let mut src = BytesMut::from(bytes.as_slice());
    assert_eq!(decode(&mut src), Some((MessageTag::Have, vec![5])));
}

#[test]
fn a_keepalive_alone_is_consumed() {
    let mut src = BytesMut::from(&[0u8, 0, 0, 0][..]);
    assert_eq!(decode(&mut src), None);
    assert!(src.is_empty());
}

#[test]
fn unknown_messages_are_passed_over() {
    let mut bytes = vec![0, 0, 0, 3, 99, 1, 2];
    bytes.extend(encoded(MessageTag::Cancel, &[6]));
    let mut src = BytesMut::from(bytes.as_slice());
    assert_eq!(decode(&mut src), Some((MessageTag::Cancel, vec![6])));
}

#[test]
fn the_largest_frame_is_taken() {
    let payload = vec![3u8; MAX - 1];
    let bytes = encoded(MessageTag::Piece, &payload);
    assert_eq!(bytes.len(), 4 + MAX);
    let mut src = BytesMut::from(bytes.as_slice());
    assert_eq!(decode(&mut src), Some((MessageTag::Piece, payload)));
}

#[test]
fn a_larger_frame_is_not_read() {
    assert_eq!(MAX, 17384);
    let mut src = BytesMut::from(&[0u8, 0, 0x43, 0xe9, 7][..]);
    let e = MessageCodec.decode(&mut src).unwrap_err();
    assert_eq!(e, FrameTooLarge { length: 17385 });
    assert_eq!(src.len(), 5);
}

#[test]
fn the_length_alone_is_not_judged() {
    let mut src = BytesMut::from(&[0xffu8, 0xff, 0xff, 0xff][..]);
    assert_eq!(decode(&mut src), None);
}

#[test]
fn a_larger_frame_is_not_written() {
    let mut dst = BytesMut::new();
    let message = Message {
        tag: MessageTag::Piece,
        payload: vec![0; MAX],
    };
    let e = MessageCodec.encode(message, &mut dst).unwrap_err();
    assert_eq!(e, FrameTooLarge { length: 17385 });
    assert!(dst.is_empty());
}
