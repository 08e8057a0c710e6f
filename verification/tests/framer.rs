use bittorrent::peer::framer::{
    metadata_bytes, receive_metadata, Action, Framer, FramerError, MetadataAction, Phase,
};
use bittorrent::peer::message::{Message, MessageTag};
use bittorrent::torrent::Info;

fn message(tag: MessageTag, payload: &[u8]) -> Message {
    Message {
        tag,
        payload: payload.to_vec(),
    }
}

fn bitfield() -> Message {
    message(MessageTag::Bitfield, &[0xe0])
}

fn ready(ut_metadata: u8) -> Framer {
    let mut framer = Framer::new(true);
    framer.receive_bitfield(&bitfield()).unwrap();
    framer.extensions_read(ut_metadata);
    framer
}

#[test]
fn without_extensions_the_bitfield_is_enough() {
    let mut framer = Framer::new(false);
    assert_eq!(
        framer.phase(),
        Phase::AwaitBitfield {
            support_extensions: false
        }
    );
    let action = framer.receive_bitfield(&bitfield()).unwrap();
    assert!(matches!(action, Action::Proceed));
    assert_eq!(framer.phase(), Phase::Ready);
    assert_eq!(framer.peer_metadata_extension_id(), None);
}

#[test]
fn something_else_than_a_bitfield_is_refused() {
    let mut framer = Framer::new(true);
    let e = framer
        .receive_bitfield(&message(MessageTag::Unchoke, &[]))
        .unwrap_err();
    assert_eq!(
        e,
        FramerError::UnexpectedTag {
            expected: MessageTag::Bitfield,
            found: MessageTag::Unchoke
        }
    );
    assert_eq!(
        framer.phase(),
        Phase::AwaitBitfield {
            support_extensions: true
        }
    );
}

#[test]
fn with_extensions_a_handshake_follows() {
    let mut framer = Framer::new(true);
    match framer.receive_bitfield(&bitfield()).unwrap() {
        Action::Send(m) => {
            assert_eq!(m.tag, MessageTag::Extended);
            assert_eq!(m.payload, b"\0d1:md11:ut_metadatai2eee".to_vec());
        }
        _ => panic!("expected a message to send"),
    }
    assert_eq!(framer.phase(), Phase::AwaitExtensionHandshake);
    assert_eq!(framer.peer_metadata_extension_id(), None);

    let reply = message(MessageTag::Extended, b"\0d1:md11:ut_metadatai16eee");
    match framer.receive_extension_handshake(&reply).unwrap() {
        Action::ReadExtensions(bytes) => {
            assert_eq!(bytes, b"d1:md11:ut_metadatai16eee".to_vec())
        }
        _ => panic!("expected a dictionary to read"),
    }
    framer.extensions_read(16);
    assert_eq!(framer.phase(), Phase::Ready);
    assert_eq!(framer.peer_metadata_extension_id(), Some(16));
}

#[test]
fn the_handshake_that_is_sent_is_taken() {
    let mut framer = Framer::new(true);
    match framer.receive_bitfield(&bitfield()).unwrap() {
        Action::Send(m) => assert!(framer.receive_extension_handshake(&m).is_ok()),
        _ => panic!("expected a message to send"),
    }
}

#[test]
fn another_extension_handshake_is_refused() {
    let mut framer = Framer::new(true);
    framer.receive_bitfield(&bitfield()).unwrap();
    let e = framer
        .receive_extension_handshake(&message(MessageTag::Have, &[0]))
        .unwrap_err();
    assert_eq!(
        e,
        FramerError::UnexpectedTag {
            expected: MessageTag::Extended,
            found: MessageTag::Have
        }
    );
    let e = framer
        .receive_extension_handshake(&message(MessageTag::Extended, &[3, 100, 101]))
        .unwrap_err();
    assert_eq!(
        e,
        FramerError::UnexpectedExtendedId {
            expected_id: 0,
            found_id: 3
        }
    );
    assert_eq!(framer.phase(), Phase::AwaitExtensionHandshake);
}

#[test]
fn metadata_needs_extensions() {
    let mut framer = Framer::new(false);
    framer.receive_bitfield(&bitfield()).unwrap();
    assert_eq!(
        framer.magnet_torrent_info().unwrap_err(),
        FramerError::NoMetadataExtension
    );
}

#[test]
fn metadata_is_asked_for_under_the_id_of_the_peer() {
    match ready(16).magnet_torrent_info().unwrap() {
        MetadataAction::Send(m) => {
            assert_eq!(m.tag, MessageTag::Extended);
            assert_eq!(m.payload, b"\x10d8:msg_typei0e5:piecei0ee".to_vec());
        }
        _ => panic!("expected a message to send"),
    }
}

#[test]
fn the_answer_must_have_the_id_that_was_asked_for() {
    let e = receive_metadata(&message(MessageTag::Extended, &[16, 1])).unwrap_err();
    assert_eq!(
        e,
        FramerError::UnexpectedExtendedId {
            expected_id: 2,
            found_id: 16
        }
    );
    let e = receive_metadata(&message(MessageTag::Choke, &[])).unwrap_err();
    assert_eq!(
        e,
        FramerError::UnexpectedTag {
            expected: MessageTag::Extended,
            found: MessageTag::Choke
        }
    );
    let bytes = receive_metadata(&message(MessageTag::Extended, &[2, 1, 9])).unwrap();
    assert_eq!(bytes, vec![1, 9]);
}

#[test]
fn metadata_is_at_the_end_of_the_message() {
    let answer = message(
        MessageTag::Extended,
        b"\x02d8:msg_typei1e5:piecei0e10:total_sizei4eed1:e",
    );
    assert_eq!(metadata_bytes(&answer, 4), b"d1:e".to_vec());
    assert_eq!(metadata_bytes(&answer, 0), Vec::<u8>::new());
    assert_eq!(
        metadata_bytes(&answer, answer.payload.len()),
        answer.payload
    );
}

#[test]
fn metadata_is_kept() {
    let mut framer = ready(16);
    let mut info = Info::new();
    info.length = 5;
    info.pieces = vec![3; 20];
    let known = framer.metadata_read(info).unwrap();
    assert_eq!(known.hashes.len(), 1);
    match framer.magnet_torrent_info().unwrap() {
        MetadataAction::Known(info) => {
            assert_eq!(info.length, 5);
            assert_eq!(info.info_hash, known.info_hash);
            assert_ne!(info.info_hash, [0; 20]);
        }
        _ => panic!("expected the metadata to be known"),
    }
}

#[test]
fn metadata_must_be_whole() {
    let mut framer = ready(16);
    let mut info = Info::new();
    info.pieces = vec![3; 19];
    assert_eq!(framer.metadata_read(info).unwrap_err().length, 19);
    assert!(matches!(
        framer.magnet_torrent_info(),
        Ok(MetadataAction::Send(_))
    ));
}

#[test]
fn the_hash_of_metadata() {
    let info = ready(1).metadata_read(Info::new()).unwrap();
    assert_eq!(
        hex::encode(info.info_hash),
        "85c13b162ef908272a8fc8d721173e6d932bc0f1"
    );
}
