use bittorrent::torrent::{
    magnet_from_params, parse_magnet_link, parse_torrent, Hashes, Info, Magnet, MagnetError,
    Torrent,
};

#[test]
fn test_parse_magnet_link() {
    let ml = "magnet:?xt=urn:btih:d69f91e6b2ae4c542468d1073a71d4ea13879a7f&dn=sample.torrent&tr=http%3A%2F%2Fbittorrent-test-tracker.codecrafters.io%2Fannounce";
    let r = parse_magnet_link(ml).unwrap();

    assert_eq!(
        r.announce,
        Some("http://bittorrent-test-tracker.codecrafters.io/announce".to_string())
    );
    assert_eq!(r.name, Some("sample.torrent".to_string()));
    assert_eq!(
        hex::encode(r.info_hash),
        "d69f91e6b2ae4c542468d1073a71d4ea13879a7f"
    );
}

const TOPIC: &str = "urn:btih:d69f91e6b2ae4c542468d1073a71d4ea13879a7f";

fn sample_info() -> Info {
    Info {
        length: 92063,
        name: "sample.txt".to_string(),
        piece_length: 32768,
        pieces: (0..40).collect(),
        hashes: Hashes(vec![]),
        info_hash: [0; 20],
    }
}

fn param(key: &str, value: &str) -> (String, bool, String) {
    (key.to_string(), true, value.to_string())
}

#[test]
fn a_new_info_says_nothing() {
    let info = Info::new();
    assert_eq!(info.length, 0);
    assert_eq!(info.name, "");
    assert_eq!(info.piece_length, 0);
    assert!(info.pieces.is_empty());
    assert_eq!(info.hashes.len(), 0);
    assert_eq!(info.info_hash, [0; 20]);
}

#[test]
fn info_in_bencode() {
    let mut expected =
        b"d6:lengthi92063e4:name10:sample.txt12:piece lengthi32768e6:pieces40:".to_vec();
    expected.extend(0..40u8);
    expected.push(b'e');
    assert_eq!(sample_info().bencode(), expected);
}

#[test]
fn the_name_is_counted_in_bytes() {
    let mut info = Info::new();
    info.name = "\u{e9}".to_string();
    let expected = "d6:lengthi0e4:name2:\u{e9}12:piece lengthi0e6:pieces0:e";
    assert_eq!(info.bencode(), expected.as_bytes().to_vec());
}

#[test]
fn the_largest_length_is_written_in_full() {
    let mut info = Info::new();
    info.length = usize::MAX;
    let expected = format!("d6:lengthi{}e4:name0:12:piece lengthi0e6:pieces0:e", usize::MAX);
    assert_eq!(info.bencode(), expected.into_bytes());
}

#[test]
fn a_torrent_is_completed() {
    let torrent = Torrent {
        announce: "http://tracker".to_string(),
        info: sample_info(),
        from_magnet_link: false,
    };
    let torrent = parse_torrent(torrent).unwrap();
    assert_eq!(torrent.announce, "http://tracker");
    assert_eq!(torrent.info.length, 92063);
    assert_eq!(
        hex::encode(torrent.info.info_hash),
        "450a0ea469c5a5789f2c28864a1950b0e91c8d7e"
    );
    assert_eq!(torrent.info.hashes.len(), 2);
    let first: Vec<u8> = (0..20).collect();
    let second: Vec<u8> = (20..40).collect();
    assert_eq!(torrent.info.hashes.get(0).unwrap().to_vec(), first);
    assert_eq!(torrent.info.hashes.get(1).unwrap().to_vec(), second);
    assert_eq!(torrent.info.hashes.get(2), None);
    assert!(!torrent.from_magnet_link);
}

#[test]
fn pieces_must_fill_hashes() {
    let mut info = sample_info();
    info.pieces.push(0);
    let e = info.finalize().unwrap_err();
    assert_eq!(e.length, 41);
    assert_eq!(info.info_hash, [0; 20]);
    let torrent = Torrent {
        announce: String::new(),
        info,
        from_magnet_link: false,
    };
    assert_eq!(parse_torrent(torrent).unwrap_err().length, 41);
}

#[test]
fn completing_twice_changes_nothing() {
    let mut info = sample_info();
    info.finalize().unwrap();
    let hash = info.info_hash;
    let hashes = info.hashes.0.clone();
    info.finalize().unwrap();
    assert_eq!(info.info_hash, hash);
    assert_eq!(info.hashes.0, hashes);
}

#[test]
fn the_hashes_are_the_pieces() {
    let mut info = sample_info();
    info.finalize().unwrap();
    let joined: Vec<u8> = info.hashes.0.concat();
    assert_eq!(joined, info.pieces);
}

#[test]
fn a_clone_says_the_same() {
    let mut info = sample_info();
    info.finalize().unwrap();
    let torrent = Torrent {
        announce: "a".to_string(),
        info,
        from_magnet_link: true,
    };
    let copy = torrent.clone();
    assert_eq!(copy.announce, torrent.announce);
    assert_eq!(copy.info.name, torrent.info.name);
    assert_eq!(copy.info.pieces, torrent.info.pieces);
    assert_eq!(copy.info.hashes.0, torrent.info.hashes.0);
    assert_eq!(copy.info.info_hash, torrent.info.info_hash);
    assert_eq!(copy.from_magnet_link, torrent.from_magnet_link);
}

#[test]
fn no_url_is_refused() {
    assert!(matches!(
        parse_magnet_link("not a link"),
        Err(MagnetError::NotAUrl)
    ));
}

#[test]
fn a_topic_of_another_kind_is_refused() {
    let r = parse_magnet_link("magnet:?xt=urn:sha1:d69f91e6b2ae4c542468d1073a71d4ea13879a7f");
    assert!(matches!(r, Err(MagnetError::MalformedTopic)));
}

#[test]
fn a_hash_of_wrong_length_is_refused() {
    let r = parse_magnet_link("magnet:?xt=urn:btih:d69f91e6");
    assert!(matches!(r, Err(MagnetError::InvalidInfoHash)));
    let r = parse_magnet_link("magnet:?xt=urn:btih:d69f91e6b2ae4c542468d1073a71d4ea13879a7f00");
    assert!(matches!(r, Err(MagnetError::InvalidInfoHash)));
}

#[test]
fn a_hash_with_other_characters_is_refused() {
    let r = parse_magnet_link("magnet:?xt=urn:btih:z69f91e6b2ae4c542468d1073a71d4ea13879a7f");
    assert!(matches!(r, Err(MagnetError::InvalidInfoHash)));
}

#[test]
fn a_hash_may_be_in_upper_case() {
    let r =
        parse_magnet_link("magnet:?xt=urn:btih:D69F91E6B2AE4C542468D1073A71D4EA13879A7F").unwrap();
    assert_eq!(
        hex::encode(r.info_hash),
        "d69f91e6b2ae4c542468d1073a71d4ea13879a7f"
    );
    assert_eq!(r.announce, None);
    assert_eq!(r.name, None);
}

#[test]
fn an_unknown_parameter_is_refused() {
    match parse_magnet_link("magnet:?dn=a&ws=b") {
        Err(MagnetError::UnknownParam(key)) => assert_eq!(key, "ws"),
        _ => panic!("expected the parameter to be refused"),
    }
}

#[test]
fn an_escaped_key_is_not_known() {
    match parse_magnet_link("magnet:?%74r=http") {
        Err(MagnetError::UnknownParam(key)) => assert_eq!(key, "tr"),
        _ => panic!("expected the parameter to be refused"),
    }
}

#[test]
fn a_link_without_a_topic_is_refused() {
    for link in [
        "magnet:",
        "magnet:?dn=sample.torrent",
        "magnet:?dn=sample.torrent&tr=http%3A%2F%2Ftracker",
    ] {
        assert!(matches!(
            parse_magnet_link(link),
            Err(MagnetError::MissingTopic)
        ));
    }
    assert!(matches!(
        magnet_from_params(vec![]),
        Err(MagnetError::MissingTopic)
    ));
}

#[test]
fn a_topic_may_stand_anywhere() {
    for params in [
        vec![param("xt", TOPIC), param("dn", "name")],
        vec![param("dn", "name"), param("xt", TOPIC)],
    ] {
        let r = magnet_from_params(params).unwrap();
        assert_eq!(
            hex::encode(r.info_hash),
            "d69f91e6b2ae4c542468d1073a71d4ea13879a7f"
        );
        assert_eq!(r.name, Some("name".to_string()));
    }
}

#[test]
fn a_refused_parameter_goes_before_a_missing_topic() {
    let r = magnet_from_params(vec![param("dn", "name"), param("zz", "1")]);
    assert!(matches!(r, Err(MagnetError::UnknownParam(key)) if key == "zz"));
}

#[test]
fn the_last_parameter_counts() {
    let r = magnet_from_params(vec![
        param("xt", "urn:btih:0000000000000000000000000000000000000000"),
        param("tr", "first"),
        param("dn", "name"),
        param("tr", "second"),
        param("xt", TOPIC),
    ])
    .unwrap();
    assert_eq!(r.announce, Some("second".to_string()));
    assert_eq!(r.name, Some("name".to_string()));
    assert_eq!(
        hex::encode(r.info_hash),
        "d69f91e6b2ae4c542468d1073a71d4ea13879a7f"
    );
}

#[test]
fn the_first_refusal_decides() {
    let r = magnet_from_params(vec![param("zz", "1"), param("xt", "nothing")]);
    assert!(matches!(r, Err(MagnetError::UnknownParam(key)) if key == "zz"));
    let r = magnet_from_params(vec![param("xt", "nothing"), param("zz", "1")]);
    assert!(matches!(r, Err(MagnetError::MalformedTopic)));
}

#[test]
fn a_written_topic_is_read_back() {
    let hash: Vec<u8> = (100..120).collect();
    let r = magnet_from_params(vec![param(
        "xt",
        &format!("urn:btih:{}", hex::encode(&hash)),
    )])
    .unwrap();
    assert_eq!(r.info_hash.to_vec(), hash);
}

#[test]
fn a_torrent_from_a_magnet_link() {
    let torrent = Torrent::from_magnet(Magnet {
        info_hash: [7; 20],
        announce: Some("http://tracker".to_string()),
        name: Some("ignored".to_string()),
    });
    assert_eq!(torrent.announce, "http://tracker");
    assert_eq!(torrent.info.info_hash, [7; 20]);
    assert_eq!(torrent.info.length, 999);
    assert_eq!(torrent.info.name, "");
    assert_eq!(torrent.info.piece_length, 0);
    assert!(torrent.from_magnet_link);
}

#[test]
fn metadata_must_have_the_hash_of_the_link() {
    let magnet = || Magnet {
        info_hash: [7; 20],
        announce: Some(String::new()),
        name: None,
    };
    let mut info = sample_info();
    info.info_hash = [7; 20];
    let mut torrent = Torrent::from_magnet(magnet());
    assert!(torrent.set_info(info).is_ok());
    assert_eq!(torrent.info.length, 92063);

    let mut info = sample_info();
    info.info_hash = [8; 20];
    let mut torrent = Torrent::from_magnet(magnet());
    let e = torrent.set_info(info).unwrap_err();
    assert_eq!(e.expected, [7; 20]);
    assert_eq!(e.found, [8; 20]);
}
