use bittorrent::bencode::{decode_bencoded_value, try_decode_bencoded_value, Value};
use bittorrent::peer::framer::{Action, Framer};
use bittorrent::peer::message::{Message, MessageTag};
use bittorrent::torrent::Info;

fn show(value: &Value) -> String {
    match value {
        Value::Str(s) => format!("{:?}", s),
        Value::Int(n) => format!("{}", n),
        Value::List(items) => {
            let items: Vec<String> = items.iter().map(show).collect();
            format!("[{}]", items.join(","))
        }
        Value::Dict(entries) => {
            let mut entries: Vec<String> = entries
                .iter()
                .map(|(k, v)| format!("{:?}:{}", k, show(v)))
                .collect();
            entries.sort();
            format!("{{{}}}", entries.join(","))
        }
    }
}

fn decode(s: &str) -> (String, &str) {
    let (value, rest) = decode_bencoded_value(s);
    (show(&value), rest)
}

#[test]
fn strings() {
    assert_eq!(decode("5:hello"), ("\"hello\"".to_string(), ""));
    assert_eq!(decode("0:rest"), ("\"\"".to_string(), "rest"));
    assert_eq!(decode("3:foobar"), ("\"foo\"".to_string(), "bar"));
    assert_eq!(decode("003:abc"), ("\"abc\"".to_string(), ""));
    assert_eq!(decode("2:a:b"), ("\"a:\"".to_string(), "b"));
}

#[test]
fn strings_are_counted_in_bytes() {
    assert_eq!(decode("3:\u{20ac}x"), ("\"\u{20ac}\"".to_string(), "x"));
    assert!(try_decode_bencoded_value("2:\u{20ac}x").is_none());
}

#[test]
fn integers() {
    assert_eq!(decode("i-42e"), ("-42".to_string(), ""));
    assert_eq!(decode("i52erest"), ("52".to_string(), "rest"));
    assert_eq!(decode("i+7e"), ("7".to_string(), ""));
    assert_eq!(decode("i-0e"), ("0".to_string(), ""));
    assert_eq!(decode("i007e"), ("7".to_string(), ""));
    assert_eq!(
        decode("i9223372036854775807e"),
        ("9223372036854775807".to_string(), "")
    );
    assert_eq!(
        decode("i-9223372036854775808e"),
        ("-9223372036854775808".to_string(), "")
    );
}

#[test]
fn lists() {
    assert_eq!(decode("l5:helloi52ee"), ("[\"hello\",52]".to_string(), ""));
    assert_eq!(decode("lli4eei5ee"), ("[[4],5]".to_string(), ""));
    assert_eq!(decode("lex"), ("[]".to_string(), "x"));
}

#[test]
fn dictionaries() {
    assert_eq!(
        decode("d3:foo3:bar5:helloi52ee"),
        ("{\"foo\":\"bar\",\"hello\":52}".to_string(), "")
    );
    assert_eq!(decode("dex"), ("{}".to_string(), "x"));
    assert_eq!(
        decode("d1:ad1:bli1eeee!"),
        ("{\"a\":{\"b\":[1]}}".to_string(), "!")
    );
}

#[test]
fn a_later_entry_replaces_an_earlier_one() {
    assert_eq!(
        decode("d1:ai1e1:bi2e1:ai3ee"),
        ("{\"a\":3,\"b\":2}".to_string(), "")
    );
}

#[test]
fn what_is_not_bencode() {
    for s in [
        "",
        "e",
        "x",
        ":",
        "5",
        "5:abc",
        "1x:a",
        "99999999999999999999:a",
        "i",
        "ie",
        "i1",
        "i1x2e",
        "i9223372036854775808e",
        "i-9223372036854775809e",
        "i--1e",
        "l",
        "li1e",
        "lxe",
        "d",
        "d1:a",
        "d1:ai1e",
        "di1e1:ae",
        "dle1:ae",
    ] {
        assert!(try_decode_bencoded_value(s).is_none(), "{}", s);
    }
}

#[test]
fn what_is_written_is_read() {
    let mut info = Info::new();
    info.length = 1234;
    info.name = "na\u{ef}ve".to_string();
    info.piece_length = 16;
    info.pieces = b"abcdefghijklmnopqrst".to_vec();
    let written = String::from_utf8(info.bencode()).unwrap();
    assert_eq!(
        decode(&written),
        (
            "{\"length\":1234,\"name\":\"na\u{ef}ve\",\"piece length\":16,\"pieces\":\"abcdefghijklmnopqrst\"}"
                .to_string(),
            ""
        )
    );
}

#[test]
fn the_extension_handshake_is_read() {
    let mut framer = Framer::new(true);
    let bitfield = Message {
        tag: MessageTag::Bitfield,
        payload: vec![],
    };
    match framer.receive_bitfield(&bitfield).unwrap() {
        Action::Send(m) => {
            let text = String::from_utf8(m.payload[1..].to_vec()).unwrap();
            assert_eq!(
                decode(&text),
                ("{\"m\":{\"ut_metadata\":2}}".to_string(), "")
            );
        }
        _ => panic!("expected a message to send"),
    }
}
