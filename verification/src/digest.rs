//! Digests and hexadecimal text.

use sha1::Digest;
use vstd::prelude::*;
use vstd::string::*;

verus! {

/// The SHA-1 digest of a byte string.
pub uninterp spec fn sha1_digest(data: Seq<u8>) -> Seq<u8>;

/// `sha1::Sha1::digest`: the digest of `data`, twenty bytes.
#[verifier::external_body]
pub(crate) fn sha1(data: &[u8]) -> (r: [u8; 20])
    ensures
        r@ == sha1_digest(data@),
{
    sha1::Sha1::digest(data).into()
}

/// The value of a hexadecimal digit of either case.
pub open spec fn hex_value(c: char) -> Option<int> {
    if '0' <= c <= '9' {
        Some(c as int - '0' as int)
    } else if 'a' <= c <= 'f' {
        Some(c as int - 'a' as int + 10)
    } else if 'A' <= c <= 'F' {
        Some(c as int - 'A' as int + 10)
    } else {
        None
    }
}

/// The lower case hexadecimal digit of a value below sixteen.
pub open spec fn hex_digit(v: int) -> char {
    if v < 10 {
        ('0' as int + v) as char
    } else {
        ('a' as int + v - 10) as char
    }
}

/// A byte string in hexadecimal: two lower case digits for each byte, the more
/// significant one first.
pub open spec fn hex_text(data: Seq<u8>) -> Seq<char> {
    Seq::new(
        2 * data.len(),
        |i: int|
            if i % 2 == 0 {
                hex_digit(data[i / 2] as int / 16)
            } else {
                hex_digit(data[i / 2] as int % 16)
            },
    )
}

/// Whether `s` is `n` bytes in hexadecimal, in either case.
pub open spec fn is_hex(s: Seq<char>, n: nat) -> bool {
    &&& s.len() == 2 * n
    &&& forall|i: int| 0 <= i < s.len() ==> hex_value(#[trigger] s[i]) is Some
}

/// The bytes that a hexadecimal text stands for.
pub open spec fn hex_bytes(s: Seq<char>) -> Seq<u8> {
    Seq::new(
        s.len() / 2,
        |i: int| (hex_value(s[2 * i])->0 * 16 + hex_value(s[2 * i + 1])->0) as u8,
    )
}

/// `hex::encode`: the bytes as lower case hexadecimal digits.
#[verifier::external_body]
pub(crate) fn hex_encode(data: &[u8]) -> (r: String)
    requires
        2 * data@.len() <= isize::MAX,
    ensures
        r@ == hex_text(data@),
{
    hex::encode(data)
}

/// The error of the `hex` crate.
#[verifier::external_type_specification]
#[verifier::external_body]
pub struct ExFromHexError(hex::FromHexError);

/// `hex::decode_to_slice` into twenty bytes: fails unless the text is exactly
/// that many bytes in hexadecimal digits of either case.
#[verifier::external_body]
pub(crate) fn hex_decode(s: &str) -> (r: Result<[u8; 20], hex::FromHexError>)
    ensures
        r is Ok <==> is_hex(s@, 20),
        r matches Ok(bytes) ==> bytes@ == hex_bytes(s@),
{
    let mut out = [0u8; 20];
    hex::decode_to_slice(s, &mut out)?;
    Ok(out)
}

/// Decoding what was encoded gives the bytes back.
pub proof fn law_hex_round_trip(data: Seq<u8>)
    ensures
        is_hex(hex_text(data), data.len()),
        hex_bytes(hex_text(data)) == data,
{
    assert forall|i: int| 0 <= i < 2 * data.len() implies hex_value(
        #[trigger] hex_text(data)[i],
    ) is Some && hex_value(hex_text(data)[i])->0 == (if i % 2 == 0 {
        data[i / 2] as int / 16
    } else {
        data[i / 2] as int % 16
    }) by {}
    assert forall|i: int| 0 <= i < data.len() implies #[trigger] hex_bytes(hex_text(data))[i]
        == data[i] by {
        let s = hex_text(data);
        assert(hex_value(s[2 * i])->0 == data[i] as int / 16);
        assert(hex_value(s[2 * i + 1])->0 == data[i] as int % 16);
    }
    assert(hex_bytes(hex_text(data)) =~= data);
}

/// The sixteen digits, in either case, stand for the values from zero on, and no other
/// character stands for any.
pub proof fn law_hex_digits(v: int, c: char)
    ensures
        0 <= v < 16 ==> hex_digit(v) == "0123456789abcdef"@[v],
        0 <= v < 16 ==> hex_value("0123456789abcdef"@[v]) == Some(v),
        0 <= v < 16 ==> hex_value("0123456789ABCDEF"@[v]) == Some(v),
        hex_value(c) is Some ==> "0123456789abcdef"@.contains(c) || "0123456789ABCDEF"@.contains(c),
{
    reveal_strlit("0123456789abcdef");
    reveal_strlit("0123456789ABCDEF");
    if hex_value(c) is Some {
        let v = hex_value(c)->0;
        if 'A' <= c <= 'F' {
            assert("0123456789ABCDEF"@[v] == c);
        } else {
            assert("0123456789abcdef"@[v] == c);
        }
    }
}

/// Every byte is two digits, the more significant one first: the bytes of two texts,
/// put one after the other, are those of the texts put one after the other.
pub proof fn law_hex_of_sum(a: Seq<u8>, b: Seq<u8>)
    ensures
        hex_text(a + b) == hex_text(a) + hex_text(b),
        hex_bytes(hex_text(a) + hex_text(b)) == a + b,
        a.len() == 1 ==> hex_text(a) == seq![
            "0123456789abcdef"@[a[0] as int / 16],
            "0123456789abcdef"@[a[0] as int % 16],
        ],
{
    assert(hex_text(a + b) =~= hex_text(a) + hex_text(b)) by {
        assert forall|i: int| 0 <= i < 2 * (a.len() + b.len()) implies hex_text(a + b)[i] == (
        hex_text(a) + hex_text(b))[i] by {
            if i >= 2 * a.len() {
                let j = i - 2 * a.len();
                assert(i / 2 == a.len() + j / 2);
                assert(i % 2 == j % 2);
            }
        }
    }
    law_hex_round_trip(a + b);
    if a.len() == 1 {
        law_hex_digits(a[0] as int / 16, '0');
        law_hex_digits(a[0] as int % 16, '0');
        assert(hex_text(a) =~= seq![
            "0123456789abcdef"@[a[0] as int / 16],
            "0123456789abcdef"@[a[0] as int % 16],
        ]);
    }
}

} // verus!
