//! Bencode, the encoding of metainfo files and of extension messages.

use vstd::prelude::*;
use vstd::string::*;
use vstd::utf8::*;

use crate::text::{chars_of, decimal, digit, string_of};

verus! {

/// An integer in bencode: `i<number>e`.
pub open spec fn bencoded_uint(n: nat) -> Seq<u8> {
    seq!['i' as u8] + encode_utf8(decimal(n)) + seq!['e' as u8]
}

/// A byte string in bencode: `<length>:<contents>`.
pub open spec fn bencoded_bytes(b: Seq<u8>) -> Seq<u8> {
    encode_utf8(decimal(b.len())) + seq![':' as u8] + b
}

/// A text in bencode: the byte string of its UTF-8 encoding.
pub open spec fn bencoded_str(s: Seq<char>) -> Seq<u8> {
    bencoded_bytes(encode_utf8(s))
}

/// The error of the `serde_bencode` crate.
#[verifier::external_type_specification]
#[verifier::external_body]
pub struct ExBencodeError(serde_bencode::Error);

/// `serde_bencode::to_bytes` of an unsigned number, which never fails.
#[verifier::external_body]
fn uint_to_bytes(n: u64) -> (r: Result<Vec<u8>, serde_bencode::Error>)
    ensures
        r is Ok,
        r->Ok_0@ == bencoded_uint(n as nat),
{
    serde_bencode::to_bytes(&n)
}

/// `serde_bencode::to_bytes` of a byte string, which never fails.
#[verifier::external_body]
fn bytes_to_bytes(b: &[u8]) -> (r: Result<Vec<u8>, serde_bencode::Error>)
    ensures
        r is Ok,
        r->Ok_0@ == bencoded_bytes(b@),
{
    serde_bencode::to_bytes(&serde_bencode::value::Value::Bytes(b.to_vec()))
}

/// Appends a number in bencode.
pub(crate) fn push_uint(out: &mut Vec<u8>, n: u64)
    ensures
        final(out)@ == old(out)@ + bencoded_uint(n as nat),
{
    let mut encoded = uint_to_bytes(n).unwrap();
    out.append(&mut encoded);
}

/// Appends a byte string in bencode.
pub(crate) fn push_bytes(out: &mut Vec<u8>, b: &[u8])
    ensures
        final(out)@ == old(out)@ + bencoded_bytes(b@),
{
    let mut encoded = bytes_to_bytes(b).unwrap();
    out.append(&mut encoded);
}

/// Appends a text in bencode.
pub(crate) fn push_str(out: &mut Vec<u8>, s: &str)
    ensures
        final(out)@ == old(out)@ + bencoded_str(s@),
{
    push_bytes(out, s.as_bytes());
}

/// A value that was read from bencode.
#[derive(Debug)]
pub enum Value {
    Str(String),
    Int(i64),
    List(Vec<Value>),
    /// Keys and their values; no key occurs twice.
    Dict(Vec<(String, Value)>),
}

/// What a value is.
pub enum ValueView {
    Str(Seq<char>),
    Int(int),
    List(Seq<ValueView>),
    Dict(Map<Seq<char>, ValueView>),
}

impl Value {
    /// What the value is.
    pub open spec fn model(self) -> ValueView
        decreases self,
    {
        match self {
            Value::Str(s) => ValueView::Str(s@),
            Value::Int(n) => ValueView::Int(n as int),
            Value::List(items) => ValueView::List(models(items@)),
            Value::Dict(entries) => ValueView::Dict(dict_of(entry_models(entries@))),
        }
    }
}

impl Value {
    /// Whether no key of a dictionary in this value occurs twice.
    pub open spec fn wf(self) -> bool
        decreases self,
    {
        match self {
            Value::Str(_) => true,
            Value::Int(_) => true,
            Value::List(items) => forall|i: int|
                0 <= i < items@.len() ==> (#[trigger] items@[i]).wf(),
            Value::Dict(entries) => {
                &&& distinct_keys(entry_models(entries@))
                &&& forall|i: int| 0 <= i < entries@.len() ==> (#[trigger] entries@[i]).1.wf()
            },
        }
    }
}

/// What the elements of a list are.
pub open spec fn models(items: Seq<Value>) -> Seq<ValueView>
    decreases items,
{
    Seq::new(
        items.len(),
        |i: int|
            if 0 <= i < items.len() {
                items[i].model()
            } else {
                arbitrary()
            },
    )
}

/// What the entries of a dictionary are.
pub open spec fn entry_models(entries: Seq<(String, Value)>) -> Seq<(Seq<char>, ValueView)>
    decreases entries,
{
    Seq::new(
        entries.len(),
        |i: int|
            if 0 <= i < entries.len() {
                (entries[i].0@, entries[i].1.model())
            } else {
                arbitrary()
            },
    )
}

/// The dictionary with the given entries. Of two entries with the same key the
/// later one counts.
pub open spec fn dict_of(entries: Seq<(Seq<char>, ValueView)>) -> Map<Seq<char>, ValueView>
    decreases entries.len(),
{
    if entries.len() == 0 {
        Map::empty()
    } else {
        dict_of(entries.drop_last()).insert(entries.last().0, entries.last().1)
    }
}

/// How many bytes a character takes in UTF-8.
pub open spec fn char_bytes(c: char) -> nat {
    encode_scalar(c as u32).len()
}

/// How many characters at the beginning of `s` take `n` bytes together, if `n`
/// bytes end where a character ends.
pub open spec fn chars_in_bytes(s: Seq<char>, n: nat) -> Option<nat>
    decreases s.len(),
{
    if n == 0 {
        Some(0)
    } else if s.len() == 0 || char_bytes(s[0]) > n {
        None
    } else {
        match chars_in_bytes(s.skip(1), (n - char_bytes(s[0])) as nat) {
            Some(m) => Some(m + 1),
            None => None,
        }
    }
}

/// Whether `c` is a decimal digit.
pub open spec fn is_digit(c: char) -> bool {
    '0' <= c <= '9'
}

/// The number that a text of decimal digits spells.
pub open spec fn digits_value(s: Seq<char>) -> nat
    decreases s.len(),
{
    if s.len() == 0 {
        0
    } else {
        10 * digits_value(s.drop_last()) + (s.last() as nat - '0' as nat) as nat
    }
}

/// Whether `s` is a number without sign: digits, and at least one.
pub open spec fn is_number(s: Seq<char>) -> bool {
    &&& s.len() > 0
    &&& forall|i: int| 0 <= i < s.len() ==> is_digit(#[trigger] s[i])
}

/// The number that a text spells, if it is a number, with a sign or without, that
/// fits in 64 bits.
pub open spec fn integer(s: Seq<char>) -> Option<int> {
    let signed = s.len() > 0 && (s[0] == '-' || s[0] == '+');
    let digits = if signed {
        s.skip(1)
    } else {
        s
    };
    let value = if signed && s[0] == '-' {
        -digits_value(digits)
    } else {
        digits_value(digits) as int
    };
    if is_number(digits) && i64::MIN <= value <= i64::MAX {
        Some(value)
    } else {
        None
    }
}

/// The value at the beginning of `s` and what follows it, if `s` begins with a
/// value in bencode.
///
/// A string is `<length>:<contents>`, its length counted in bytes; an integer is
/// `i<number>e`; a list is `l<elements>e`; a dictionary is
/// `d<key1><value1>...<keyN><valueN>e`, its keys being strings.
pub open spec fn decoded(s: Seq<char>) -> Option<(ValueView, Seq<char>)>
    decreases s.len(), 0nat,
{
    if s.len() == 0 {
        None
    } else if is_digit(s[0]) {
        decoded_string(s)
    } else if s[0] == 'i' {
        decoded_integer(s.skip(1))
    } else if s[0] == 'l' {
        match decoded_items(s.skip(1)) {
            Some((items, rest)) => Some((ValueView::List(items), rest)),
            None => None,
        }
    } else if s[0] == 'd' {
        match decoded_entries(s.skip(1)) {
            Some((entries, rest)) => Some((ValueView::Dict(dict_of(entries)), rest)),
            None => None,
        }
    } else {
        None
    }
}

/// The string at the beginning of `s`.
pub open spec fn decoded_string(s: Seq<char>) -> Option<(ValueView, Seq<char>)> {
    let colon = s.index_of_first(':');
    match colon {
        None => None,
        Some(k) => {
            let n = digits_value(s.take(k));
            let contents = s.skip(k + 1);
            if !is_number(s.take(k)) || n > usize::MAX {
                None
            } else {
                match chars_in_bytes(contents, n) {
                    Some(m) => Some(
                        (ValueView::Str(contents.take(m as int)), contents.skip(m as int)),
                    ),
                    None => None,
                }
            }
        },
    }
}

/// The integer whose number `s` begins with.
pub open spec fn decoded_integer(s: Seq<char>) -> Option<(ValueView, Seq<char>)> {
    match s.index_of_first('e') {
        None => None,
        Some(k) => match integer(s.take(k)) {
            Some(n) => Some((ValueView::Int(n), s.skip(k + 1))),
            None => None,
        },
    }
}

/// The elements of a list at the beginning of `s`, up to the end of the list.
pub open spec fn decoded_items(s: Seq<char>) -> Option<(Seq<ValueView>, Seq<char>)>
    decreases s.len(), 1nat,
{
    if s.len() == 0 {
        None
    } else if s[0] == 'e' {
        Some((seq![], s.skip(1)))
    } else {
        match decoded(s) {
            Some((item, rest)) if rest.len() < s.len() => match decoded_items(rest) {
                Some((items, rest)) => Some((seq![item] + items, rest)),
                None => None,
            },
            _ => None,
        }
    }
}

/// The entries of a dictionary at the beginning of `s`, up to the end of the
/// dictionary.
pub open spec fn decoded_entries(s: Seq<char>) -> Option<
    (Seq<(Seq<char>, ValueView)>, Seq<char>),
>
    decreases s.len(), 1nat,
{
    if s.len() == 0 {
        None
    } else if s[0] == 'e' {
        Some((seq![], s.skip(1)))
    } else {
        match decoded(s) {
            Some((ValueView::Str(key), rest)) if rest.len() < s.len() => match decoded(rest) {
                Some((value, rest)) if rest.len() < s.len() => match decoded_entries(rest) {
                    Some((entries, rest)) => Some((seq![(key, value)] + entries, rest)),
                    None => None,
                },
                _ => None,
            },
            _ => None,
        }
    }
}

/// How many bytes a character takes in UTF-8.
fn utf8_len(c: char) -> (n: usize)
    ensures
        n == char_bytes(c),
        1 <= n <= 4,
{
    let code: u32 = c as u32;
    if code < 0x80 {
        1
    } else if code < 0x800 {
        2
    } else if code < 0x1_0000 {
        3
    } else {
        4
    }
}

/// The index of the first `c` from `from` on.
fn find(chars: &Vec<char>, from: usize, c: char) -> (r: Option<usize>)
    requires
        from <= chars@.len(),
    ensures
        match chars@.skip(from as int).index_of_first(c) {
            Some(k) => r matches Some(i) && i == from + k && 0 <= k < chars@.len() - from,
            None => r is None,
        },
{
    let ghost s = chars@.skip(from as int);
    proof {
        s.index_of_first_ensures(c);
    }
    let mut i: usize = from;
    while i < chars.len()
        invariant
            from <= i <= chars.len(),
            s == chars@.skip(from as int),
            forall|j: int| 0 <= j < i - from ==> s[j] != c,
        decreases chars.len() - i,
    {
        if chars[i] == c {
            assert(s[i - from] == c);
            assert(s.contains(c));
            proof {
                s.index_of_first_ensures(c);
            }
            return Some(i);
        }
        assert(s[i - from] != c);
        i = i + 1;
    }
    None
}

/// A text that goes on spells a number that is no smaller.
proof fn lemma_digits_value_grows(s: Seq<char>, n: int)
    requires
        0 <= n <= s.len(),
    ensures
        digits_value(s.take(n)) <= digits_value(s),
    decreases s.len(),
{
    if n == s.len() {
        assert(s.take(n) =~= s);
    } else {
        assert(s.drop_last().take(n) =~= s.take(n));
        lemma_digits_value_grows(s.drop_last(), n);
    }
}

/// The number that the characters from `from` up to `to` spell, if they are
/// digits and it fits.
fn parse_number(chars: &Vec<char>, from: usize, to: usize) -> (r: Option<u64>)
    requires
        from <= to <= chars@.len(),
    ensures
        ({
            let s = chars@.subrange(from as int, to as int);
            match r {
                Some(n) => is_number(s) && n == digits_value(s),
                None => !is_number(s) || digits_value(s) > u64::MAX,
            }
        }),
{
    let ghost s = chars@.subrange(from as int, to as int);
    if from == to {
        return None;
    }
    let mut n: u64 = 0;
    let mut i: usize = from;
    while i < to
        invariant
            from <= i <= to <= chars@.len(),
            s == chars@.subrange(from as int, to as int),
            n == digits_value(s.take(i - from)),
            forall|j: int| 0 <= j < i - from ==> is_digit(#[trigger] s[j]),
        decreases to - i,
    {
        let c: char = chars[i];
        assert(s[i - from] == c);
        if !('0' <= c && c <= '9') {
            return None;
        }
        let d: u64 = (c as u32 - 48) as u64;
        proof {
            assert(s.take(i - from + 1).drop_last() =~= s.take(i - from));
            assert(digits_value(s.take(i - from + 1)) == 10 * n + d);
            lemma_digits_value_grows(s, i - from + 1);
        }
        match n.checked_mul(10) {
            None => {
                return None;
            },
            Some(tens) => match tens.checked_add(d) {
                None => {
                    return None;
                },
                Some(sum) => {
                    n = sum;
                },
            },
        }
        i = i + 1;
    }
    assert(s.take(i - from) =~= s);
    Some(n)
}

/// The integer that the characters from `from` up to `to` spell.
fn parse_integer(chars: &Vec<char>, from: usize, to: usize) -> (r: Option<i64>)
    requires
        from <= to <= chars@.len(),
    ensures
        match integer(chars@.subrange(from as int, to as int)) {
            Some(n) => r matches Some(m) && m == n,
            None => r is None,
        },
{
    let ghost s = chars@.subrange(from as int, to as int);
    let signed = from < to && (chars[from] == '-' || chars[from] == '+');
    let negative = signed && chars[from] == '-';
    let start = if signed {
        from + 1
    } else {
        from
    };
    assert(chars@.subrange(start as int, to as int) =~= if signed {
        s.skip(1)
    } else {
        s
    });
    match parse_number(chars, start, to) {
        None => None,
        Some(n) => {
            if negative {
                if n < 0x8000_0000_0000_0000 {
                    Some(-(n as i64))
                } else if n == 0x8000_0000_0000_0000 {
                    Some(i64::MIN)
                } else {
                    None
                }
            } else if n <= 0x7fff_ffff_ffff_ffff {
                Some(n as i64)
            } else {
                None
            }
        },
    }
}

/// Where the `n` bytes of characters from `from` on end.
fn skip_bytes(chars: &Vec<char>, from: usize, n: usize) -> (r: Option<usize>)
    requires
        from <= chars@.len(),
    ensures
        match chars_in_bytes(chars@.skip(from as int), n as nat) {
            Some(m) => r matches Some(end) && end == from + m && end <= chars@.len(),
            None => r is None,
        },
{
    let mut i: usize = from;
    let mut left: usize = n;
    while left > 0
        invariant
            from <= i <= chars@.len(),
            match chars_in_bytes(chars@.skip(i as int), left as nat) {
                Some(m) => chars_in_bytes(chars@.skip(from as int), n as nat) == Some(
                    (m + i - from) as nat,
                ),
                None => chars_in_bytes(chars@.skip(from as int), n as nat) is None,
            },
        decreases left,
    {
        if i >= chars.len() {
            return None;
        }
        let w = utf8_len(chars[i]);
        assert(chars@.skip(i as int)[0] == chars@[i as int]);
        if w > left {
            return None;
        }
        assert(chars@.skip(i as int).skip(1) =~= chars@.skip(i + 1));
        left = left - w;
        i = i + 1;
    }
    Some(i)
}

/// Whether no key occurs twice.
pub open spec fn distinct_keys(entries: Seq<(Seq<char>, ValueView)>) -> bool {
    forall|i: int, j: int|
        0 <= i < j < entries.len() ==> (#[trigger] entries[i]).0 != (#[trigger] entries[j]).0
}

/// What is in a dictionary, entry by entry, where no key occurs twice.
proof fn lemma_dict_of(entries: Seq<(Seq<char>, ValueView)>)
    requires
        distinct_keys(entries),
    ensures
        forall|i: int|
            0 <= i < entries.len() ==> dict_of(entries).dom().contains((#[trigger] entries[i]).0)
                && dict_of(entries)[entries[i].0] == entries[i].1,
        forall|k: Seq<char>| #[trigger]
            dict_of(entries).dom().contains(k) ==> exists|i: int|
                0 <= i < entries.len() && (#[trigger] entries[i]).0 == k,
    decreases entries.len(),
{
    if entries.len() > 0 {
        let before = entries.drop_last();
        lemma_dict_of(before);
        assert forall|k: Seq<char>| #[trigger] dict_of(entries).dom().contains(k) implies exists|
            i: int,
        |
            0 <= i < entries.len() && (#[trigger] entries[i]).0 == k by {
            if dict_of(before).dom().contains(k) {
                let i = choose|i: int| 0 <= i < before.len() && (#[trigger] before[i]).0 == k;
                assert(entries[i].0 == k);
            } else {
                assert(entries[entries.len() - 1].0 == k);
            }
        }
        assert forall|i: int| 0 <= i < entries.len() implies dict_of(entries).dom().contains(
            (#[trigger] entries[i]).0,
        ) && dict_of(entries)[entries[i].0] == entries[i].1 by {
            if i < before.len() {
                assert(before[i] == entries[i]);
            }
        }
    }
}

/// Sets a key of a dictionary, in place of what it had before.
fn insert(entries: &mut Vec<(String, Value)>, key: String, value: Value)
    requires
        distinct_keys(entry_models(old(entries)@)),
        forall|i: int| 0 <= i < old(entries)@.len() ==> (#[trigger] old(entries)@[i]).1.wf(),
        value.wf(),
    ensures
        distinct_keys(entry_models(final(entries)@)),
        forall|i: int| 0 <= i < final(entries)@.len() ==> (#[trigger] final(entries)@[i]).1.wf(),
        dict_of(entry_models(final(entries)@)) == dict_of(entry_models(old(entries)@)).insert(
            key@,
            value.model(),
        ),
{
    let ghost before = entry_models(entries@);
    proof {
        lemma_dict_of(before);
    }
    let mut i: usize = 0;
    while i < entries.len()
        invariant
            i <= entries.len(),
            *entries == *old(entries),
            before == entry_models(entries@),
            forall|j: int| 0 <= j < i ==> (#[trigger] before[j]).0 != key@,
        ensures
            *entries == *old(entries),
            i <= entries.len(),
            forall|j: int| 0 <= j < i ==> (#[trigger] before[j]).0 != key@,
            i < entries.len() ==> before[i as int].0 == key@,
        decreases entries.len() - i,
    {
        if entries[i].0 == key {
            break;
        }
        assert(before[i as int].0 != key@);
        i = i + 1;
    }
    let ghost k = key@;
    let ghost m = value.model();
    if i < entries.len() {
        entries.set(i, (key, value));
        let ghost after = entry_models(entries@);
        proof {
            assert(after =~= before.update(i as int, (k, m)));
            lemma_dict_of(after);
            assert forall|x: Seq<char>|
                dict_of(after).dom().contains(x) <==> dict_of(before).insert(k, m).dom().contains(
                    x,
                ) by {
                if dict_of(after).dom().contains(x) {
                    let j = choose|j: int| 0 <= j < after.len() && (#[trigger] after[j]).0 == x;
                    assert(before[j].0 == x);
                } else if dict_of(before).dom().contains(x) {
                    let j = choose|j: int| 0 <= j < before.len() && (#[trigger] before[j]).0 == x;
                    assert(after[j].0 == x);
                } else if x == k {
                    assert(after[i as int].0 == x);
                }
            }
            assert forall|x: Seq<char>| dict_of(after).dom().contains(x) implies dict_of(after)[x]
                == dict_of(before).insert(k, m)[x] by {
                let j = choose|j: int| 0 <= j < after.len() && (#[trigger] after[j]).0 == x;
                assert(before[j].0 == x);
            }
            assert(dict_of(after) =~= dict_of(before).insert(k, m));
        }
    } else {
        entries.push((key, value));
        let ghost after = entry_models(entries@);
        proof {
            assert(after.drop_last() =~= before);
            assert(after.last() == (k, m));
            assert forall|a: int, b: int| 0 <= a < b < after.len() implies (#[trigger] after[a]).0
                != (#[trigger] after[b]).0 by {
                assert(after[a] == before[a]);
                if b < before.len() {
                    assert(after[b] == before[b]);
                }
            }
        }
    }
}

/// The value that the characters from `pos` on begin with, and where it ends.
fn decode_at(chars: &Vec<char>, pos: usize) -> (r: Option<(Value, usize)>)
    requires
        pos <= chars@.len(),
    ensures
        match decoded(chars@.skip(pos as int)) {
            Some((value, rest)) => {
                &&& r matches Some((v, end))
                &&& v.wf()
                &&& v.model() == value
                &&& pos < end <= chars@.len()
                &&& rest == chars@.skip(end as int)
            },
            None => r is None,
        },
    decreases chars@.len() - pos, 0nat,
{
    let ghost s = chars@.skip(pos as int);
    if pos >= chars.len() {
        return None;
    }
    let c: char = chars[pos];
    assert(s[0] == c);
    if '0' <= c && c <= '9' {
        match find(chars, pos, ':') {
            None => None,
            Some(colon) => {
                assert(s.take(colon - pos) =~= chars@.subrange(pos as int, colon as int));
                assert(s.skip(colon - pos + 1) =~= chars@.skip(colon + 1));
                match parse_number(chars, pos, colon) {
                    None => None,
                    Some(n) => {
                        if n > usize::MAX as u64 {
                            return None;
                        }
                        match skip_bytes(chars, colon + 1, n as usize) {
                            None => None,
                            Some(end) => {
                                let text = string_of(chars, colon + 1, end);
                                let ghost contents = chars@.skip(colon + 1);
                                assert(contents.take(end - colon - 1) =~= text@);
                                assert(contents.skip(end - colon - 1) =~= chars@.skip(end as int));
                                Some((Value::Str(text), end))
                            },
                        }
                    },
                }
            },
        }
    } else if c == 'i' {
        assert(s.skip(1) =~= chars@.skip(pos + 1));
        match find(chars, pos + 1, 'e') {
            None => None,
            Some(end) => {
                assert(s.skip(1).take(end - pos - 1) =~= chars@.subrange(pos + 1, end as int));
                assert(s.skip(1).skip(end - pos) =~= chars@.skip(end + 1));
                match parse_integer(chars, pos + 1, end) {
                    None => None,
                    Some(n) => Some((Value::Int(n), end + 1)),
                }
            },
        }
    } else if c == 'l' {
        assert(s.skip(1) =~= chars@.skip(pos + 1));
        match decode_items(chars, pos + 1) {
            None => None,
            Some((items, end)) => {
                Some((Value::List(items), end))
            },
        }
    } else if c == 'd' {
        assert(s.skip(1) =~= chars@.skip(pos + 1));
        match decode_entries(chars, pos + 1) {
            None => None,
            Some((entries, end)) => {
                Some((Value::Dict(entries), end))
            },
        }
    } else {
        None
    }
}

/// The elements of a list from `pos` on, and where the list ends.
fn decode_items(chars: &Vec<char>, pos: usize) -> (r: Option<(Vec<Value>, usize)>)
    requires
        pos <= chars@.len(),
    ensures
        match decoded_items(chars@.skip(pos as int)) {
            Some((items, rest)) => {
                &&& r matches Some((v, end))
                &&& forall|i: int| 0 <= i < v@.len() ==> (#[trigger] v@[i]).wf()
                &&& models(v@) == items
                &&& pos < end <= chars@.len()
                &&& rest == chars@.skip(end as int)
            },
            None => r is None,
        },
    decreases chars@.len() - pos, 1nat,
{
    let mut list: Vec<Value> = Vec::new();
    let mut at: usize = pos;
    let ghost all = decoded_items(chars@.skip(pos as int));
    assert(models(list@) =~= seq![]);
    proof {
        if let Some((items, rest)) = decoded_items(chars@.skip(at as int)) {
            assert(models(list@) + items =~= items);
        }
    }
    while at < chars.len() && chars[at] != 'e'
        invariant
            pos <= at <= chars@.len(),
            all == decoded_items(chars@.skip(pos as int)),
            forall|i: int| 0 <= i < list@.len() ==> (#[trigger] list@[i]).wf(),
            match decoded_items(chars@.skip(at as int)) {
                Some((items, rest)) => all == Some((models(list@) + items, rest)),
                None => all is None,
            },
        decreases chars@.len() - at,
    {
        let ghost s = chars@.skip(at as int);
        assert(s[0] == chars@[at as int]);
        match decode_at(chars, at) {
            None => {
                return None;
            },
            Some((value, end)) => {
                let ghost before = models(list@);
                let ghost m = value.model();
                list.push(value);
                proof {
                    assert(models(list@) =~= before.push(m));
                    if let Some((items, rest)) = decoded_items(chars@.skip(end as int)) {
                        assert(before + (seq![m] + items) =~= models(list@) + items);
                    }
                }
                at = end;
            },
        }
    }
    if at >= chars.len() {
        return None;
    }
    assert(chars@.skip(at as int)[0] == 'e');
    assert(chars@.skip(at as int).skip(1) =~= chars@.skip(at + 1));
    assert(models(list@) + seq![] =~= models(list@));
    Some((list, at + 1))
}

/// The entries of a dictionary from `pos` on, and where the dictionary ends.
fn decode_entries(chars: &Vec<char>, pos: usize) -> (r: Option<(Vec<(String, Value)>, usize)>)
    requires
        pos <= chars@.len(),
    ensures
        match decoded_entries(chars@.skip(pos as int)) {
            Some((entries, rest)) => {
                &&& r matches Some((v, end))
                &&& dict_of(entry_models(v@)) == dict_of(entries)
                &&& distinct_keys(entry_models(v@))
                &&& forall|i: int| 0 <= i < v@.len() ==> (#[trigger] v@[i]).1.wf()
                &&& pos < end <= chars@.len()
                &&& rest == chars@.skip(end as int)
            },
            None => r is None,
        },
    decreases chars@.len() - pos, 1nat,
{
    let mut dict: Vec<(String, Value)> = Vec::new();
    let mut at: usize = pos;
    let ghost all = decoded_entries(chars@.skip(pos as int));
    let ghost mut read: Seq<(Seq<char>, ValueView)> = seq![];
    assert(entry_models(dict@) =~= seq![]);
    proof {
        if let Some((entries, rest)) = decoded_entries(chars@.skip(at as int)) {
            assert(read + entries =~= entries);
        }
    }
    while at < chars.len() && chars[at] != 'e'
        invariant
            pos <= at <= chars@.len(),
            all == decoded_entries(chars@.skip(pos as int)),
            match decoded_entries(chars@.skip(at as int)) {
                Some((entries, rest)) => all == Some((read + entries, rest)),
                None => all is None,
            },
            dict_of(entry_models(dict@)) == dict_of(read),
            distinct_keys(entry_models(dict@)),
            forall|i: int| 0 <= i < dict@.len() ==> (#[trigger] dict@[i]).1.wf(),
        decreases chars@.len() - at,
    {
        let ghost s = chars@.skip(at as int);
        assert(s[0] == chars@[at as int]);
        match decode_at(chars, at) {
            Some((Value::Str(key), middle)) => match decode_at(chars, middle) {
                None => {
                    return None;
                },
                Some((value, end)) => {
                    let ghost entry = (key@, value.model());
                    let ghost before = read;
                    insert(&mut dict, key, value);
                    proof {
                        read = before.push(entry);
                        assert(read.drop_last() =~= before);
                        if let Some((entries, rest)) = decoded_entries(chars@.skip(end as int)) {
                            assert(before + (seq![entry] + entries) =~= read + entries);
                        }
                    }
                    at = end;
                },
            },
            _ => {
                return None;
            },
        }
    }
    if at >= chars.len() {
        return None;
    }
    assert(chars@.skip(at as int)[0] == 'e');
    assert(chars@.skip(at as int).skip(1) =~= chars@.skip(at + 1));
    assert(read + seq![] =~= read);
    Some((dict, at + 1))
}

/// The value that a text begins with, and what follows it, or nothing if the text
/// begins with no value in bencode.
pub fn try_decode_bencoded_value(encoded_value: &str) -> (r: Option<(Value, &str)>)
    ensures
        match decoded(encoded_value@) {
            Some((value, rest)) => r matches Some((v, t)) && v.wf() && v.model() == value && t@
                == rest,
            None => r is None,
        },
{
    let chars = chars_of(encoded_value);
    assert(chars@.skip(0) =~= encoded_value@);
    match decode_at(&chars, 0) {
        None => None,
        Some((value, end)) => {
            let rest = encoded_value.substring_char(end, chars.len());
            assert(rest@ =~= chars@.skip(end as int));
            Some((value, rest))
        },
    }
}

/// The value that a text begins with, and what follows it.
pub fn decode_bencoded_value(encoded_value: &str) -> (r: (Value, &str))
    requires
        decoded(encoded_value@) is Some,
    ensures
        r.0.wf(),
        decoded(encoded_value@) == Some((r.0.model(), r.1@)),
{
    try_decode_bencoded_value(encoded_value).unwrap()
}

/// Whether `e` is one way of writing `v` in bencode: whatever follows `e`,
/// decoding gives `v` and leaves what follows.
pub open spec fn encodes(e: Seq<char>, v: ValueView) -> bool {
    forall|rest: Seq<char>| #[trigger] decoded(e + rest) == Some((v, rest))
}

/// A text in bencode: `<length>:<contents>`, the length counted in bytes.
pub open spec fn string_text(t: Seq<char>) -> Seq<char> {
    decimal(encode_utf8(t).len()).push(':') + t
}

/// An integer in bencode: `i<number>e`.
pub open spec fn integer_text(n: int) -> Seq<char> {
    if n < 0 {
        seq!['i', '-'] + decimal((-n) as nat).push('e')
    } else {
        seq!['i'] + decimal(n as nat).push('e')
    }
}

/// A list in bencode, its elements being written already: `l<elements>e`.
pub open spec fn list_text(items: Seq<Seq<char>>) -> Seq<char> {
    seq!['l'] + items.flatten().push('e')
}

/// A dictionary in bencode, its values being written already:
/// `d<key1><value1>...<keyN><valueN>e`.
pub open spec fn dict_text(entries: Seq<(Seq<char>, Seq<char>)>) -> Seq<char> {
    seq!['d'] + entries_text(entries).push('e')
}

/// The keys and values of a dictionary in bencode.
pub open spec fn entries_text(entries: Seq<(Seq<char>, Seq<char>)>) -> Seq<char>
    decreases entries.len(),
{
    if entries.len() == 0 {
        seq![]
    } else {
        string_text(entries[0].0) + entries[0].1 + entries_text(entries.skip(1))
    }
}

/// The digits of a number are a number, and the same one.
proof fn lemma_decimal(n: nat)
    ensures
        is_number(decimal(n)),
        digits_value(decimal(n)) == n,
    decreases n,
{
    let s = decimal(n);
    let d = digit(n % 10);
    assert(is_digit(d));
    assert(d as nat - '0' as nat == n % 10);
    assert(s.last() == d);
    if n < 10 {
        assert(s.drop_last() =~= seq![]);
        assert(digits_value(s.drop_last()) == 0);
    } else {
        lemma_decimal(n / 10);
        assert(s.drop_last() =~= decimal(n / 10));
    }
}

/// The first index of `c` in a sequence is the one before which it does not
/// occur.
proof fn lemma_first_index(s: Seq<char>, c: char, k: int)
    requires
        0 <= k < s.len(),
        s[k] == c,
        forall|i: int| 0 <= i < k ==> s[i] != c,
    ensures
        s.index_of_first(c) == Some(k),
{
    s.index_of_first_ensures(c);
    assert(s.contains(c));
    let j = s.index_of_first(c)->0;
    if j < k {
        assert(s[j] != c);
    }
}

/// The bytes of a text end where the text ends.
proof fn lemma_chars_in_bytes(t: Seq<char>, rest: Seq<char>)
    ensures
        chars_in_bytes(t + rest, encode_utf8(t).len()) == Some(t.len()),
    decreases t.len(),
{
    if t.len() > 0 {
        let tail = t.drop_first();
        lemma_chars_in_bytes(tail, rest);
        assert((t + rest).skip(1) =~= tail + rest);
        assert((t + rest)[0] == t[0]);
        assert(encode_utf8(t).len() == char_bytes(t[0]) + encode_utf8(tail).len());
    }
}

/// A text is read back from `<length>:<contents>`.
pub proof fn law_string_round_trip(t: Seq<char>)
    requires
        encode_utf8(t).len() <= usize::MAX,
    ensures
        encodes(string_text(t), ValueView::Str(t)),
{
    let digits = decimal(encode_utf8(t).len());
    let k = digits.len() as int;
    lemma_decimal(encode_utf8(t).len());
    assert forall|rest: Seq<char>| #[trigger]
        decoded(string_text(t) + rest) == Some((ValueView::Str(t), rest)) by {
        let s = string_text(t) + rest;
        assert(s[0] == digits[0] && is_digit(digits[0]));
        assert forall|i: int| 0 <= i < k implies s[i] != ':' by {
            assert(s[i] == digits[i] && is_digit(digits[i]));
        }
        lemma_first_index(s, ':', k);
        assert(s.take(k) =~= digits);
        assert(s.skip(k + 1) =~= t + rest);
        lemma_chars_in_bytes(t, rest);
        assert((t + rest).take(t.len() as int) =~= t);
        assert((t + rest).skip(t.len() as int) =~= rest);
    }
}

/// An integer of 64 bits is read back from `i<number>e`.
pub proof fn law_integer_round_trip(n: i64)
    ensures
        encodes(integer_text(n as int), ValueView::Int(n as int)),
{
    let m: nat = if n < 0 {
        (-n) as nat
    } else {
        n as nat
    };
    lemma_decimal(m);
    let digits = decimal(m);
    let number = if n < 0 {
        seq!['-'] + digits
    } else {
        digits
    };
    assert forall|i: int| 0 <= i < number.len() implies number[i] != 'e' && number[i] != '+' by {
        if n < 0 {
            if i > 0 {
                assert(number[i] == digits[i - 1] && is_digit(digits[i - 1]));
            }
        } else {
            assert(is_digit(digits[i]));
        }
    }
    if n < 0 {
        assert(number.skip(1) =~= digits);
    } else {
        assert(is_digit(digits[0]));
    }
    assert(integer(number) == Some(n as int));
    assert forall|rest: Seq<char>| #[trigger]
        decoded(integer_text(n as int) + rest) == Some((ValueView::Int(n as int), rest)) by {
        let s = integer_text(n as int) + rest;
        let k = number.len() as int;
        assert(s.skip(1) =~= number.push('e') + rest);
        lemma_first_index(s.skip(1), 'e', k);
        assert(s.skip(1).take(k) =~= number);
        assert(s.skip(1).skip(k + 1) =~= rest);
    }
}

/// What encodes a value is not empty and does not look like the end of a list.
proof fn lemma_encoding_starts(e: Seq<char>, v: ValueView)
    requires
        encodes(e, v),
    ensures
        e.len() > 0,
        e[0] != 'e',
{
    let nothing: Seq<char> = seq![];
    assert(decoded(e + nothing) is Some);
    assert(e + nothing =~= e);
}

/// A list is read back from its elements in bencode.
pub proof fn law_list_round_trip(items: Seq<Seq<char>>, values: Seq<ValueView>)
    requires
        items.len() == values.len(),
        forall|i: int| 0 <= i < items.len() ==> encodes(#[trigger] items[i], values[i]),
    ensures
        encodes(list_text(items), ValueView::List(values)),
{
    assert forall|rest: Seq<char>| #[trigger]
        decoded(list_text(items) + rest) == Some((ValueView::List(values), rest)) by {
        let s = list_text(items) + rest;
        assert(s.skip(1) =~= items.flatten() + (seq!['e'] + rest));
        lemma_items(items, values, rest);
    }
}

/// The elements of a list are read back one by one.
proof fn lemma_items(items: Seq<Seq<char>>, values: Seq<ValueView>, rest: Seq<char>)
    requires
        items.len() == values.len(),
        forall|i: int| 0 <= i < items.len() ==> encodes(#[trigger] items[i], values[i]),
    ensures
        decoded_items(items.flatten() + (seq!['e'] + rest)) == Some((values, rest)),
    decreases items.len(),
{
    let s = items.flatten() + (seq!['e'] + rest);
    if items.len() == 0 {
        assert(s.skip(1) =~= rest);
        assert(values =~= seq![]);
    } else {
        let tail = items.drop_first();
        let after = tail.flatten() + (seq!['e'] + rest);
        lemma_encoding_starts(items[0], values[0]);
        assert(s =~= items[0] + after);
        assert forall|i: int| 0 <= i < tail.len() implies encodes(
            #[trigger] tail[i],
            values.drop_first()[i],
        ) by {
            assert(encodes(items[i + 1], values[i + 1]));
        }
        lemma_items(tail, values.drop_first(), rest);
        assert(decoded(s) == Some((values[0], after)));
        assert(seq![values[0]] + values.drop_first() =~= values);
    }
}

/// A dictionary is read back from its keys and values in bencode. Of two entries
/// with the same key the later one counts.
pub proof fn law_dict_round_trip(
    entries: Seq<(Seq<char>, Seq<char>)>,
    values: Seq<ValueView>,
)
    requires
        entries.len() == values.len(),
        forall|i: int|
            0 <= i < entries.len() ==> encodes((#[trigger] entries[i]).1, values[i]) && encode_utf8(
                entries[i].0,
            ).len() <= usize::MAX,
    ensures
        encodes(
            dict_text(entries),
            ValueView::Dict(
                dict_of(Seq::new(entries.len(), |i: int| (entries[i].0, values[i]))),
            ),
        ),
{
    let read = Seq::new(entries.len(), |i: int| (entries[i].0, values[i]));
    assert forall|rest: Seq<char>| #[trigger]
        decoded(dict_text(entries) + rest) == Some((ValueView::Dict(dict_of(read)), rest)) by {
        let s = dict_text(entries) + rest;
        assert(s.skip(1) =~= entries_text(entries) + (seq!['e'] + rest));
        lemma_entries(entries, values, rest);
    }
}

/// The entries of a dictionary are read back one by one.
proof fn lemma_entries(
    entries: Seq<(Seq<char>, Seq<char>)>,
    values: Seq<ValueView>,
    rest: Seq<char>,
)
    requires
        entries.len() == values.len(),
        forall|i: int|
            0 <= i < entries.len() ==> encodes((#[trigger] entries[i]).1, values[i]) && encode_utf8(
                entries[i].0,
            ).len() <= usize::MAX,
    ensures
        decoded_entries(entries_text(entries) + (seq!['e'] + rest)) == Some(
            (Seq::new(entries.len(), |i: int| (entries[i].0, values[i])), rest),
        ),
    decreases entries.len(),
{
    let s = entries_text(entries) + (seq!['e'] + rest);
    let read = Seq::new(entries.len(), |i: int| (entries[i].0, values[i]));
    if entries.len() == 0 {
        assert(s.skip(1) =~= rest);
        assert(read =~= seq![]);
    } else {
        let tail = entries.skip(1);
        let tail_values = values.skip(1);
        let after = entries_text(tail) + (seq!['e'] + rest);
        let key = ValueView::Str(entries[0].0);
        law_string_round_trip(entries[0].0);
        lemma_encoding_starts(string_text(entries[0].0), key);
        lemma_encoding_starts(entries[0].1, values[0]);
        assert(s =~= string_text(entries[0].0) + (entries[0].1 + after));
        assert forall|i: int| 0 <= i < tail.len() implies encodes(
            (#[trigger] tail[i]).1,
            tail_values[i],
        ) && encode_utf8(tail[i].0).len() <= usize::MAX by {
            assert(encodes(entries[i + 1].1, values[i + 1]));
        }
        lemma_entries(tail, tail_values, rest);
        assert(decoded(s) == Some((key, entries[0].1 + after)));
        assert(decoded(entries[0].1 + after) == Some((values[0], after)));
        assert(seq![(entries[0].0, values[0])] + Seq::new(
            tail.len(),
            |i: int| (tail[i].0, tail_values[i]),
        ) =~= read);
    }
}

/// What decoding leaves is the end of the text, and something was read.
pub proof fn law_decoded_leaves_the_end(s: Seq<char>)
    requires
        decoded(s) is Some,
    ensures
        ({
            let rest = (decoded(s)->0).1;
            rest.len() < s.len() && rest == s.skip(s.len() - rest.len())
        }),
    decreases s.len(), 0nat,
{
    if is_digit(s[0]) {
        s.index_of_first_ensures(':');
        let k = s.index_of_first(':')->0;
        let contents = s.skip(k + 1);
        let n = digits_value(s.take(k));
        lemma_chars_in_bytes_bounded(contents, n);
        let m = chars_in_bytes(contents, n)->0;
        assert(contents.skip(m as int) =~= s.skip(k + 1 + m));
    } else if s[0] == 'i' {
        let t = s.skip(1);
        t.index_of_first_ensures('e');
        let k = t.index_of_first('e')->0;
        assert(t.skip(k + 1) =~= s.skip(k + 2));
    } else if s[0] == 'l' {
        lemma_items_leave_the_end(s.skip(1));
        let rest = (decoded(s)->0).1;
        assert(s.skip(1).skip(s.len() - 1 - rest.len()) =~= s.skip(s.len() - rest.len()));
    } else {
        lemma_entries_leave_the_end(s.skip(1));
        let rest = (decoded(s)->0).1;
        assert(s.skip(1).skip(s.len() - 1 - rest.len()) =~= s.skip(s.len() - rest.len()));
    }
}

/// No more characters take some bytes than there are.
proof fn lemma_chars_in_bytes_bounded(s: Seq<char>, n: nat)
    ensures
        chars_in_bytes(s, n) matches Some(m) ==> m <= s.len(),
    decreases s.len(),
{
    if n > 0 && s.len() > 0 && char_bytes(s[0]) <= n {
        lemma_chars_in_bytes_bounded(s.skip(1), (n - char_bytes(s[0])) as nat);
    }
}

/// What follows a list is the end of the text.
proof fn lemma_items_leave_the_end(s: Seq<char>)
    requires
        decoded_items(s) is Some,
    ensures
        ({
            let rest = (decoded_items(s)->0).1;
            rest.len() < s.len() && rest == s.skip(s.len() - rest.len())
        }),
    decreases s.len(), 1nat,
{
    if s[0] != 'e' {
        law_decoded_leaves_the_end(s);
        let after = (decoded(s)->0).1;
        lemma_items_leave_the_end(after);
        let rest = (decoded_items(s)->0).1;
        assert(after.skip(after.len() - rest.len()) =~= s.skip(s.len() - rest.len()));
    }
}

/// What follows a dictionary is the end of the text.
proof fn lemma_entries_leave_the_end(s: Seq<char>)
    requires
        decoded_entries(s) is Some,
    ensures
        ({
            let rest = (decoded_entries(s)->0).1;
            rest.len() < s.len() && rest == s.skip(s.len() - rest.len())
        }),
    decreases s.len(), 1nat,
{
    if s[0] != 'e' {
        law_decoded_leaves_the_end(s);
        let middle = (decoded(s)->0).1;
        law_decoded_leaves_the_end(middle);
        let after = (decoded(middle)->0).1;
        lemma_entries_leave_the_end(after);
        let rest = (decoded_entries(s)->0).1;
        assert(middle.skip(middle.len() - after.len()) =~= s.skip(s.len() - after.len()));
        assert(after.skip(after.len() - rest.len()) =~= s.skip(s.len() - rest.len()));
    }
}

/// Texts are encoded in UTF-8 one after the other.
pub(crate) proof fn lemma_encode_utf8_of_sum(a: Seq<char>, b: Seq<char>)
    ensures
        encode_utf8(a + b) == encode_utf8(a) + encode_utf8(b),
    decreases a.len(),
{
    if a.len() == 0 {
        assert(a + b =~= b);
        assert(encode_utf8(a) + encode_utf8(b) =~= encode_utf8(b));
    } else {
        lemma_encode_utf8_of_sum(a.drop_first(), b);
        assert((a + b).drop_first() =~= a.drop_first() + b);
        assert((a + b)[0] == a[0]);
        assert(encode_utf8(a + b) =~= encode_utf8(a) + encode_utf8(b));
    }
}

/// A character below 128 is encoded in UTF-8 as itself.
pub(crate) proof fn lemma_encode_utf8_of_ascii(c: char)
    requires
        c <= '\u{7f}',
    ensures
        encode_utf8(seq![c]) == seq![c as u8],
{
    let s = seq![c];
    assert(is_ascii_chars(s));
    is_ascii_chars_encode_utf8(s);
    assert(s[0] == c);
    assert(encode_utf8(s) =~= seq![c as u8]);
}

/// What is written in bencode as bytes is what is read from bencode as text.
pub proof fn law_written_is_read(t: Seq<char>, n: nat)
    ensures
        bencoded_str(t) == encode_utf8(string_text(t)),
        bencoded_uint(n) == encode_utf8(integer_text(n as int)),
{
    let length = decimal(encode_utf8(t).len());
    lemma_encode_utf8_of_sum(length.push(':'), t);
    lemma_encode_utf8_of_sum(length, seq![':']);
    lemma_encode_utf8_of_ascii(':');
    assert(length.push(':') =~= length + seq![':']);
    assert(bencoded_str(t) =~= encode_utf8(string_text(t)));
    let number = decimal(n);
    lemma_encode_utf8_of_sum(seq!['i'], number.push('e'));
    lemma_encode_utf8_of_sum(number, seq!['e']);
    lemma_encode_utf8_of_ascii('i');
    lemma_encode_utf8_of_ascii('e');
    assert(number.push('e') =~= number + seq!['e']);
    assert(bencoded_uint(n) =~= encode_utf8(integer_text(n as int)));
}

/// A dictionary with one entry, as bytes and as text.
pub(crate) proof fn lemma_dict_with_one_entry(key: Seq<char>, value: Seq<char>)
    ensures
        encode_utf8(dict_text(seq![(key, value)])) == seq!['d' as u8] + bencoded_str(key)
            + encode_utf8(value) + seq!['e' as u8],
{
    let entries = seq![(key, value)];
    reveal_with_fuel(entries_text, 2);
    assert(entries.skip(1) =~= seq![]);
    let text = string_text(key) + value;
    assert(entries_text(entries) =~= text);
    law_written_is_read(key, 0);
    lemma_encode_utf8_of_sum(seq!['d'], text.push('e'));
    lemma_encode_utf8_of_sum(text, seq!['e']);
    lemma_encode_utf8_of_sum(string_text(key), value);
    lemma_encode_utf8_of_ascii('d');
    lemma_encode_utf8_of_ascii('e');
    assert(text.push('e') =~= text + seq!['e']);
    assert(encode_utf8(dict_text(entries)) =~= seq!['d' as u8] + bencoded_str(key) + encode_utf8(
        value,
    ) + seq!['e' as u8]);
}

/// What bytes in bencode say, kept as bytes.
#[verifier::ext_equal]
pub enum Term {
    Bytes(Seq<u8>),
    Number(nat),
    /// Keys and their values, in the order in which they stand.
    Dictionary(Seq<(Seq<u8>, Term)>),
}

/// The number that decimal digits spell, a digit at a time from the right.
pub open spec fn digits_number(s: Seq<u8>) -> nat
    decreases s.len(),
{
    if s.len() == 0 {
        0
    } else {
        10 * digits_number(s.drop_last()) + (s.last() - 0x30) as nat
    }
}

/// Whether `s` is a number as bencode has it: digits, and no zero in front.
pub open spec fn is_bare_number(s: Seq<u8>) -> bool {
    &&& s.len() > 0
    &&& forall|i: int| 0 <= i < s.len() ==> 0x30 <= #[trigger] s[i] <= 0x39
    &&& s.len() > 1 ==> s[0] != 0x30
}

/// The term that bytes begin with, and the bytes that follow it.
pub open spec fn read_term(s: Seq<u8>) -> Option<(Term, Seq<u8>)>
    decreases s.len(), 0nat,
{
    if s.len() == 0 {
        None
    } else if s[0] == 'd' as u8 {
        match read_entries(s.skip(1)) {
            Some((entries, rest)) => Some((Term::Dictionary(entries), rest)),
            None => None,
        }
    } else if s[0] == 'i' as u8 {
        match s.index_of_first('e' as u8) {
            Some(k) if is_bare_number(s.subrange(1, k)) => Some(
                (Term::Number(digits_number(s.subrange(1, k))), s.skip(k + 1)),
            ),
            _ => None,
        }
    } else {
        match s.index_of_first(':' as u8) {
            Some(k) if is_bare_number(s.take(k)) && k + 1 + digits_number(s.take(k)) <= s.len()
                => Some(
                (
                    Term::Bytes(s.subrange(k + 1, k + 1 + digits_number(s.take(k)))),
                    s.skip(k + 1 + digits_number(s.take(k))),
                ),
            ),
            _ => None,
        }
    }
}

/// The entries of a dictionary up to its end, and the bytes that follow it.
pub open spec fn read_entries(s: Seq<u8>) -> Option<(Seq<(Seq<u8>, Term)>, Seq<u8>)>
    decreases s.len(), 1nat,
{
    if s.len() == 0 {
        None
    } else if s[0] == 'e' as u8 {
        Some((seq![], s.skip(1)))
    } else {
        match read_term(s) {
            Some((Term::Bytes(key), rest)) if rest.len() < s.len() => match read_term(rest) {
                Some((value, rest)) if rest.len() < s.len() => match read_entries(rest) {
                    Some((entries, rest)) => Some((seq![(key, value)] + entries, rest)),
                    None => None,
                },
                _ => None,
            },
            _ => None,
        }
    }
}

/// Whether `e` is read as `term` whatever follows it.
pub open spec fn writes(e: Seq<u8>, term: Term) -> bool {
    forall|rest: Seq<u8>| #[trigger] read_term(e + rest) == Some((term, rest))
}

/// The digits of a number are a number without zeros in front, and the same one.
proof fn lemma_decimal_bytes(n: nat)
    ensures
        is_bare_number(encode_utf8(decimal(n))),
        digits_number(encode_utf8(decimal(n))) == n,
        encode_utf8(decimal(n)).len() == decimal(n).len(),
        n > 0 ==> encode_utf8(decimal(n))[0] != 0x30,
    decreases n,
{
    let d = digit(n % 10);
    assert(d as nat == '0' as nat + n % 10);
    lemma_encode_utf8_of_ascii(d);
    let last = seq![d as u8];
    assert(last.drop_last() =~= seq![]);
    assert(digits_number(last.drop_last()) == 0);
    if n < 10 {
        assert(decimal(n) =~= seq![d]);
        assert(digits_number(last) == n);
    } else {
        lemma_decimal_bytes(n / 10);
        let before = encode_utf8(decimal(n / 10));
        lemma_encode_utf8_of_sum(decimal(n / 10), seq![d]);
        assert(decimal(n) =~= decimal(n / 10) + seq![d]);
        let all = encode_utf8(decimal(n));
        assert(all =~= before + last);
        assert(all.drop_last() =~= before);
        assert(all.last() == d as u8);
        assert forall|i: int| 0 <= i < all.len() implies 0x30 <= #[trigger] all[i] <= 0x39 by {
            if i < before.len() {
                assert(all[i] == before[i]);
            }
        }
        assert(all[0] == before[0]);
    }
}

/// The first index of a byte is the one before which it does not occur.
proof fn lemma_first_byte(s: Seq<u8>, b: u8, k: int)
    requires
        0 <= k < s.len(),
        s[k] == b,
        forall|i: int| 0 <= i < k ==> s[i] != b,
    ensures
        s.index_of_first(b) == Some(k),
{
    s.index_of_first_ensures(b);
    assert(s.contains(b));
    let j = s.index_of_first(b)->0;
    if j < k {
        assert(s[j] != b);
    }
}

/// A byte string of any length, and any number, is read back from what is written
/// for it.
pub proof fn law_bytes_round_trip(b: Seq<u8>, n: nat, rest: Seq<u8>)
    ensures
        read_term(bencoded_bytes(b) + rest) == Some((Term::Bytes(b), rest)),
        read_term(bencoded_uint(n) + rest) == Some((Term::Number(n), rest)),
{
    let length = encode_utf8(decimal(b.len()));
    let k = length.len() as int;
    lemma_decimal_bytes(b.len());
    let s = bencoded_bytes(b) + rest;
    assert(s =~= length + seq![':' as u8] + b + rest);
    assert(s.take(k) =~= length);
    assert(s[0] == length[0]);
    assert forall|i: int| 0 <= i < k implies s[i] != ':' as u8 by {
        assert(s[i] == length[i]);
    }
    assert(s[k] == ':' as u8);
    lemma_first_byte(s, ':' as u8, k);
    assert(s.subrange(k + 1, k + 1 + b.len()) =~= b);
    assert(s.skip(k + 1 + b.len() as int) =~= rest);

    let digits = encode_utf8(decimal(n));
    let m = digits.len() as int + 1;
    lemma_decimal_bytes(n);
    let t = bencoded_uint(n) + rest;
    assert(t =~= seq!['i' as u8] + digits + seq!['e' as u8] + rest);
    assert(t.subrange(1, m) =~= digits);
    assert forall|i: int| 0 <= i < m implies t[i] != 'e' as u8 by {
        if i > 0 {
            assert(t[i] == digits[i - 1]);
        }
    }
    assert(t[m] == 'e' as u8);
    lemma_first_byte(t, 'e' as u8, m);
    assert(t.skip(m + 1) =~= rest);
}

/// What is written for byte strings and for numbers begins with no end.
pub(crate) proof fn lemma_written(b: Seq<u8>, n: nat)
    ensures
        writes(bencoded_bytes(b), Term::Bytes(b)),
        writes(bencoded_uint(n), Term::Number(n)),
{
    assert forall|rest: Seq<u8>| #[trigger]
        read_term(bencoded_bytes(b) + rest) == Some((Term::Bytes(b), rest)) by {
        law_bytes_round_trip(b, n, rest);
    }
    assert forall|rest: Seq<u8>| #[trigger]
        read_term(bencoded_uint(n) + rest) == Some((Term::Number(n), rest)) by {
        law_bytes_round_trip(b, n, rest);
    }
}

/// An entry in front of others is read before them.
pub(crate) proof fn lemma_entry(key: Seq<u8>, e: Seq<u8>, value: Term, others: Seq<u8>)
    requires
        writes(e, value),
    ensures
        read_entries(bencoded_bytes(key) + e + others) == match read_entries(others) {
            Some((entries, rest)) => Some((seq![(key, value)] + entries, rest)),
            None => None,
        },
{
    let s = bencoded_bytes(key) + e + others;
    lemma_written(key, 0);
    lemma_decimal_bytes(key.len());
    assert(s =~= bencoded_bytes(key) + (e + others));
    assert(s[0] == encode_utf8(decimal(key.len()))[0]);
    assert(read_term(s) == Some((Term::Bytes(key), e + others)));
    assert(read_term(e + others) == Some((value, others)));
    assert(bencoded_bytes(key).len() > 0);
}

/// The end of a dictionary.
pub(crate) proof fn lemma_no_entry(rest: Seq<u8>)
    ensures
        read_entries(seq!['e' as u8] + rest) == Some(
            (Seq::<(Seq<u8>, Term)>::empty(), rest),
        ),
{
    let s = seq!['e' as u8] + rest;
    assert(s.skip(1) =~= rest);
}

/// A dictionary is its entries behind its first byte.
pub(crate) proof fn lemma_dictionary(entries: Seq<u8>)
    ensures
        read_term(seq!['d' as u8] + entries) == match read_entries(entries) {
            Some((read, rest)) => Some((Term::Dictionary(read), rest)),
            None => None,
        },
{
    let s = seq!['d' as u8] + entries;
    assert(s.skip(1) =~= entries);
    assert(s[0] == 'd' as u8);
}

/// What a text begins with says what kind of value it begins with.
pub proof fn law_kinds(s: Seq<char>)
    ensures
        decoded(s) matches Some((value, _)) ==> {
            &&& s.len() > 0
            &&& value is Int <==> s[0] == 'i'
            &&& value is List <==> s[0] == 'l'
            &&& value is Dict <==> s[0] == 'd'
            &&& value is Str <==> '0' <= s[0] <= '9'
        },
{
}

/// The number that digits spell, a digit at a time.
pub proof fn law_digits_value(s: Seq<char>, d: nat)
    requires
        d < 10,
    ensures
        digits_value(Seq::<char>::empty()) == 0,
        digits_value(s.push("0123456789"@[d as int])) == 10 * digits_value(s) + d,
{
    reveal_strlit("0123456789");
    assert(s.push("0123456789"@[d as int]).drop_last() =~= s);
}

/// Zeros in front of digits change nothing.
proof fn lemma_zeros(zeros: nat, s: Seq<char>)
    requires
        is_number(s),
    ensures
        is_number(Seq::new(zeros, |i: int| '0') + s),
        digits_value(Seq::new(zeros, |i: int| '0') + s) == digits_value(s),
{
    let t = Seq::new(zeros, |i: int| '0') + s;
    assert forall|i: int| 0 <= i < t.len() implies is_digit(#[trigger] t[i]) by {
        if i >= zeros {
            assert(t[i] == s[i - zeros]);
            assert(is_digit(s[i - zeros]));
        } else {
            assert(t[i] == '0');
        }
    }
    assert(t.len() > 0);
    lemma_zeros_in_front(zeros, s);
}

/// Zeros in front of a text change nothing in the number that it spells.
proof fn lemma_zeros_in_front(zeros: nat, s: Seq<char>)
    ensures
        digits_value(Seq::new(zeros, |i: int| '0') + s) == digits_value(s),
    decreases s.len(),
{
    let z = Seq::new(zeros, |i: int| '0');
    let t = z + s;
    if s.len() == 0 {
        lemma_zeros_value(zeros);
        assert(t =~= z);
        assert(digits_value(s) == 0);
    } else {
        let before = s.drop_last();
        lemma_zeros_in_front(zeros, before);
        assert(t.drop_last() =~= z + before);
        assert(t.last() == s.last());
        assert(t.len() > 0);
        assert(digits_value(t) == 10 * digits_value(t.drop_last()) + (t.last() as nat - '0' as nat)
            as nat);
        assert(digits_value(s) == 10 * digits_value(before) + (s.last() as nat - '0' as nat)
            as nat);
    }
}

/// Zeros spell zero.
proof fn lemma_zeros_value(zeros: nat)
    ensures
        digits_value(Seq::new(zeros, |i: int| '0')) == 0,
    decreases zeros,
{
    if zeros > 0 {
        let z = Seq::new(zeros, |i: int| '0');
        assert(z.drop_last() =~= Seq::new((zeros - 1) as nat, |i: int| '0'));
        lemma_zeros_value((zeros - 1) as nat);
    }
}

/// An integer may have a sign and zeros in front. It is read if it fits in 64 bits, and
/// refused if it does not.
pub proof fn law_integer_forms(sign: Option<char>, zeros: nat, n: nat, rest: Seq<char>)
    requires
        sign is None || sign == Some('+') || sign == Some('-'),
    ensures
        ({
            let front = match sign {
                None => Seq::<char>::empty(),
                Some(c) => seq![c],
            };
            let text = seq!['i'] + front + Seq::new(zeros, |i: int| '0') + decimal(n) + seq!['e']
                + rest;
            let value = if sign == Some('-') {
                -(n as int)
            } else {
                n as int
            };
            decoded(text) == if -0x8000_0000_0000_0000 <= value <= 0x7fff_ffff_ffff_ffff {
                Some((ValueView::Int(value), rest))
            } else {
                None
            }
        }),
{
    let front = match sign {
        None => Seq::<char>::empty(),
        Some(c) => seq![c],
    };
    let digits = Seq::new(zeros, |i: int| '0') + decimal(n);
    lemma_decimal(n);
    lemma_zeros(zeros, decimal(n));
    let number = front + digits;
    let k = number.len() as int;
    let text = seq!['i'] + front + Seq::new(zeros, |i: int| '0') + decimal(n) + seq!['e'] + rest;
    let t = text.skip(1);
    assert(t =~= number + seq!['e'] + rest);
    assert forall|i: int| 0 <= i < k implies t[i] != 'e' by {
        if i >= front.len() {
            assert(t[i] == digits[i - front.len()]);
            assert(is_digit(digits[i - front.len()]));
        }
    }
    assert(t[k] == 'e');
    lemma_first_index(t, 'e', k);
    assert(t.take(k) =~= number);
    assert(t.skip(k + 1) =~= rest);
    if sign is None {
        assert(number =~= digits);
        assert(is_digit(digits[0]));
    } else {
        assert(number.skip(1) =~= digits);
        assert(number[0] == sign->0);
    }
    assert(text[0] == 'i');
}

/// What is read as an integer is a sign or none, digits, and an `e`; what follows is left.
pub proof fn law_integers_are_digits(s: Seq<char>)
    requires
        decoded(s) is Some,
        s[0] == 'i',
    ensures
        exists|k: int|
            {
                &&& 1 < k < s.len()
                &&& #[trigger] s[k] == 'e'
                &&& (decoded(s)->0).1 == s.skip(k + 1)
                &&& '0' <= s[k - 1] <= '9'
                &&& '0' <= s[1] <= '9' || s[1] == '+' || s[1] == '-'
                &&& forall|i: int| 2 <= i < k ==> '0' <= #[trigger] s[i] <= '9'
            },
{
    let t = s.skip(1);
    t.index_of_first_ensures('e');
    let j = t.index_of_first('e')->0;
    let number = t.take(j);
    let k = j + 1;
    let signed = number.len() > 0 && (number[0] == '-' || number[0] == '+');
    let digits = if signed {
        number.skip(1)
    } else {
        number
    };
    assert(is_number(digits));
    assert(t[j] == 'e');
    assert(s[k] == t[j]);
    assert(t.skip(j + 1) =~= s.skip(k + 1));
    assert(is_digit(digits[digits.len() - 1]));
    assert(digits[digits.len() - 1] == s[k - 1]);
    assert(number[0] == s[1]);
    if !signed {
        assert(is_digit(digits[0]));
    }
    assert forall|i: int| 2 <= i < k implies '0' <= #[trigger] s[i] <= '9' by {
        let at = if signed {
            i - 2
        } else {
            i - 1
        };
        assert(digits[at] == s[i]);
        assert(is_digit(digits[at]));
    }
}

/// A text may have zeros in front of its length.
pub proof fn law_string_forms(zeros: nat, t: Seq<char>, rest: Seq<char>)
    requires
        encode_utf8(t).len() <= usize::MAX,
    ensures
        decoded(
            Seq::new(zeros, |i: int| '0') + decimal(encode_utf8(t).len()) + seq![':'] + t + rest,
        ) == Some((ValueView::Str(t), rest)),
{
    let n = encode_utf8(t).len();
    let digits = Seq::new(zeros, |i: int| '0') + decimal(n);
    let k = digits.len() as int;
    lemma_decimal(n);
    lemma_zeros(zeros, decimal(n));
    let s = Seq::new(zeros, |i: int| '0') + decimal(n) + seq![':'] + t + rest;
    assert(s[0] == digits[0] && is_digit(digits[0]));
    assert forall|i: int| 0 <= i < k implies s[i] != ':' by {
        assert(s[i] == digits[i] && is_digit(digits[i]));
    }
    assert(s[k] == ':');
    lemma_first_index(s, ':', k);
    assert(s.take(k) =~= digits);
    assert(s.skip(k + 1) =~= t + rest);
    lemma_chars_in_bytes(t, rest);
    assert((t + rest).take(t.len() as int) =~= t);
    assert((t + rest).skip(t.len() as int) =~= rest);
}

/// What is read as a text stands behind digits and a colon. The digits say how many bytes
/// it takes, and what follows it is left.
pub proof fn law_strings_have_their_length(s: Seq<char>)
    requires
        decoded(s) is Some,
        '0' <= s[0] <= '9',
    ensures
        exists|k: int|
            {
                &&& 0 < k < s.len()
                &&& #[trigger] s[k] == ':'
                &&& forall|i: int| 0 <= i < k ==> '0' <= #[trigger] s[i] <= '9'
                &&& (decoded(s)->0).0 matches ValueView::Str(t)
                &&& digits_value(s.take(k)) == encode_utf8(t).len()
                &&& s.skip(k + 1) == t + (decoded(s)->0).1
            },
{
    s.index_of_first_ensures(':');
    let k = s.index_of_first(':')->0;
    let contents = s.skip(k + 1);
    let n = digits_value(s.take(k));
    let m = chars_in_bytes(contents, n)->0;
    lemma_chars_in_bytes_bounded(contents, n);
    lemma_chars_take_their_bytes(contents, n);
    assert(s[k] == ':');
    assert forall|i: int| 0 <= i < k implies '0' <= #[trigger] s[i] <= '9' by {
        assert(is_digit(s.take(k)[i]));
    }
    assert(contents =~= contents.take(m as int) + contents.skip(m as int));
}

/// Characters that take some bytes together take as many in UTF-8.
proof fn lemma_chars_take_their_bytes(s: Seq<char>, n: nat)
    requires
        chars_in_bytes(s, n) is Some,
    ensures
        encode_utf8(s.take(chars_in_bytes(s, n)->0 as int)).len() == n,
    decreases s.len(),
{
    let m = chars_in_bytes(s, n)->0;
    lemma_chars_in_bytes_bounded(s, n);
    let t = s.take(m as int);
    if n > 0 {
        let left = (n - char_bytes(s[0])) as nat;
        lemma_chars_take_their_bytes(s.skip(1), left);
        assert(t.drop_first() =~= s.skip(1).take(m - 1));
        assert(t[0] == s[0]);
        assert(encode_utf8(t).len() == char_bytes(t[0]) + encode_utf8(t.drop_first()).len());
    }
}

/// A list is read element by element: it is empty where its end follows at once, and has
/// no end where the text ends. Otherwise its first element is the value that follows, and
/// its other elements are those of a list that goes on behind that value.
pub proof fn law_list_by_elements(t: Seq<char>)
    ensures
        t.len() == 0 ==> decoded(seq!['l'] + t) is None,
        t.len() > 0 && t[0] == 'e' ==> decoded(seq!['l'] + t) == Some(
            (ValueView::List(seq![]), t.skip(1)),
        ),
        t.len() > 0 && t[0] != 'e' ==> decoded(seq!['l'] + t) == match decoded(t) {
            Some((first, more)) => match decoded(seq!['l'] + more) {
                Some((ValueView::List(others), rest)) => Some(
                    (ValueView::List(seq![first] + others), rest),
                ),
                _ => None,
            },
            None => None,
        },
{
    let s = seq!['l'] + t;
    assert(s.skip(1) =~= t);
    assert(s[0] == 'l');
    if t.len() > 0 && t[0] != 'e' && decoded(t) is Some {
        law_decoded_leaves_the_end(t);
        let more = (decoded(t)->0).1;
        assert((seq!['l'] + more).skip(1) =~= more);
        assert((seq!['l'] + more)[0] == 'l');
    }
}

/// A dictionary is read entry by entry. An entry is a text, which is the key, and a value;
/// it holds unless a later entry has the same key.
pub proof fn law_dict_by_entries(t: Seq<char>)
    ensures
        t.len() == 0 ==> decoded(seq!['d'] + t) is None,
        t.len() > 0 && t[0] == 'e' ==> decoded(seq!['d'] + t) == Some(
            (ValueView::Dict(Map::empty()), t.skip(1)),
        ),
        t.len() > 0 && t[0] != 'e' ==> decoded(seq!['d'] + t) == match decoded(t) {
            Some((ValueView::Str(key), after_key)) => match decoded(after_key) {
                Some((value, more)) => match decoded(seq!['d'] + more) {
                    Some((ValueView::Dict(others), rest)) => Some(
                        (
                            ValueView::Dict(
                                if others.dom().contains(key) {
                                    others
                                } else {
                                    others.insert(key, value)
                                },
                            ),
                            rest,
                        ),
                    ),
                    _ => None,
                },
                None => None,
            },
            _ => None,
        },
{
    let s = seq!['d'] + t;
    assert(s.skip(1) =~= t);
    assert(s[0] == 'd');
    if t.len() > 0 && t[0] != 'e' && decoded(t) is Some {
        law_decoded_leaves_the_end(t);
        let after_key = (decoded(t)->0).1;
        if decoded(after_key) is Some && (decoded(t)->0).0 is Str {
            law_decoded_leaves_the_end(after_key);
            let key = (decoded(t)->0).0->Str_0;
            let (value, more) = decoded(after_key)->0;
            assert((seq!['d'] + more).skip(1) =~= more);
            assert((seq!['d'] + more)[0] == 'd');
            if decoded_entries(more) is Some {
                lemma_first_entry(key, value, (decoded_entries(more)->0).0);
            }
        }
    }
}

/// An entry in front of others holds unless one of them has the same key.
proof fn lemma_first_entry(
    key: Seq<char>,
    value: ValueView,
    others: Seq<(Seq<char>, ValueView)>,
)
    ensures
        dict_of(seq![(key, value)] + others) == if dict_of(others).dom().contains(key) {
            dict_of(others)
        } else {
            dict_of(others).insert(key, value)
        },
    decreases others.len(),
{
    let all = seq![(key, value)] + others;
    if others.len() == 0 {
        reveal_with_fuel(dict_of, 2);
        assert(all.drop_last() =~= seq![]);
        assert(dict_of(all) =~= dict_of(others).insert(key, value));
    } else {
        let before = others.drop_last();
        lemma_first_entry(key, value, before);
        assert(all.drop_last() =~= seq![(key, value)] + before);
        assert(all.last() == others.last());
        let m = dict_of(before);
        let (k, v) = others.last();
        if m.dom().contains(key) {
            assert(m.insert(k, v).dom().contains(key));
        } else if k == key {
            assert(m.insert(key, value).insert(k, v) =~= m.insert(k, v));
        } else {
            assert(m.insert(key, value).insert(k, v) =~= m.insert(k, v).insert(key, value));
        }
    }
}

/// What a value is said to be is what stands in it.
pub proof fn law_value_model(value: Value, i: int, j: int)
    requires
        value.wf(),
    ensures
        value matches Value::Str(s) ==> value.model() == ValueView::Str(s@),
        value matches Value::Int(n) ==> value.model() == ValueView::Int(n as int),
        value matches Value::List(items) ==> {
            &&& value.model() matches ValueView::List(values)
            &&& values.len() == items@.len()
            &&& 0 <= i < items@.len() ==> values[i] == items@[i].model()
        },
        value matches Value::Dict(entries) ==> {
            &&& value.model() matches ValueView::Dict(map)
            &&& 0 <= i < entries@.len() ==> map.dom().contains(entries@[i].0@)
                && map[entries@[i].0@] == entries@[i].1.model()
            &&& 0 <= i < j < entries@.len() ==> entries@[i].0@ != entries@[j].0@
            &&& forall|key: Seq<char>| #[trigger]
                map.dom().contains(key) ==> exists|e: int|
                    0 <= e < entries@.len() && (#[trigger] entries@[e]).0@ == key
        },
{
    if let Value::Dict(entries) = value {
        let models = entry_models(entries@);
        lemma_dict_of(models);
        if 0 <= i < entries@.len() {
            assert(models[i] == (entries@[i].0@, entries@[i].1.model()));
            assert(dict_of(models).dom().contains(models[i].0));
        }
        if 0 <= i < j < entries@.len() {
            assert(models[j].0 == entries@[j].0@);
            assert(models[i].0 != models[j].0);
        }
        assert forall|key: Seq<char>| #[trigger] dict_of(models).dom().contains(key) implies exists|
            e: int,
        |
            0 <= e < entries@.len() && (#[trigger] entries@[e]).0@ == key by {
            let e = choose|e: int| 0 <= e < models.len() && (#[trigger] models[e]).0 == key;
            assert(entries@[e].0@ == key);
        }
    }
}

} // verus!
