//! What the library takes from other crates and from `std` beyond what Verus knows of them. Verus
//! believes the contracts in this module without proof.
use indexmap::IndexMap;
use vstd::prelude::*;
use vstd::utf8;

verus! {

/// `indexmap::IndexMap`: a hash map that keeps its entries in the order of insertion.
#[verifier::external_type_specification]
#[verifier::external_body]
#[verifier::reject_recursive_types(K)]
#[verifier::reject_recursive_types(V)]
#[verifier::reject_recursive_types(S)]
pub struct ExIndexMap<K, V, S>(indexmap::IndexMap<K, V, S>);

/// `std::string::FromUtf8Error`: the error for bytes that are not UTF-8.
#[verifier::external_type_specification]
#[verifier::external_body]
pub struct ExFromUtf8Error(std::string::FromUtf8Error);

/// The keys of an `IndexMap` with their values, in the map's order.
pub uninterp spec fn header_entries(headers: IndexMap<String, String>) -> Seq<
    (Seq<char>, Seq<char>),
>;

/// `entries` with `value` under `key`: in the place of the entry that has that key, or else at the
/// end.
pub open spec fn with_entry(
    entries: Seq<(Seq<char>, Seq<char>)>,
    key: Seq<char>,
    value: Seq<char>,
) -> Seq<(Seq<char>, Seq<char>)>
    decreases entries.len(),
{
    if entries.len() == 0 {
        seq![(key, value)]
    } else if entries[0].0 == key {
        seq![(key, value)] + entries.skip(1)
    } else {
        seq![entries[0]] + with_entry(entries.skip(1), key, value)
    }
}

/// `IndexMap::new`: the map has no entries.
#[verifier::external_body]
pub(crate) fn headers_new() -> (headers: IndexMap<String, String>)
    ensures
        header_entries(headers) == Seq::<(Seq<char>, Seq<char>)>::empty(),
{
    IndexMap::new()
}

/// `IndexMap::insert`: a key that is there keeps its place and gets the new value; a new key goes
/// to the end. The bound keeps the map far from the size at which it can no longer grow.
#[verifier::external_body]
pub(crate) fn headers_insert(headers: &mut IndexMap<String, String>, key: String, value: String)
    requires
        header_entries(*old(headers)).len() < 0x10000,
    ensures
        header_entries(*final(headers)) == with_entry(header_entries(*old(headers)), key@, value@),
{
    headers.insert(key, value);
}

/// `IndexMap::get_index`: the entry at a place in the map's order, or `None` past the last one.
#[verifier::external_body]
pub(crate) fn headers_at(headers: &IndexMap<String, String>, index: usize) -> (entry: Option<
    (&String, &String),
>)
    ensures
        match entry {
            Some((key, value)) => {
                &&& index < header_entries(*headers).len()
                &&& (key@, value@) == header_entries(*headers)[index as int]
            },
            None => index >= header_entries(*headers).len(),
        },
{
    headers.get_index(index)
}

/// `bytes::BufMut::put` on a `Vec<u8>`: the bytes of a slice go to the end of the vector. A vector
/// holds at most `isize::MAX` bytes; beyond that the call panics.
#[verifier::external_body]
pub(crate) fn put(out: &mut Vec<u8>, src: &[u8])
    requires
        old(out)@.len() + src@.len() <= isize::MAX,
    ensures
        final(out)@ == old(out)@ + src@,
{
    bytes::BufMut::put(out, src)
}

/// `bytes::Buf::remaining` on a `std::io::Cursor`: the number of bytes from the cursor's position
/// to the end, none where the position is past the end.
#[verifier::external_body]
pub(crate) fn remaining(bytes: &[u8], position: usize) -> (n: usize)
    ensures
        n == if position <= bytes@.len() {
            bytes@.len() - position
        } else {
            0
        },
{
    let mut cursor = std::io::Cursor::new(bytes);
    cursor.set_position(position as u64);
    bytes::Buf::remaining(&cursor)
}

/// `String::from_utf8`: the text that the bytes encode, or an error where they are not UTF-8.
pub assume_specification[ std::string::String::from_utf8 ](vec: Vec<u8>) -> (result: Result<
    String,
    std::string::FromUtf8Error,
>)
    ensures
        match result {
            Ok(s) => utf8::valid_utf8(vec@) && utf8::encode_utf8(s@) == vec@,
            Err(_) => !utf8::valid_utf8(vec@),
        },
;

/// The value of a hexadecimal digit, in either case.
pub open spec fn hex_value(b: u8) -> Option<u8> {
    if 0x30 <= b <= 0x39 {
        Some((b - 0x30) as u8)
    } else if 0x41 <= b <= 0x46 {
        Some((b - 0x41 + 10) as u8)
    } else if 0x61 <= b <= 0x66 {
        Some((b - 0x61 + 10) as u8)
    } else {
        None
    }
}

/// `s` with each `%` and two hexadecimal digits after it replaced, from left to right, by the byte
/// that they write; every other byte stands for itself.
pub open spec fn percent_decoded(s: Seq<u8>) -> Seq<u8>
    decreases s.len(),
{
    if s.len() == 0 {
        s
    } else if s[0] == 0x25 && s.len() >= 3 && hex_value(s[1]) is Some && hex_value(s[2]) is Some {
        seq![(16 * hex_value(s[1])->0 + hex_value(s[2])->0) as u8] + percent_decoded(s.skip(3))
    } else {
        seq![s[0]] + percent_decoded(s.skip(1))
    }
}

/// `urlencoding::decode`: the text with its percent escapes replaced by the bytes that they write,
/// or an error where the bytes that come out are not UTF-8.
#[verifier::external_body]
pub(crate) fn url_decode(text: &str) -> (decoded: Result<String, std::string::FromUtf8Error>)
    ensures
        match decoded {
            Ok(s) => utf8::encode_utf8(s@) == percent_decoded(utf8::encode_utf8(text@)),
            Err(_) => !utf8::valid_utf8(percent_decoded(utf8::encode_utf8(text@))),
        },
{
    urlencoding::decode(text).map(|decoded| decoded.into_owned())
}

}
