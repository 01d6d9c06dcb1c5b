//! The header map of the `http` crate, and what is claimed of the few calls
//! that are made into it.
//!
//! A header map is known by its contents: for each header name, written in
//! small letters, the values under that name in the order in which they were
//! added. A header value is known by its bytes.
use http::header::{HeaderMap, HeaderValue, MaxSizeReached, ToStrError};
use vstd::prelude::*;

verus! {

/// The multimap of headers of the `http` crate.
#[verifier::external_type_specification]
#[verifier::external_body]
#[verifier::reject_recursive_types(T)]
pub struct ExHeaderMap<T>(HeaderMap<T>);

/// A header value of the `http` crate.
#[verifier::external_type_specification]
#[verifier::external_body]
pub struct ExHeaderValue(HeaderValue);

/// The error of the `http` crate for a header value that is not text.
#[verifier::external_type_specification]
#[verifier::external_body]
pub struct ExToStrError(ToStrError);

/// The error of the `http` crate for a header map that cannot grow.
#[verifier::external_type_specification]
#[verifier::external_body]
pub struct ExMaxSizeReached(MaxSizeReached);

/// The values under each name that a header map holds. The names are written
/// in small letters, and the values are in the order in which they were added.
pub uninterp spec fn header_contents(headers: HeaderMap) -> Map<Seq<char>, Seq<Seq<u8>>>;

/// The bytes of a header value.
pub uninterp spec fn value_bytes(value: HeaderValue) -> Seq<u8>;

/// A byte that may stand in a header value that is text: a printable ASCII
/// character, a space or a tabulator.
pub open spec fn is_visible(byte: u8) -> bool {
    32 <= byte < 127 || byte == 9
}

/// The text that bytes spell, where each of them may stand in text.
pub open spec fn text_of(bytes: Seq<u8>) -> Option<Seq<char>> {
    if forall|i: int| 0 <= i < bytes.len() ==> is_visible(#[trigger] bytes[i]) {
        Some(bytes.map_values(|byte: u8| byte as char))
    } else {
        None
    }
}

/// A character that has its place in a header value.
pub open spec fn is_visible_char(c: char) -> bool {
    32 <= c as u32 && (c as u32) < 127 || c as u32 == 9
}

/// The bytes of text in ASCII.
pub open spec fn bytes_of(text: Seq<char>) -> Seq<u8> {
    text.map_values(|c: char| c as u8)
}

/// A header name of small letters and hyphens, as header maps hold it.
pub open spec fn is_header_name(name: Seq<char>) -> bool {
    &&& 1 <= name.len() <= 64
    &&& forall|i: int| 0 <= i < name.len() ==> 'a' <= (#[trigger] name[i]) <= 'z' || name[i] == '-'
}

/// The values under a name, and none where the name is absent.
pub open spec fn values_of(contents: Map<Seq<char>, Seq<Seq<u8>>>, name: Seq<char>) -> Seq<
    Seq<u8>,
> {
    if contents.contains_key(name) {
        contents[name]
    } else {
        Seq::empty()
    }
}

/// The number of names from which on a header map may refuse another.
pub open spec fn names_limit() -> nat {
    6554
}

/// `HeaderValue::from_static`: a value with the bytes of the text. It panics
/// on text with a character that has no place in a header value.
pub assume_specification[ HeaderValue::from_static ](src: &'static str) -> (value: HeaderValue)
    requires
        forall|i: int| 0 <= i < src@.len() ==> is_visible_char(#[trigger] src@[i]),
    ensures
        value_bytes(value) == bytes_of(src@),
;

/// `HeaderValue::to_str`: the text of the value, and an error where one of its
/// bytes has no place in text.
pub assume_specification[ HeaderValue::to_str ](value: &HeaderValue) -> (r: Result<
    &str,
    ToStrError,
>)
    ensures
        match r {
            Ok(text) => text_of(value_bytes(*value)) == Some(text@),
            Err(_) => text_of(value_bytes(*value)) is None,
        },
;

/// `HeaderMap::contains_key`: whether there is a value under the name.
#[verifier::external_body]
pub(crate) fn contains_key(headers: &HeaderMap, name: &str) -> (r: bool)
    requires
        is_header_name(name@),
    ensures
        r == header_contents(*headers).contains_key(name@),
{
    headers.contains_key(name)
}

/// `HeaderMap::get`: the first value under the name, and nothing where the
/// name is absent. A name that is present has a value.
#[verifier::external_body]
pub(crate) fn get<'a>(headers: &'a HeaderMap, name: &str) -> (r: Option<&'a HeaderValue>)
    requires
        is_header_name(name@),
    ensures
        match r {
            Some(value) => {
                &&& header_contents(*headers).contains_key(name@)
                &&& header_contents(*headers)[name@].len() > 0
                &&& value_bytes(*value) == header_contents(*headers)[name@][0]
            },
            None => !header_contents(*headers).contains_key(name@),
        },
{
    headers.get(name)
}

/// `HeaderMap::get_all`: all values under the name, in the order in which they
/// were added.
#[verifier::external_body]
pub(crate) fn get_all<'a>(headers: &'a HeaderMap, name: &str) -> (r: Vec<&'a HeaderValue>)
    requires
        is_header_name(name@),
    ensures
        r@.map_values(|value: &HeaderValue| value_bytes(*value)) == values_of(
            header_contents(*headers),
            name@,
        ),
{
    headers.get_all(name).iter().collect()
}

/// `HeaderMap::try_insert`: the value replaces those under the name, of which
/// the first is handed back. A map that cannot grow any further refuses, and
/// stays as it was; it holds at least `names_limit` names then, because its
/// table grows up to 2^15 places, and is asked to grow further only when three
/// quarters of it are used, or a fifth after many collisions.
#[verifier::external_body]
pub(crate) fn try_insert(headers: &mut HeaderMap, name: &'static str, value: HeaderValue) -> (r:
    Result<Option<HeaderValue>, MaxSizeReached>)
    requires
        is_header_name(name@),
    ensures
        header_contents(*final(headers)).dom().finite(),
        match r {
            Ok(previous) => {
                &&& header_contents(*final(headers)) == header_contents(*old(headers)).insert(
                    name@,
                    seq![value_bytes(value)],
                )
                &&& match previous {
                    Some(first) => {
                        &&& values_of(header_contents(*old(headers)), name@).len() > 0
                        &&& value_bytes(first) == values_of(header_contents(*old(headers)), name@)[0]
                    },
                    None => !header_contents(*old(headers)).contains_key(name@),
                }
            },
            Err(_) => {
                &&& header_contents(*final(headers)) == header_contents(*old(headers))
                &&& header_contents(*old(headers)).dom().len() >= names_limit()
            },
        },
{
    headers.try_insert(name, value)
}

/// `HeaderMap::try_append`: the value joins those under the name, at their
/// end, and the result says whether there were any. A map that cannot grow any
/// further refuses as in `try_insert`.
#[verifier::external_body]
pub(crate) fn try_append(headers: &mut HeaderMap, name: &'static str, value: HeaderValue) -> (r:
    Result<bool, MaxSizeReached>)
    requires
        is_header_name(name@),
    ensures
        header_contents(*final(headers)).dom().finite(),
        match r {
            Ok(present) => {
                &&& header_contents(*final(headers)) == header_contents(*old(headers)).insert(
                    name@,
                    values_of(header_contents(*old(headers)), name@).push(value_bytes(value)),
                )
                &&& present == header_contents(*old(headers)).contains_key(name@)
            },
            Err(_) => {
                &&& header_contents(*final(headers)) == header_contents(*old(headers))
                &&& header_contents(*old(headers)).dom().len() >= names_limit()
            },
        },
{
    headers.try_append(name, value)
}

/// `HeaderMap::remove`: takes all values under the name away, and hands back
/// the first.
#[verifier::external_body]
pub(crate) fn remove(headers: &mut HeaderMap, name: &str) -> (r: Option<HeaderValue>)
    requires
        is_header_name(name@),
    ensures
        header_contents(*final(headers)) == header_contents(*old(headers)).remove(name@),
        match r {
            Some(first) => {
                &&& values_of(header_contents(*old(headers)), name@).len() > 0
                &&& value_bytes(first) == values_of(header_contents(*old(headers)), name@)[0]
            },
            None => !header_contents(*old(headers)).contains_key(name@),
        },
{
    headers.remove(name)
}

} // verus!
