//! Calls into std and the `http` crate that the library relies on, each with
//! the contract that the callee's source or documentation gives it.

use vstd::prelude::*;
use vstd::utf8::{decode_utf8, valid_utf8};

verus! {

/// Bytes accepted in a method token by `http::Method::from_bytes`.
pub open spec fn method_byte(b: u8) -> bool {
    b == ('!' as u8) || b == ('*' as u8) || b == ('+' as u8) || b == ('-' as u8) || b == ('.'
        as u8) || (('0' as u8) <= b && b <= ('9' as u8)) || (('A' as u8) <= b && b <= ('Z' as u8))
        || b == ('^' as u8) || b == ('_' as u8) || b == ('`' as u8) || (('a' as u8) <= b && b <= (
    'z' as u8)) || b == ('|' as u8) || b == ('~' as u8)
}

/// A method token that `http` accepts: non-empty, made of method bytes only.
pub open spec fn valid_method(m: Seq<u8>) -> bool {
    m.len() > 0 && forall|i: int| 0 <= i < m.len() ==> method_byte(#[trigger] m[i])
}

/// Bytes accepted in a header name by `http::HeaderName::from_bytes`.
pub open spec fn header_name_byte(b: u8) -> bool {
    method_byte(b) || b == ('"' as u8) || b == ('#' as u8) || b == ('$' as u8) || b == ('%'
        as u8) || b == ('&' as u8) || b == ('\'' as u8)
}

/// ASCII lower case of one byte.
pub open spec fn lower_byte(b: u8) -> u8 {
    if ('A' as u8) <= b && b <= ('Z' as u8) {
        (b + 32) as u8
    } else {
        b
    }
}

/// A header name that `http` accepts.
pub open spec fn valid_header_name(n: Seq<u8>) -> bool {
    0 < n.len() <= 65535 && forall|i: int| 0 <= i < n.len() ==> header_name_byte(#[trigger] n[i])
}

/// The stored form of a header name: its ASCII lower case.
pub open spec fn lowered(n: Seq<u8>) -> Seq<u8> {
    Seq::new(n.len(), |i: int| lower_byte(n[i]))
}

/// Bytes accepted in a header value by `http::HeaderValue::from_bytes`.
pub open spec fn header_value_byte(b: u8) -> bool {
    (b >= 32 && b != 127) || b == 9
}

pub open spec fn valid_header_value(v: Seq<u8>) -> bool {
    forall|i: int| 0 <= i < v.len() ==> header_value_byte(#[trigger] v[i])
}

/// Whether `http::Uri` parses the bytes as a URI.
pub uninterp spec fn uri_accepts(s: Seq<u8>) -> bool;

/// The path component that `http::Uri::path` gives for a parsed URI.
pub uninterp spec fn uri_path_of(s: Seq<u8>) -> Seq<u8>;

/// The reason phrase that `http::StatusCode::canonical_reason` gives for a code.
pub uninterp spec fn canonical_reason_of(code: u16) -> Option<Seq<u8>>;

/// The path that `std::path::Path::join` makes of a base and a relative part.
pub uninterp spec fn joined_path(base: Seq<char>, rel: Seq<char>) -> Seq<char>;

/// Relies on `http::Method::from_bytes`: it accepts exactly the non-empty
/// sequences of method bytes.
#[verifier::external_body]
pub(crate) fn method_accepted(m: &[u8]) -> (r: bool)
    ensures
        r == valid_method(m@),
{
    http::Method::from_bytes(m).is_ok()
}

/// Relies on `http::Uri::try_from(&[u8])` to parse a URI, and on `Uri::path`
/// for its path component.
#[verifier::external_body]
pub(crate) fn parse_uri(s: &[u8]) -> (r: Option<Vec<u8>>)
    ensures
        r.is_some() == uri_accepts(s@),
        r matches Some(p) ==> p@ == uri_path_of(s@),
{
    match http::Uri::try_from(s) {
        Ok(u) => Some(u.path().as_bytes().to_vec()),
        Err(_) => None,
    }
}

/// Relies on `std::str::from_utf8`: it succeeds exactly on well-formed UTF-8
/// and then holds the decoded characters.
#[verifier::external_body]
pub(crate) fn utf8_text(b: &[u8]) -> (r: Option<String>)
    ensures
        r.is_some() == valid_utf8(b@),
        r matches Some(t) ==> t@ == decode_utf8(b@),
{
    match std::str::from_utf8(b) {
        Ok(t) => Some(t.to_string()),
        Err(_) => None,
    }
}

/// Relies on `http::HeaderName::from_bytes`: it accepts names of up to 65535
/// token bytes and stores them in ASCII lower case (`HeaderName::as_str`).
#[verifier::external_body]
pub(crate) fn header_name(n: &[u8]) -> (r: Option<Vec<u8>>)
    ensures
        r.is_some() == valid_header_name(n@),
        r matches Some(l) ==> l@ == lowered(n@),
{
    match http::header::HeaderName::from_bytes(n) {
        Ok(h) => Some(h.as_str().as_bytes().to_vec()),
        Err(_) => None,
    }
}

/// Relies on `http::HeaderValue::from_bytes`: it accepts exactly the values
/// whose bytes are all tab or at least 32 and not 127.
#[verifier::external_body]
pub(crate) fn header_value_accepted(v: &[u8]) -> (r: bool)
    ensures
        r == valid_header_value(v@),
{
    http::header::HeaderValue::from_bytes(v).is_ok()
}

/// Relies on `http::StatusCode::from_u16`: it accepts the codes from 100 to 999.
#[verifier::external_body]
pub(crate) fn status_accepted(code: u16) -> (r: bool)
    ensures
        r == (100 <= code && code <= 999),
{
    http::StatusCode::from_u16(code).is_ok()
}

/// Relies on `http::StatusCode::canonical_reason` for the reason phrase of a code.
#[verifier::external_body]
pub(crate) fn canonical_reason(code: u16) -> (r: Option<Vec<u8>>)
    requires
        100 <= code <= 999,
    ensures
        r matches Some(p) ==> canonical_reason_of(code) == Some(p@),
        r is None ==> canonical_reason_of(code) is None,
{
    match http::StatusCode::from_u16(code) {
        Ok(s) => s.canonical_reason().map(|p| p.as_bytes().to_vec()),
        Err(_) => None,
    }
}

/// Relies on `std::path::Path::join` to append a relative part to a base path.
#[verifier::external_body]
pub(crate) fn join_path(base: &str, rel: &str) -> (r: String)
    ensures
        r@ == joined_path(base@, rel@),
{
    std::path::Path::new(base).join(rel).to_string_lossy().into_owned()
}

} // verus!
