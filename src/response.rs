//! Responses and their framing on the wire.

use vstd::prelude::*;

use crate::parser::{crlf, same_bytes};
use crate::interop::{
    canonical_reason, canonical_reason_of, header_name, header_value_accepted, lowered,
    status_accepted, valid_header_name, valid_header_value,
};

verus! {

/// What a response holds: status code, headers in order of first setting,
/// and body.
pub struct ResponseView {
    pub status: u16,
    pub headers: Seq<(Seq<u8>, Seq<u8>)>,
    pub body: Seq<u8>,
}

impl ResponseView {
    /// The status code has three digits, as `http::StatusCode` requires.
    pub open spec fn wf(self) -> bool {
        100 <= self.status <= 999
    }
}

/// A response: status code, headers (an empty value means the header is not
/// sent) and body bytes.
pub struct Response {
    status: u16,
    headers: Vec<(Vec<u8>, Vec<u8>)>,
    body: Vec<u8>,
}

pub open spec fn pair_views(hs: Seq<(Vec<u8>, Vec<u8>)>) -> Seq<(Seq<u8>, Seq<u8>)> {
    hs.map_values(|p: (Vec<u8>, Vec<u8>)| (p.0@, p.1@))
}

impl View for Response {
    type V = ResponseView;

    closed spec fn view(&self) -> ResponseView {
        ResponseView { status: self.status, headers: pair_views(self.headers@), body: self.body@ }
    }
}

/// The first index at or after `from` of a header named `n`, or the length.
pub open spec fn name_index(hs: Seq<(Seq<u8>, Seq<u8>)>, n: Seq<u8>, from: int) -> int
    decreases hs.len() - from,
{
    if from >= hs.len() {
        hs.len() as int
    } else if hs[from].0 == n {
        from
    } else {
        name_index(hs, n, from + 1)
    }
}

/// Headers after setting `n` to `v`: an earlier entry for `n` keeps its place
/// and takes the new value; otherwise the header goes last.
pub open spec fn set_header(hs: Seq<(Seq<u8>, Seq<u8>)>, n: Seq<u8>, v: Seq<u8>) -> Seq<
    (Seq<u8>, Seq<u8>),
> {
    let i = name_index(hs, n, 0);
    if i < hs.len() {
        hs.update(i, (n, v))
    } else {
        hs.push((n, v))
    }
}

/// The three decimal digits of a status code.
pub open spec fn status_digits(code: u16) -> Seq<u8> {
    seq![
        ('0' as u8 + code / 100) as u8,
        ('0' as u8 + (code / 10) % 10) as u8,
        ('0' as u8 + code % 10) as u8,
    ]
}

pub open spec fn unknown_reason() -> Seq<u8> {
    seq!['U' as u8, 'N' as u8, 'K' as u8, 'N' as u8, 'O' as u8, 'W' as u8, 'N' as u8]
}

/// The reason phrase sent for a code: the canonical one, else `UNKNOWN`.
pub open spec fn reason_phrase(code: u16) -> Seq<u8> {
    match canonical_reason_of(code) {
        Some(p) => p,
        None => unknown_reason(),
    }
}

pub open spec fn http_version_prefix() -> Seq<u8> {
    seq!['H' as u8, 'T' as u8, 'T' as u8, 'P' as u8, '/' as u8, '1' as u8, '.' as u8, '1' as u8, ' ' as u8]
}

/// `HTTP/1.1 <code> <reason>\r\n`
pub open spec fn status_line_with(code: u16, reason: Seq<u8>) -> Seq<u8> {
    http_version_prefix() + status_digits(code) + seq![' ' as u8] + reason + crlf()
}


/// `<name>: <value>\r\n`, or nothing for an empty value.
pub open spec fn header_line(h: (Seq<u8>, Seq<u8>)) -> Seq<u8> {
    if h.1.len() == 0 {
        Seq::empty()
    } else {
        h.0 + seq![':' as u8, ' ' as u8] + h.1 + crlf()
    }
}

/// The header lines of a response, in order.
pub open spec fn header_lines(hs: Seq<(Seq<u8>, Seq<u8>)>) -> Seq<u8>
    decreases hs.len(),
{
    if hs.len() == 0 {
        Seq::empty()
    } else {
        header_lines(hs.drop_last()) + header_line(hs.last())
    }
}

/// `Connection: close \r\n`
pub open spec fn connection_close_line() -> Seq<u8> {
    seq![
        'C' as u8, 'o' as u8, 'n' as u8, 'n' as u8, 'e' as u8, 'c' as u8, 't' as u8, 'i' as u8,
        'o' as u8, 'n' as u8, ':' as u8, ' ' as u8, 'c' as u8, 'l' as u8, 'o' as u8, 's' as u8,
        'e' as u8, ' ' as u8, '\r' as u8, '\n' as u8,
    ]
}

/// The bytes sent for a response.
pub open spec fn wire(r: ResponseView) -> Seq<u8> {
    wire_with_reason(r, reason_phrase(r.status))
}

/// The bytes sent for a response whose status line carries `reason`.
pub open spec fn wire_with_reason(r: ResponseView, reason: Seq<u8>) -> Seq<u8> {
    status_line_with(r.status, reason) + header_lines(r.headers) + connection_close_line() + crlf()
        + r.body
}

fn append(out: &mut Vec<u8>, b: &[u8])
    ensures
        final(out)@ == old(out)@ + b@,
{
    let ghost start = out@;
    let mut i: usize = 0;
    while i < b.len()
        invariant
            i <= b@.len(),
            out@ == start + b@.subrange(0, i as int),
        decreases b@.len() - i,
    {
        out.push(b[i]);
        i = i + 1;
        assert(out@ =~= start + b@.subrange(0, i as int));
    }
    assert(b@.subrange(0, b@.len() as int) =~= b@);
}

fn status_digits_of(code: u16) -> (r: Vec<u8>)
    requires
        100 <= code <= 999,
    ensures
        r@ == status_digits(code),
{
    let r: Vec<u8> = vec![
        ('0' as u8) + ((code / 100) as u8),
        ('0' as u8) + (((code / 10) % 10) as u8),
        ('0' as u8) + ((code % 10) as u8),
    ];
    assert(r@ =~= status_digits(code));
    r
}

fn crlf_bytes() -> (r: Vec<u8>)
    ensures
        r@ == crlf(),
{
    let r: Vec<u8> = vec!['\r' as u8, '\n' as u8];
    assert(r@ =~= crlf());
    r
}

fn status_line_of(code: u16, reason: &[u8]) -> (r: Vec<u8>)
    requires
        100 <= code <= 999,
    ensures
        r@ == status_line_with(code, reason@),
{
    let mut out: Vec<u8> = vec!['H' as u8, 'T' as u8, 'T' as u8, 'P' as u8, '/' as u8, '1' as u8, '.' as u8, '1' as u8, ' ' as u8];
    assert(out@ =~= http_version_prefix());
    let digits = status_digits_of(code);
    append(&mut out, digits.as_slice());
    out.push(' ' as u8);
    append(&mut out, reason);
    let end = crlf_bytes();
    append(&mut out, end.as_slice());
    assert(out@ =~= status_line_with(code, reason@));
    out
}

/// The reason phrase sent for a code.
fn reason_of(code: u16) -> (r: Vec<u8>)
    requires
        100 <= code <= 999,
    ensures
        r@ == reason_phrase(code),
{
    match canonical_reason(code) {
        Some(p) => p,
        None => {
            let u: Vec<u8> = vec!['U' as u8, 'N' as u8, 'K' as u8, 'N' as u8, 'O' as u8, 'W' as u8, 'N' as u8];
            assert(u@ =~= unknown_reason());
            u
        },
    }
}

fn connection_close_bytes() -> (r: Vec<u8>)
    ensures
        r@ == connection_close_line(),
{
    let r: Vec<u8> = vec![
        'C' as u8, 'o' as u8, 'n' as u8, 'n' as u8, 'e' as u8, 'c' as u8, 't' as u8, 'i' as u8,
        'o' as u8, 'n' as u8, ':' as u8, ' ' as u8, 'c' as u8, 'l' as u8, 'o' as u8, 's' as u8,
        'e' as u8, ' ' as u8, '\r' as u8, '\n' as u8,
    ];
    assert(r@ =~= connection_close_line());
    r
}


proof fn lemma_pair_views_push(hs: Seq<(Vec<u8>, Vec<u8>)>, p: (Vec<u8>, Vec<u8>))
    ensures
        pair_views(hs.push(p)) == pair_views(hs).push((p.0@, p.1@)),
{
    assert(pair_views(hs.push(p)) =~= pair_views(hs).push((p.0@, p.1@)));
}

impl Response {
    /// A response with the given status code, no headers and an empty body;
    /// `None` where `http` refuses the code.
    pub fn with_status(status: u16) -> (r: Option<Response>)
        ensures
            r.is_some() == (100 <= status <= 999),
            r matches Some(q) ==> q@ == (ResponseView {
                status,
                headers: Seq::empty(),
                body: Seq::empty(),
            }),
    {
        if !status_accepted(status) {
            return None;
        }
        let q = Response { status, headers: Vec::new(), body: Vec::new() };
        assert(pair_views(q.headers@) =~= Seq::<(Seq<u8>, Seq<u8>)>::empty());
        Some(q)
    }

    /// The response with header `name` set to `value`; the name is stored in
    /// lower case. `None` where `http` refuses the name or the value.
    pub fn with_header(self, name: &[u8], value: &[u8]) -> (r: Option<Response>)
        ensures
            r.is_some() == (valid_header_name(name@) && valid_header_value(value@)),
            r matches Some(q) ==> q@ == (ResponseView {
                status: self@.status,
                headers: set_header(self@.headers, lowered(name@), value@),
                body: self@.body,
            }),
    {
        let n = match header_name(name) {
            Some(n) => n,
            None => {
                return None;
            },
        };
        if !header_value_accepted(value) {
            return None;
        }
        let mut q = self;
        let ghost hv = pair_views(q.headers@);
        let mut i: usize = 0;
        while i < q.headers.len() && !same_bytes(q.headers[i].0.as_slice(), n.as_slice())
            invariant
                i <= q.headers@.len(),
                hv == pair_views(q.headers@),
                name_index(hv, n@, i as int) == name_index(hv, n@, 0),
            decreases q.headers@.len() - i,
        {
            i = i + 1;
        }
        let v = vstd::slice::slice_to_vec(value);
        let ghost kv = (n@, v@);
        if i < q.headers.len() {
            q.headers.set(i, (n, v));
            assert(pair_views(q.headers@) =~= hv.update(i as int, kv));
        } else {
            proof {
                lemma_pair_views_push(q.headers@, (n, v));
            }
            q.headers.push((n, v));
        }
        Some(q)
    }

    /// The response with the given body.
    pub fn with_body(self, body: Vec<u8>) -> (r: Response)
        ensures
            r@ == (ResponseView { status: self@.status, headers: self@.headers, body: body@ }),
    {
        let mut q = self;
        q.body = body;
        q
    }

    pub fn status(&self) -> (r: u16)
        ensures
            r == self@.status,
    {
        self.status
    }

    pub fn body(&self) -> (r: &[u8])
        ensures
            r@ == self@.body,
    {
        self.body.as_slice()
    }

    /// The bytes that are sent for this response.
    pub fn to_bytes(&self) -> (r: Vec<u8>)
        requires
            self@.wf(),
        ensures
            r@ == wire(self@),
    {
        let reason = reason_of(self.status);
        self.to_bytes_with_reason(reason.as_slice())
    }

    /// The bytes that are sent for this response when its status line
    /// carries the given reason phrase.
    pub fn to_bytes_with_reason(&self, reason: &[u8]) -> (r: Vec<u8>)
        requires
            self@.wf(),
        ensures
            r@ == wire_with_reason(self@, reason@),
    {
        let mut out = status_line_of(self.status, reason);
        let ghost hv = pair_views(self.headers@);
        let mut i: usize = 0;
        while i < self.headers.len()
            invariant
                i <= self.headers@.len(),
                hv == pair_views(self.headers@),
                out@ == status_line_with(self.status, reason@) + header_lines(hv.subrange(0, i as int)),
            decreases self.headers@.len() - i,
        {
            let (name, value) = (&self.headers[i].0, &self.headers[i].1);
            if value.len() > 0 {
                append(&mut out, name.as_slice());
                out.push(':' as u8);
                out.push(' ' as u8);
                append(&mut out, value.as_slice());
                let end = crlf_bytes();
                append(&mut out, end.as_slice());
            }
            proof {
                let sub = hv.subrange(0, i + 1);
                assert(sub.drop_last() =~= hv.subrange(0, i as int));
                assert(sub.last() == hv[i as int]);
            }
            i = i + 1;
            assert(out@ =~= status_line_with(self.status, reason@) + header_lines(hv.subrange(0, i as int)));
        }
        assert(hv.subrange(0, hv.len() as int) =~= hv);
        let close = connection_close_bytes();
        append(&mut out, close.as_slice());
        let end = crlf_bytes();
        append(&mut out, end.as_slice());
        append(&mut out, self.body.as_slice());
        assert(out@ =~= wire_with_reason(self@, reason@));
        out
    }
}


} // verus!
