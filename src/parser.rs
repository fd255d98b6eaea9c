//! Request parsing: a request line and header lines, read from raw bytes.

use vstd::prelude::*;
use vstd::slice::{slice_subrange, slice_to_vec};

use crate::interop::{method_accepted, method_byte, parse_uri, uri_accepts, valid_method};

verus! {

/// Why a request could not be parsed.
#[derive(Debug, Clone, Copy, PartialEq, Eq, Structural)]
pub enum ParseError {
    /// There is no request line at all.
    EmptyRequest,
    /// The request line holds no method token. Splitting a line on spaces
    /// always yields a first token, so parsing never reports this.
    MissingMethod,
    /// The request line holds no path token.
    MissingRequestPath,
    /// A header line has an empty name before `": "`.
    MissingHeaderKey,
    /// A header line has no `": "` separator.
    MissingHeaderValue,
    /// The method is not a token, or the path is not a URI.
    InvalidRequest,
}

/// What a parsed request holds.
pub struct RequestView {
    pub method: Seq<u8>,
    pub path: Seq<u8>,
    pub headers: Map<Seq<u8>, Seq<u8>>,
}

/// A parsed request: method, path and headers (no body).
pub struct Request {
    method: Vec<u8>,
    path: Vec<u8>,
    headers: Vec<(Vec<u8>, Vec<u8>)>,
}

/// The mapping that a list of header pairs stands for: later pairs overwrite
/// earlier ones with the same name.
pub open spec fn header_map(hs: Seq<(Vec<u8>, Vec<u8>)>) -> Map<Seq<u8>, Seq<u8>>
    decreases hs.len(),
{
    if hs.len() == 0 {
        Map::empty()
    } else {
        header_map(hs.drop_last()).insert(hs.last().0@, hs.last().1@)
    }
}

impl View for Request {
    type V = RequestView;

    closed spec fn view(&self) -> RequestView {
        RequestView { method: self.method@, path: self.path@, headers: header_map(self.headers@) }
    }
}

pub open spec fn lf() -> u8 {
    '\n' as u8
}

pub open spec fn cr() -> u8 {
    '\r' as u8
}

pub open spec fn sp() -> u8 {
    ' ' as u8
}

/// The first index at or after `from` where `b` occurs, or the length.
pub open spec fn find_from(s: Seq<u8>, b: u8, from: int) -> int
    decreases s.len() - from,
{
    if from >= s.len() {
        s.len() as int
    } else if s[from] == b {
        from
    } else {
        find_from(s, b, from + 1)
    }
}

/// A line ended by LF loses one carriage return before it.
pub open spec fn strip_cr(l: Seq<u8>) -> Seq<u8> {
    if l.len() > 0 && l.last() == cr() {
        l.drop_last()
    } else {
        l
    }
}

/// The first index at or after `from` where `": "` starts, or the length.
pub open spec fn find_sep(l: Seq<u8>, from: int) -> int
    decreases l.len() - from,
{
    if from + 1 >= l.len() {
        l.len() as int
    } else if l[from] == (':' as u8) && l[from + 1] == sp() {
        from
    } else {
        find_sep(l, from + 1)
    }
}

/// A non-empty header line split on its first `": "`.
pub open spec fn header_line_spec(l: Seq<u8>) -> Result<(Seq<u8>, Seq<u8>), ParseError> {
    let i = find_sep(l, 0);
    if i >= l.len() {
        Err(ParseError::MissingHeaderValue)
    } else if i == 0 {
        Err(ParseError::MissingHeaderKey)
    } else {
        Ok((l.subrange(0, i), l.subrange(i + 2, l.len() as int)))
    }
}

/// One header line added to the headers read so far.
pub open spec fn take_header(l: Seq<u8>, acc: Map<Seq<u8>, Seq<u8>>) -> Result<
    Map<Seq<u8>, Seq<u8>>,
    ParseError,
> {
    match header_line_spec(l) {
        Ok(kv) => Ok(acc.insert(kv.0, kv.1)),
        Err(e) => Err(e),
    }
}

/// The headers read from the line that starts at `start`, scanning at `pos`,
/// up to a blank line or the end of the input.
pub open spec fn headers_from(s: Seq<u8>, start: int, pos: int, acc: Map<Seq<u8>, Seq<u8>>) -> Result<
    Map<Seq<u8>, Seq<u8>>,
    ParseError,
>
    decreases s.len() - pos,
{
    if pos >= s.len() {
        if start >= s.len() {
            Ok(acc)
        } else {
            take_header(s.subrange(start, s.len() as int), acc)
        }
    } else if s[pos] == lf() {
        let l = strip_cr(s.subrange(start, pos));
        if l.len() == 0 {
            Ok(acc)
        } else {
            match take_header(l, acc) {
                Ok(m) => headers_from(s, pos + 1, pos + 1, m),
                Err(e) => Err(e),
            }
        }
    } else {
        headers_from(s, start, pos + 1, acc)
    }
}

/// Method and path of a request line: the first two space-separated tokens.
/// Splitting always yields a first token (possibly empty), so the method is
/// never absent; a line without a space has no path.
pub open spec fn request_line_spec(l: Seq<u8>) -> Result<(Seq<u8>, Seq<u8>), ParseError> {
    let sp1 = find_from(l, sp(), 0);
    if sp1 >= l.len() {
        Err(ParseError::MissingRequestPath)
    } else {
        let sp2 = find_from(l, sp(), sp1 + 1);
        Ok((l.subrange(0, sp1), l.subrange(sp1 + 1, sp2)))
    }
}

/// The first line of the input, and where the next one starts.
pub open spec fn first_line(s: Seq<u8>) -> (Seq<u8>, int) {
    let e = find_from(s, lf(), 0);
    if e < s.len() {
        (strip_cr(s.subrange(0, e)), e + 1)
    } else {
        (s, s.len() as int)
    }
}

/// What parsing the bytes of a request gives.
pub open spec fn parse_spec(s: Seq<u8>) -> Result<RequestView, ParseError> {
    if s.len() == 0 {
        Err(ParseError::EmptyRequest)
    } else {
        let (l, next) = first_line(s);
        match request_line_spec(l) {
            Err(e) => Err(e),
            Ok(mp) => match headers_from(s, next, next, Map::empty()) {
                Err(e) => Err(e),
                Ok(h) => if valid_method(mp.0) && uri_accepts(mp.1) {
                    Ok(RequestView { method: mp.0, path: mp.1, headers: h })
                } else {
                    Err(ParseError::InvalidRequest)
                },
            },
        }
    }
}

/// Whether a line read from a connection ends the request head: it is blank
/// once its line ending is taken off.
pub open spec fn blank_line(l: Seq<u8>) -> bool {
    l.len() == 0 || l =~= seq![lf()] || l =~= seq![cr(), lf()]
}

fn copy_range(s: &[u8], lo: usize, hi: usize) -> (r: Vec<u8>)
    requires
        lo <= hi <= s@.len(),
    ensures
        r@ == s@.subrange(lo as int, hi as int),
{
    let mut r: Vec<u8> = Vec::new();
    let mut i: usize = lo;
    while i < hi
        invariant
            lo <= i <= hi <= s@.len(),
            r@ == s@.subrange(lo as int, i as int),
        decreases hi - i,
    {
        r.push(s[i]);
        i = i + 1;
        assert(r@ =~= s@.subrange(lo as int, i as int));
    }
    r
}

/// Index of the first `b` at or after `from`, or the length.
fn find_byte(s: &[u8], b: u8, from: usize) -> (r: usize)
    requires
        from <= s@.len(),
    ensures
        r as int == find_from(s@, b, from as int),
        from <= r <= s@.len(),
        r < s@.len() ==> s@[r as int] == b,
{
    let mut i: usize = from;
    while i < s.len() && s[i] != b
        invariant
            from <= i <= s@.len(),
            find_from(s@, b, i as int) == find_from(s@, b, from as int),
        decreases s@.len() - i,
    {
        i = i + 1;
    }
    i
}

fn split_header_line(l: &[u8]) -> (r: Result<(Vec<u8>, Vec<u8>), ParseError>)
    ensures
        match header_line_spec(l@) {
            Ok(kv) => r matches Ok(p) && p.0@ == kv.0 && p.1@ == kv.1,
            Err(e) => r == Err::<(Vec<u8>, Vec<u8>), ParseError>(e),
        },
{
    let mut i: usize = 0;
    while l.len() > 0 && i < l.len() - 1 && !(l[i] == (':' as u8) && l[i + 1] == (' ' as u8))
        invariant
            i <= l@.len(),
            find_sep(l@, i as int) == find_sep(l@, 0),
        decreases l@.len() - i,
    {
        i = i + 1;
    }
    if l.len() == 0 || i >= l.len() - 1 {
        Err(ParseError::MissingHeaderValue)
    } else if i == 0 {
        Err(ParseError::MissingHeaderKey)
    } else {
        Ok((copy_range(l, 0, i), copy_range(l, i + 2, l.len())))
    }
}

fn parse_request_line(l: &[u8]) -> (r: Result<(Vec<u8>, Vec<u8>), ParseError>)
    ensures
        match request_line_spec(l@) {
            Ok(mp) => r matches Ok(p) && p.0@ == mp.0 && p.1@ == mp.1,
            Err(e) => r == Err::<(Vec<u8>, Vec<u8>), ParseError>(e),
        },
{
    let sp1 = find_byte(l, ' ' as u8, 0);
    if sp1 >= l.len() {
        return Err(ParseError::MissingRequestPath);
    }
    let sp2 = find_byte(l, ' ' as u8, sp1 + 1);
    Ok((copy_range(l, 0, sp1), copy_range(l, sp1 + 1, sp2)))
}


pub open spec fn get_method() -> Seq<u8> {
    seq!['G' as u8, 'E' as u8, 'T' as u8]
}

proof fn lemma_header_map_push(hs: Seq<(Vec<u8>, Vec<u8>)>, p: (Vec<u8>, Vec<u8>))
    ensures
        header_map(hs.push(p)) == header_map(hs).insert(p.0@, p.1@),
{
    assert(hs.push(p).drop_last() =~= hs);
}

/// Pairs after `i` whose names differ from `k` leave the value at `k` as the
/// first `i` pairs set it.
proof fn lemma_header_map_prefix(hs: Seq<(Vec<u8>, Vec<u8>)>, i: int, k: Seq<u8>)
    requires
        0 <= i <= hs.len(),
        forall|j: int| i <= j < hs.len() ==> (#[trigger] hs[j]).0@ != k,
    ensures
        header_map(hs).contains_key(k) == header_map(hs.subrange(0, i)).contains_key(k),
        header_map(hs)[k] == header_map(hs.subrange(0, i))[k],
    decreases hs.len(),
{
    if hs.len() == i {
        assert(hs.subrange(0, i) =~= hs);
    } else {
        let d = hs.drop_last();
        assert(d.subrange(0, i) =~= hs.subrange(0, i));
        assert(hs[hs.len() - 1].0@ != k);
        lemma_header_map_prefix(d, i, k);
    }
}

/// Scanning bytes that are not LF does not change what the header scan gives.
proof fn lemma_skip_to_lf(s: Seq<u8>, start: int, pos: int, acc: Map<Seq<u8>, Seq<u8>>)
    requires
        0 <= pos <= s.len(),
    ensures
        headers_from(s, start, pos, acc) == headers_from(s, start, find_from(s, lf(), pos), acc),
    decreases s.len() - pos,
{
    if pos < s.len() && s[pos] != lf() {
        lemma_skip_to_lf(s, start, pos + 1, acc);
    }
}

pub(crate) fn same_bytes(a: &[u8], b: &[u8]) -> (r: bool)
    ensures
        r == (a@ == b@),
{
    if a.len() != b.len() {
        return false;
    }
    let mut i: usize = 0;
    while i < a.len()
        invariant
            a@.len() == b@.len(),
            i <= a@.len(),
            forall|j: int| 0 <= j < i ==> a@[j] == b@[j],
        decreases a@.len() - i,
    {
        if a[i] != b[i] {
            return false;
        }
        i = i + 1;
    }
    assert(a@ =~= b@);
    true
}

fn read_headers(s: &[u8], from: usize) -> (r: Result<Vec<(Vec<u8>, Vec<u8>)>, ParseError>)
    requires
        from <= s@.len(),
    ensures
        match headers_from(s@, from as int, from as int, Map::empty()) {
            Ok(m) => r matches Ok(h) && header_map(h@) == m,
            Err(e) => r matches Err(f) && f == e,
        },
{
    let ghost whole = headers_from(s@, from as int, from as int, Map::empty());
    let mut acc: Vec<(Vec<u8>, Vec<u8>)> = Vec::new();
    let mut start: usize = from;
    assert(header_map(acc@) =~= Map::<Seq<u8>, Seq<u8>>::empty());
    loop
        invariant
            from <= start <= s@.len(),
            whole == headers_from(s@, from as int, from as int, Map::empty()),
            headers_from(s@, start as int, start as int, header_map(acc@)) == whole,
        decreases s@.len() - start,
    {
        let j = find_byte(s, '\n' as u8, start);
        proof {
            lemma_skip_to_lf(s@, start as int, start as int, header_map(acc@));
        }
        if j >= s.len() {
            if start >= s.len() {
                return Ok(acc);
            }
            let l = slice_subrange(s, start, s.len());
            match split_header_line(l) {
                Ok(kv) => {
                    proof {
                        lemma_header_map_push(acc@, kv);
                    }
                    acc.push(kv);
                    return Ok(acc);
                },
                Err(e) => {
                    return Err(e);
                },
            }
        }
        let le: usize = if j > start && s[j - 1] == ('\r' as u8) {
            j - 1
        } else {
            j
        };
        let l = slice_subrange(s, start, le);
        assert(l@ =~= strip_cr(s@.subrange(start as int, j as int)));
        if l.len() == 0 {
            return Ok(acc);
        }
        match split_header_line(l) {
            Ok(kv) => {
                proof {
                    lemma_header_map_push(acc@, kv);
                }
                acc.push(kv);
            },
            Err(e) => {
                return Err(e);
            },
        }
        start = j + 1;
    }
}

/// Parses the request line and the header lines of a request.
pub fn parse_request(input: &[u8]) -> (r: Result<Request, ParseError>)
    ensures
        match parse_spec(input@) {
            Ok(v) => r matches Ok(q) && q@ == v,
            Err(e) => r matches Err(f) && f == e,
        },
{
    if input.len() == 0 {
        return Err(ParseError::EmptyRequest);
    }
    let e = find_byte(input, '\n' as u8, 0);
    let line_end: usize = if e < input.len() && e > 0 && input[e - 1] == ('\r' as u8) {
        e - 1
    } else {
        e
    };
    let next: usize = if e < input.len() {
        e + 1
    } else {
        e
    };
    let line = slice_subrange(input, 0, line_end);
    assert(line@ =~= first_line(input@).0);
    let (method, path) = match parse_request_line(line) {
        Ok(mp) => mp,
        Err(e) => {
            return Err(e);
        },
    };
    let headers = match read_headers(input, next) {
        Ok(h) => h,
        Err(e) => {
            return Err(e);
        },
    };
    if !method_accepted(method.as_slice()) || parse_uri(path.as_slice()).is_none() {
        return Err(ParseError::InvalidRequest);
    }
    Ok(Request { method, path, headers })
}

/// Whether a line read from a connection, with its line ending, is the
/// blank line that ends a request head.
pub fn ends_head(line: &[u8]) -> (r: bool)
    ensures
        r == blank_line(line@),
{
    let n = line.len();
    if n == 0 {
        true
    } else if n == 1 {
        line[0] == ('\n' as u8)
    } else if n == 2 {
        line[0] == ('\r' as u8) && line[1] == ('\n' as u8)
    } else {
        false
    }
}

impl Request {
    /// A request with the given method and path and no headers.
    pub fn new(method: &[u8], path: &[u8]) -> (r: Result<Request, ParseError>)
        ensures
            (valid_method(method@) && uri_accepts(path@)) == r.is_ok(),
            r matches Ok(q) ==> q@ == (RequestView {
                method: method@,
                path: path@,
                headers: Map::empty(),
            }),
            r matches Err(e) ==> e == ParseError::InvalidRequest,
    {
        if !method_accepted(method) || parse_uri(path).is_none() {
            return Err(ParseError::InvalidRequest);
        }
        let q = Request {
            method: slice_to_vec(method),
            path: slice_to_vec(path),
            headers: Vec::new(),
        };
        assert(header_map(q.headers@) =~= Map::<Seq<u8>, Seq<u8>>::empty());
        Ok(q)
    }

    /// The request with one more header; an earlier value for the name is replaced.
    pub fn with_header(self, name: &[u8], value: &[u8]) -> (r: Request)
        ensures
            r@ == (RequestView {
                method: self@.method,
                path: self@.path,
                headers: self@.headers.insert(name@, value@),
            }),
    {
        let mut q = self;
        let kv = (slice_to_vec(name), slice_to_vec(value));
        proof {
            lemma_header_map_push(q.headers@, kv);
        }
        q.headers.push(kv);
        q
    }

    pub fn method(&self) -> (r: &[u8])
        ensures
            r@ == self@.method,
    {
        self.method.as_slice()
    }

    pub fn path(&self) -> (r: &[u8])
        ensures
            r@ == self@.path,
    {
        self.path.as_slice()
    }

    pub fn is_get(&self) -> (r: bool)
        ensures
            r == (self@.method == get_method()),
    {
        let m = self.method.as_slice();
        let r = m.len() == 3 && m[0] == ('G' as u8) && m[1] == ('E' as u8) && m[2] == ('T' as u8);
        assert(r ==> m@ =~= get_method());
        r
    }

    /// The value of a header, looked up by its exact name.
    pub fn header(&self, name: &[u8]) -> (r: Option<&[u8]>)
        ensures
            r.is_some() == self@.headers.contains_key(name@),
            r matches Some(v) ==> v@ == self@.headers[name@],
    {
        let hs = &self.headers;
        let mut i: usize = hs.len();
        while i > 0
            invariant
                hs == &self.headers,
                i <= hs@.len(),
                forall|j: int| i <= j < hs@.len() ==> (#[trigger] hs@[j]).0@ != name@,
            decreases i,
        {
            if same_bytes(hs[i - 1].0.as_slice(), name) {
                proof {
                    lemma_header_map_prefix(hs@, i as int, name@);
                    let sub = hs@.subrange(0, i as int);
                    assert(sub.drop_last() =~= hs@.subrange(0, i - 1));
                    assert(sub.last() == hs@[i - 1]);
                    assert(hs@[i - 1].0@ == name@);
                    assert(header_map(sub) == header_map(sub.drop_last()).insert(
                        sub.last().0@,
                        sub.last().1@,
                    ));
                }
                return Some(hs[i - 1].1.as_slice());
            }
            i = i - 1;
        }
        proof {
            lemma_header_map_prefix(hs@, 0, name@);
            assert(hs@.subrange(0, 0) =~= Seq::<(Vec<u8>, Vec<u8>)>::empty());
        }
        None
    }
}


pub open spec fn crlf() -> Seq<u8> {
    seq![cr(), lf()]
}

/// Neither a space nor a line feed occurs in `s`.
pub open spec fn token_bytes(s: Seq<u8>) -> bool {
    forall|i: int| 0 <= i < s.len() ==> s[i] != sp() && s[i] != lf()
}

/// No line feed occurs in `s`.
pub open spec fn within_line(s: Seq<u8>) -> bool {
    forall|i: int| 0 <= i < s.len() ==> s[i] != lf()
}

/// `": "` starts at index `k` of `l`.
pub open spec fn is_sep(l: Seq<u8>, k: int) -> bool {
    0 <= k && k + 1 < l.len() && l[k] == (':' as u8) && l[k + 1] == sp()
}

proof fn lemma_find_from_at(s: Seq<u8>, b: u8, from: int, to: int)
    requires
        0 <= from <= to <= s.len(),
        forall|k: int| from <= k < to ==> s[k] != b,
        to < s.len() ==> s[to] == b,
    ensures
        find_from(s, b, from) == to,
    decreases to - from,
{
    if from < to {
        lemma_find_from_at(s, b, from + 1, to);
    }
}

proof fn lemma_find_sep_at(l: Seq<u8>, from: int, to: int)
    requires
        0 <= from <= to <= l.len(),
        forall|k: int| from <= k < to ==> !is_sep(l, k),
        to == l.len() || is_sep(l, to),
    ensures
        find_sep(l, from) == to,
    decreases to - from,
{
    if from < to && from + 1 < l.len() {
        assert(!is_sep(l, from));
        lemma_find_sep_at(l, from + 1, to);
    }
}

/// Header lines, each ended by CRLF.
pub open spec fn header_block(hs: Seq<Seq<u8>>) -> Seq<u8>
    decreases hs.len(),
{
    if hs.len() == 0 {
        Seq::empty()
    } else {
        hs[0] + crlf() + header_block(hs.drop_first())
    }
}

/// The header lines taken in order, stopping at the first that fails.
pub open spec fn fold_headers(hs: Seq<Seq<u8>>, acc: Map<Seq<u8>, Seq<u8>>) -> Result<
    Map<Seq<u8>, Seq<u8>>,
    ParseError,
>
    decreases hs.len(),
{
    if hs.len() == 0 {
        Ok(acc)
    } else {
        match take_header(hs[0], acc) {
            Ok(m) => fold_headers(hs.drop_first(), m),
            Err(e) => Err(e),
        }
    }
}

/// Each line is a non-empty part of one line.
pub open spec fn header_lines_shape(hs: Seq<Seq<u8>>) -> bool {
    forall|i: int| 0 <= i < hs.len() ==> (#[trigger] hs[i]).len() > 0 && within_line(hs[i])
}

proof fn lemma_header_block(
    s: Seq<u8>,
    start: int,
    hs: Seq<Seq<u8>>,
    end: Seq<u8>,
    acc: Map<Seq<u8>, Seq<u8>>,
)
    requires
        0 <= start,
        end == crlf() || (end.len() == 0 && start + header_block(hs).len() == s.len()),
        start + header_block(hs).len() + end.len() <= s.len(),
        s.subrange(start, start + header_block(hs).len() + end.len()) == header_block(hs) + end,
        header_lines_shape(hs),
    ensures
        headers_from(s, start, start, acc) == fold_headers(hs, acc),
    decreases hs.len(),
{
    let b = header_block(hs) + end;
    assert forall|k: int| 0 <= k < b.len() implies s[start + k] == b[k] by {
        assert(s.subrange(start, start + b.len())[k] == s[start + k]);
    }
    if hs.len() == 0 && end.len() == 0 {
    } else if hs.len() == 0 {
        assert(s[start] == cr());
        assert(s[start + 1] == lf());
        assert(s.subrange(start, start + 1) =~= seq![cr()]);
        assert(headers_from(s, start, start + 1, acc) == Ok::<Map<Seq<u8>, Seq<u8>>, ParseError>(
            acc,
        ));
    } else {
        let h = hs[0];
        let rest = hs.drop_first();
        let tail = header_block(rest) + end;
        assert(b =~= h + crlf() + tail);
        let j = start + h.len() + 1;
        assert(within_line(h));
        assert forall|k: int| start <= k < j implies s[k] != lf() by {
            if k < start + h.len() {
                assert(s[k] == b[k - start]);
                assert(b[k - start] == h[k - start]);
            } else {
                assert(s[k] == b[h.len() as int]);
            }
        }
        assert(s[j] == b[h.len() as int + 1]);
        lemma_find_from_at(s, lf(), start, j);
        lemma_skip_to_lf(s, start, start, acc);
        assert(s.subrange(start, j) =~= h.push(cr())) by {
            assert forall|k: int| 0 <= k < h.len() + 1 implies s.subrange(start, j)[k] == h.push(
                cr(),
            )[k] by {
                assert(s[start + k] == b[k]);
            }
        }
        assert(h.push(cr()).drop_last() =~= h);
        assert forall|i: int| 0 <= i < rest.len() implies (#[trigger] rest[i]).len() > 0
            && within_line(rest[i]) by {
            assert(rest[i] == hs[i + 1]);
        }
        assert(s.subrange(j + 1, j + 1 + tail.len()) =~= tail) by {
            assert forall|k: int| 0 <= k < tail.len() implies s.subrange(j + 1, j + 1 + tail.len())[k]
                == tail[k] by {
                assert(s[j + 1 + k] == b[h.len() as int + 2 + k]);
            }
        }
        match take_header(h, acc) {
            Ok(m) => {
                lemma_header_block(s, j + 1, rest, end, m);
            },
            Err(e) => {},
        }
    }
}

/// A request line `<method> <path>` followed by header lines, then either a
/// blank line and any bytes, or the end of the input.
proof fn lemma_head(m: Seq<u8>, p: Seq<u8>, hs: Seq<Seq<u8>>, end: Seq<u8>, rest: Seq<u8>)
    requires
        end == crlf() || (end.len() == 0 && rest.len() == 0),
        valid_method(m),
        uri_accepts(p),
        token_bytes(p),
        header_lines_shape(hs),
    ensures
        parse_spec(m + seq![sp()] + p + crlf() + header_block(hs) + end + rest) == match fold_headers(
            hs,
            Map::empty(),
        ) {
            Ok(h) => Ok(RequestView { method: m, path: p, headers: h }),
            Err(e) => Err(e),
        },
{
    let line = m + seq![sp()] + p;
    let s = line + crlf() + header_block(hs) + end + rest;
    let n = line.len() as int;
    assert forall|k: int| 0 <= k < n implies line[k] != lf() by {
        if k < m.len() {
            assert(method_byte(m[k]));
        } else if k > m.len() {
            assert(line[k] == p[k - m.len() - 1]);
        }
    }
    assert forall|k: int| 0 <= k < n + 1 implies s[k] != lf() by {
        if k < n {
            assert(s[k] == line[k]);
        }
    }
    lemma_find_from_at(s, lf(), 0, n + 1);
    assert(s.subrange(0, n + 1) =~= line.push(cr()));
    assert(line.push(cr()).drop_last() =~= line);
    assert(first_line(s) == (line, n + 2));
    assert forall|k: int| 0 <= k < m.len() implies line[k] != sp() by {
        assert(method_byte(m[k]));
    }
    lemma_find_from_at(line, sp(), 0, m.len() as int);
    assert forall|k: int| m.len() + 1 <= k < n implies line[k] != sp() by {
        assert(line[k] == p[k - m.len() - 1]);
    }
    lemma_find_from_at(line, sp(), m.len() as int + 1, n as int);
    assert(line.subrange(0, m.len() as int) =~= m);
    assert(line.subrange(m.len() as int + 1, n as int) =~= p);
    assert(request_line_spec(line) == Ok::<(Seq<u8>, Seq<u8>), ParseError>((m, p)));
    let tail = header_block(hs) + end;
    assert(s =~= line + crlf() + tail + rest);
    assert(s.subrange(n + 2, n + 2 + tail.len()) =~= tail);
    lemma_header_block(s, n + 2, hs, end, Map::empty());
}

/// A request line `<method> <path>` followed by header lines and a blank
/// line: the headers are the lines taken in order, and the first line that
/// fails gives the error.
pub proof fn lemma_header_lines(m: Seq<u8>, p: Seq<u8>, hs: Seq<Seq<u8>>)
    requires
        valid_method(m),
        uri_accepts(p),
        token_bytes(p),
        header_lines_shape(hs),
    ensures
        parse_spec(m + seq![sp()] + p + crlf() + header_block(hs) + crlf()) == match fold_headers(
            hs,
            Map::empty(),
        ) {
            Ok(h) => Ok(RequestView { method: m, path: p, headers: h }),
            Err(e) => Err(e),
        },
{
    lemma_head(m, p, hs, crlf(), Seq::empty());
    assert(m + seq![sp()] + p + crlf() + header_block(hs) + crlf() + Seq::empty() =~= m + seq![
        sp(),
    ] + p + crlf() + header_block(hs) + crlf());
}

/// The blank line ends the headers: whatever bytes follow it play no part.
pub proof fn lemma_blank_line_ends_headers(m: Seq<u8>, p: Seq<u8>, hs: Seq<Seq<u8>>, rest: Seq<u8>)
    requires
        valid_method(m),
        uri_accepts(p),
        token_bytes(p),
        header_lines_shape(hs),
    ensures
        parse_spec(m + seq![sp()] + p + crlf() + header_block(hs) + crlf() + rest) == parse_spec(
            m + seq![sp()] + p + crlf() + header_block(hs) + crlf(),
        ),
{
    lemma_head(m, p, hs, crlf(), rest);
    lemma_header_lines(m, p, hs);
}

/// Input that ends after header lines, with no blank line, parses as if the
/// blank line were there.
pub proof fn lemma_end_of_input_ends_headers(m: Seq<u8>, p: Seq<u8>, hs: Seq<Seq<u8>>)
    requires
        valid_method(m),
        uri_accepts(p),
        token_bytes(p),
        header_lines_shape(hs),
    ensures
        parse_spec(m + seq![sp()] + p + crlf() + header_block(hs)) == parse_spec(
            m + seq![sp()] + p + crlf() + header_block(hs) + crlf(),
        ),
{
    lemma_head(m, p, hs, Seq::empty(), Seq::empty());
    assert(m + seq![sp()] + p + crlf() + header_block(hs) + Seq::empty() + Seq::empty() =~= m
        + seq![sp()] + p + crlf() + header_block(hs));
    lemma_header_lines(m, p, hs);
}

/// A request line `<method> <path> <rest>` ended by CRLF and followed by a
/// blank line: the method and path are the first two tokens, whatever they
/// hold, and the rest of the line plays no part.
proof fn lemma_request_line_tokens(m: Seq<u8>, p: Seq<u8>, v: Seq<u8>)
    requires
        token_bytes(m),
        token_bytes(p),
        within_line(v),
    ensures
        parse_spec(m + seq![sp()] + p + seq![sp()] + v + crlf() + crlf()) == if valid_method(m)
            && uri_accepts(p) {
            Ok::<RequestView, ParseError>(RequestView { method: m, path: p, headers: Map::empty() })
        } else {
            Err(ParseError::InvalidRequest)
        },
{
    let line = m + seq![sp()] + p + seq![sp()] + v;
    let s = line + crlf() + crlf();
    let n = line.len() as int;
    let q = m.len() + 1 + p.len() as int;
    assert forall|k: int| 0 <= k < n implies line[k] != lf() by {
        if k < m.len() {
            assert(line[k] == m[k]);
        } else if m.len() < k < q {
            assert(line[k] == p[k - m.len() - 1]);
        } else if k > q {
            assert(line[k] == v[k - q - 1]);
        }
    }
    assert forall|k: int| 0 <= k < n + 1 implies s[k] != lf() by {
        if k < n {
            assert(s[k] == line[k]);
        }
    }
    lemma_find_from_at(s, lf(), 0, n + 1);
    assert(s.subrange(0, n + 1) =~= line.push(cr()));
    assert(line.push(cr()).drop_last() =~= line);
    assert(first_line(s) == (line, n + 2));
    assert forall|k: int| 0 <= k < m.len() implies line[k] != sp() by {
        assert(line[k] == m[k]);
    }
    lemma_find_from_at(line, sp(), 0, m.len() as int);
    assert forall|k: int| m.len() + 1 <= k < q implies line[k] != sp() by {
        assert(line[k] == p[k - m.len() - 1]);
    }
    lemma_find_from_at(line, sp(), m.len() as int + 1, q);
    assert(line.subrange(0, m.len() as int) =~= m);
    assert(line.subrange(m.len() as int + 1, q) =~= p);
    assert(request_line_spec(line) == Ok::<(Seq<u8>, Seq<u8>), ParseError>((m, p)));
    let start = n + 2;
    assert(s[start] == cr());
    assert(s[start + 1] == lf());
    assert(s.subrange(start, start + 1) =~= seq![cr()]);
    assert(headers_from(s, start, start + 1, Map::empty()) == Ok::<
        Map<Seq<u8>, Seq<u8>>,
        ParseError,
    >(Map::empty()));
}

/// A request line `<method> <path> <rest>` ended by CRLF and followed by a
/// blank line parses to that method and path, with no headers, whatever the
/// rest of the line holds.
pub proof fn lemma_request_line(m: Seq<u8>, p: Seq<u8>, v: Seq<u8>)
    requires
        valid_method(m),
        uri_accepts(p),
        token_bytes(p),
        within_line(v),
    ensures
        parse_spec(m + seq![sp()] + p + seq![sp()] + v + crlf() + crlf()) == Ok::<
            RequestView,
            ParseError,
        >(RequestView { method: m, path: p, headers: Map::empty() }),
{
    assert forall|i: int| 0 <= i < m.len() implies m[i] != sp() && m[i] != lf() by {
        assert(method_byte(m[i]));
    }
    lemma_request_line_tokens(m, p, v);
}

/// Two requests that differ only in what follows the path on the request
/// line (the version token and any further tokens) parse alike, whatever
/// the method and path hold.
pub proof fn lemma_version_ignored(m: Seq<u8>, p: Seq<u8>, v1: Seq<u8>, v2: Seq<u8>)
    requires
        token_bytes(m),
        token_bytes(p),
        within_line(v1),
        within_line(v2),
    ensures
        parse_spec(m + seq![sp()] + p + seq![sp()] + v1 + crlf() + crlf()) == parse_spec(
            m + seq![sp()] + p + seq![sp()] + v2 + crlf() + crlf(),
        ),
{
    lemma_request_line_tokens(m, p, v1);
    lemma_request_line_tokens(m, p, v2);
}

/// Input without a request line fails with `EmptyRequest`.
pub proof fn lemma_empty_input()
    ensures
        parse_spec(Seq::empty()) == Err::<RequestView, ParseError>(ParseError::EmptyRequest),
{
}

/// A header line is split on its first `": "`: the name is what comes
/// before it and the value what comes after; a line without one fails with
/// `MissingHeaderValue` (and one that starts with it, with `MissingHeaderKey`).
pub proof fn lemma_header_split(m: Seq<u8>, p: Seq<u8>, h: Seq<u8>)
    requires
        valid_method(m),
        uri_accepts(p),
        token_bytes(p),
        h.len() > 0,
        within_line(h),
    ensures
        (forall|k: int| 0 <= k < h.len() ==> !is_sep(h, k)) ==> parse_spec(
            m + seq![sp()] + p + crlf() + h + crlf() + crlf(),
        ) == Err::<RequestView, ParseError>(ParseError::MissingHeaderValue),
        forall|i: int|
            #![trigger is_sep(h, i)]
            is_sep(h, i) && (forall|k: int| 0 <= k < i ==> !is_sep(h, k)) ==> parse_spec(
                m + seq![sp()] + p + crlf() + h + crlf() + crlf(),
            ) == if i == 0 {
                Err::<RequestView, ParseError>(ParseError::MissingHeaderKey)
            } else {
                Ok(
                    RequestView {
                        method: m,
                        path: p,
                        headers: Map::empty().insert(
                            h.subrange(0, i),
                            h.subrange(i + 2, h.len() as int),
                        ),
                    },
                )
            },
{
    let hs = seq![h];
    assert(hs.drop_first() =~= Seq::<Seq<u8>>::empty());
    assert(hs[0] == h);
    assert(header_block(hs.drop_first()) == Seq::<u8>::empty());
    assert(header_block(hs) =~= h + crlf());
    match take_header(h, Map::empty()) {
        Ok(m1) => {
            assert(fold_headers(hs.drop_first(), m1) == Ok::<Map<Seq<u8>, Seq<u8>>, ParseError>(
                m1,
            ));
        },
        Err(e) => {},
    }
    assert(fold_headers(hs, Map::empty()) == take_header(h, Map::empty()));
    assert(m + seq![sp()] + p + crlf() + h + crlf() + crlf() =~= m + seq![sp()] + p + crlf()
        + header_block(hs) + crlf());
    assert(header_lines_shape(hs));
    lemma_header_lines(m, p, hs);
    if forall|k: int| 0 <= k < h.len() ==> !is_sep(h, k) {
        lemma_find_sep_at(h, 0, h.len() as int);
    }
    assert forall|i: int|
        #![trigger is_sep(h, i)]
        is_sep(h, i) && (forall|k: int| 0 <= k < i ==> !is_sep(h, k)) implies parse_spec(
            m + seq![sp()] + p + crlf() + h + crlf() + crlf(),
        ) == if i == 0 {
            Err::<RequestView, ParseError>(ParseError::MissingHeaderKey)
        } else {
            Ok(
                RequestView {
                    method: m,
                    path: p,
                    headers: Map::empty().insert(h.subrange(0, i), h.subrange(i + 2, h.len() as int)),
                },
            )
        } by {
        lemma_find_sep_at(h, 0, i);
    }
}

/// `k: v` as a header line.
pub open spec fn header_pair_line(k: Seq<u8>, v: Seq<u8>) -> Seq<u8> {
    k + seq![':' as u8, sp()] + v
}

proof fn lemma_fold_first_error(hs: Seq<Seq<u8>>, acc: Map<Seq<u8>, Seq<u8>>, idx: int, e: ParseError)
    requires
        0 <= idx < hs.len(),
        forall|i: int| 0 <= i < idx ==> header_line_spec(#[trigger] hs[i]) is Ok,
        header_line_spec(hs[idx]) == Err::<(Seq<u8>, Seq<u8>), ParseError>(e),
    ensures
        fold_headers(hs, acc) == Err::<Map<Seq<u8>, Seq<u8>>, ParseError>(e),
    decreases idx,
{
    if idx > 0 {
        let rest = hs.drop_first();
        assert(header_line_spec(hs[0]) is Ok);
        assert forall|i: int| 0 <= i < idx - 1 implies header_line_spec(
            #[trigger] rest[i],
        ) is Ok by {
            assert(rest[i] == hs[i + 1]);
        }
        assert(rest[idx - 1] == hs[idx]);
        let kv = header_line_spec(hs[0])->Ok_0;
        lemma_fold_first_error(rest, acc.insert(kv.0, kv.1), idx - 1, e);
    }
}

proof fn lemma_pair_line_split(k: Seq<u8>, v: Seq<u8>)
    requires
        k.len() > 0,
        forall|j: int| 0 <= j < k.len() ==> !is_sep(k, j),
    ensures
        header_line_spec(header_pair_line(k, v)) == Ok::<(Seq<u8>, Seq<u8>), ParseError>((k, v)),
{
    let l = header_pair_line(k, v);
    assert forall|j: int| 0 <= j < k.len() implies !is_sep(l, j) by {
        if j + 1 < k.len() {
            assert(!is_sep(k, j));
            assert(l[j] == k[j] && l[j + 1] == k[j + 1]);
        } else {
            assert(l[j + 1] == (':' as u8));
        }
    }
    assert(is_sep(l, k.len() as int));
    lemma_find_sep_at(l, 0, k.len() as int);
    assert(l.subrange(0, k.len() as int) =~= k);
    assert(l.subrange(k.len() as int + 2, l.len() as int) =~= v);
}

proof fn lemma_fold_pairs(
    hs: Seq<Seq<u8>>,
    ks: Seq<Seq<u8>>,
    vs: Seq<Seq<u8>>,
    acc: Map<Seq<u8>, Seq<u8>>,
)
    requires
        hs.len() == ks.len() == vs.len(),
        ks.no_duplicates(),
        forall|i: int|
            0 <= i < hs.len() ==> #[trigger] hs[i] == header_pair_line(ks[i], vs[i])
                && ks[i].len() > 0 && (forall|j: int| 0 <= j < ks[i].len() ==> !is_sep(ks[i], j)),
    ensures
        fold_headers(hs, acc) matches Ok(m) && (forall|i: int|
            0 <= i < ks.len() ==> m.contains_key(#[trigger] ks[i]) && m[ks[i]] == vs[i]) && (forall|
            k: Seq<u8>,
        | !ks.contains(k) ==> m.contains_key(k) == acc.contains_key(k) && m[k] == acc[k]),
    decreases hs.len(),
{
    if hs.len() > 0 {
        assert(hs[0] == header_pair_line(ks[0], vs[0]));
        lemma_pair_line_split(ks[0], vs[0]);
        let a1 = acc.insert(ks[0], vs[0]);
        let (h2, k2, v2) = (hs.drop_first(), ks.drop_first(), vs.drop_first());
        assert forall|i: int| 0 <= i < h2.len() implies #[trigger] h2[i] == header_pair_line(
            k2[i],
            v2[i],
        ) && k2[i].len() > 0 && (forall|j: int|
            0 <= j < k2[i].len() ==> !is_sep(k2[i], j)) by {
            assert(h2[i] == hs[i + 1] && k2[i] == ks[i + 1] && v2[i] == vs[i + 1]);
        }
        assert(k2.no_duplicates()) by {
            assert forall|a: int, b: int| 0 <= a < k2.len() && 0 <= b < k2.len() && a != b implies k2[a]
                != k2[b] by {
                assert(k2[a] == ks[a + 1] && k2[b] == ks[b + 1]);
            }
        }
        lemma_fold_pairs(h2, k2, v2, a1);
        let m = fold_headers(h2, a1)->Ok_0;
        assert(!k2.contains(ks[0])) by {
            if k2.contains(ks[0]) {
                let t = choose|t: int| 0 <= t < k2.len() && k2[t] == ks[0];
                assert(ks[t + 1] == ks[0]);
            }
        }
        assert forall|i: int| 0 <= i < ks.len() implies m.contains_key(#[trigger] ks[i]) && m[ks[i]]
            == vs[i] by {
            if i > 0 {
                assert(k2[i - 1] == ks[i]);
            }
        }
        assert forall|k: Seq<u8>| !ks.contains(k) implies m.contains_key(k) == acc.contains_key(k)
            && m[k] == acc[k] by {
            if k2.contains(k) {
                let t = choose|t: int| 0 <= t < k2.len() && k2[t] == k;
                assert(ks[t + 1] == k);
            }
        }
    }
}

/// After header lines that each split, the first non-empty line without
/// `": "` makes the parse fail with `MissingHeaderValue`; no request comes
/// out.
pub proof fn lemma_first_line_without_separator(
    m: Seq<u8>,
    p: Seq<u8>,
    hs: Seq<Seq<u8>>,
    idx: int,
)
    requires
        valid_method(m),
        uri_accepts(p),
        token_bytes(p),
        header_lines_shape(hs),
        0 <= idx < hs.len(),
        forall|i: int| 0 <= i < idx ==> header_line_spec(#[trigger] hs[i]) is Ok,
        forall|k: int| 0 <= k < hs[idx].len() ==> !is_sep(hs[idx], k),
    ensures
        parse_spec(m + seq![sp()] + p + crlf() + header_block(hs) + crlf()) == Err::<
            RequestView,
            ParseError,
        >(ParseError::MissingHeaderValue),
{
    lemma_header_lines(m, p, hs);
    lemma_find_sep_at(hs[idx], 0, hs[idx].len() as int);
    lemma_fold_first_error(hs, Map::empty(), idx, ParseError::MissingHeaderValue);
}

/// Lines `k: v` with distinct names that hold no `": "` give exactly those
/// names, each with its value, split on the first `": "` only (a value may
/// hold `": "` itself).
pub proof fn lemma_distinct_header_lines(
    m: Seq<u8>,
    p: Seq<u8>,
    ks: Seq<Seq<u8>>,
    vs: Seq<Seq<u8>>,
    hs: Seq<Seq<u8>>,
)
    requires
        valid_method(m),
        uri_accepts(p),
        token_bytes(p),
        hs.len() == ks.len() == vs.len(),
        ks.no_duplicates(),
        forall|i: int|
            0 <= i < hs.len() ==> #[trigger] hs[i] == header_pair_line(ks[i], vs[i])
                && within_line(hs[i]) && ks[i].len() > 0 && (forall|j: int|
                0 <= j < ks[i].len() ==> !is_sep(ks[i], j)),
    ensures
        parse_spec(m + seq![sp()] + p + crlf() + header_block(hs) + crlf()) matches Ok(r) && r.method
            == m && r.path == p && (forall|k: Seq<u8>| r.headers.contains_key(k) <==> ks.contains(k))
            && (forall|i: int| 0 <= i < ks.len() ==> r.headers[#[trigger] ks[i]] == vs[i]),
{
    assert forall|i: int| 0 <= i < hs.len() implies (#[trigger] hs[i]).len() > 0 && within_line(
        hs[i],
    ) by {
        assert(hs[i] == header_pair_line(ks[i], vs[i]));
    }
    lemma_header_lines(m, p, hs);
    lemma_fold_pairs(hs, ks, vs, Map::empty());
    let h = fold_headers(hs, Map::empty())->Ok_0;
    assert forall|k: Seq<u8>| h.contains_key(k) <==> ks.contains(k) by {
        if ks.contains(k) {
            let t = choose|t: int| 0 <= t < ks.len() && ks[t] == k;
            assert(h.contains_key(ks[t]));
        }
    }
}

/// Parsing the same bytes twice gives the same outcome: equal method, path
/// and headers, or the same error.
pub proof fn lemma_parse_deterministic(a: Seq<u8>, b: Seq<u8>)
    requires
        a == b,
    ensures
        match (parse_spec(a), parse_spec(b)) {
            (Ok(x), Ok(y)) => x.method == y.method && x.path == y.path && x.headers == y.headers,
            (Err(e), Err(f)) => e == f,
            _ => false,
        },
{
}

} // verus!
