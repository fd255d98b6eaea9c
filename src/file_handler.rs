//! Serving files below a root directory: which file a request names, and the
//! responses for the outcomes of reading it. Opening and reading the file is
//! left to the caller.

use vstd::prelude::*;
use vstd::slice::slice_subrange;
use vstd::utf8::{decode_utf8, valid_utf8};

use crate::interop::{
    join_path, joined_path, lowered, parse_uri, uri_accepts, uri_path_of, utf8_text,
    valid_header_name, valid_header_value,
};
use crate::parser::{get_method, Request, RequestView};
use crate::response::{set_header, Response, ResponseView};

verus! {

/// A handler that serves the files below `root_dir`.
pub struct FileHandler {
    root_dir: String,
}

impl View for FileHandler {
    type V = Seq<char>;

    closed spec fn view(&self) -> Seq<char> {
        self.root_dir@
    }
}

/// Which file a request asks for.
pub enum FileTarget {
    /// The method is not `GET`.
    MethodNotAllowed,
    /// The path names no file.
    NotFound,
    /// The file to read.
    File(String),
}

/// What reading the target file gave.
pub enum FileRead {
    /// No file could be opened there.
    Missing,
    /// The path names a directory.
    Directory,
    /// The file was opened but could not be read.
    Failed,
    /// The file's contents and its size as the filesystem reports it.
    Contents(Vec<u8>, u64),
}

/// `405` with `content-length: 0` and an empty body.
pub open spec fn method_not_allowed_view() -> ResponseView {
    ResponseView {
        status: 405,
        headers: seq![(lowered(content_length_name()), seq!['0' as u8])],
        body: Seq::empty(),
    }
}

/// A response with a status code, no headers and an empty body.
pub open spec fn bare_view(status: u16) -> ResponseView {
    ResponseView { status, headers: Seq::empty(), body: Seq::empty() }
}

/// `200` carrying contents, with their size and type.
pub open spec fn found_view(contents: Seq<u8>, size: u64) -> ResponseView {
    ResponseView {
        status: 200,
        headers: seq![
            (lowered(content_length_name()), decimal(size as nat)),
            (lowered(content_type_name()), text_plain()),
        ],
        body: contents,
    }
}

/// `t` is the target that a request names below `root`.
pub open spec fn target_fits(root: Seq<char>, request: RequestView, t: FileTarget) -> bool {
    match t {
        FileTarget::MethodNotAllowed => request.method != get_method(),
        FileTarget::NotFound => request.method == get_method() && !names_file(request.path),
        FileTarget::File(f) => request.method == get_method() && names_file(request.path) && f@
            == joined_path(root, decode_utf8(relative_path(request.path))),
    }
}

/// The response for a target and what reading it gave.
pub open spec fn respond_view(t: FileTarget, read: Option<FileRead>) -> ResponseView {
    match t {
        FileTarget::MethodNotAllowed => method_not_allowed_view(),
        FileTarget::NotFound => bare_view(404),
        FileTarget::File(_) => match read {
            Some(FileRead::Contents(c, size)) => found_view(c@, size),
            Some(FileRead::Failed) => bare_view(500),
            _ => bare_view(404),
        },
    }
}

/// A request whose method is not `GET` is answered `405` with an empty body,
/// whatever reading a file would give; no file is named for it.
pub proof fn lemma_non_get_refused(
    root: Seq<char>,
    request: RequestView,
    t: FileTarget,
    read: Option<FileRead>,
)
    requires
        target_fits(root, request, t),
        request.method != get_method(),
    ensures
        t is MethodNotAllowed,
        respond_view(t, read).status == 405,
        respond_view(t, read).body.len() == 0,
{
}

/// The first index at or after `from` that does not hold `/`, or the length.
pub open spec fn skip_slashes(p: Seq<u8>, from: int) -> int
    decreases p.len() - from,
{
    if from >= p.len() {
        p.len() as int
    } else if p[from] != ('/' as u8) {
        from
    } else {
        skip_slashes(p, from + 1)
    }
}

/// The URI path of a request path with its leading slashes taken off.
pub open spec fn relative_path(path: Seq<u8>) -> Seq<u8> {
    let p = uri_path_of(path);
    p.subrange(skip_slashes(p, 0), p.len() as int)
}

/// The request path names a file: it is a URI whose relative path is UTF-8.
pub open spec fn names_file(path: Seq<u8>) -> bool {
    uri_accepts(path) && valid_utf8(relative_path(path))
}

pub open spec fn content_length_name() -> Seq<u8> {
    seq![
        'C' as u8, 'o' as u8, 'n' as u8, 't' as u8, 'e' as u8, 'n' as u8, 't' as u8, '-' as u8,
        'l' as u8, 'e' as u8, 'n' as u8, 'g' as u8, 't' as u8, 'h' as u8,
    ]
}

pub open spec fn content_type_name() -> Seq<u8> {
    seq![
        'C' as u8, 'o' as u8, 'n' as u8, 't' as u8, 'e' as u8, 'n' as u8, 't' as u8, '-' as u8,
        't' as u8, 'y' as u8, 'p' as u8, 'e' as u8,
    ]
}

pub open spec fn text_plain() -> Seq<u8> {
    seq![
        't' as u8, 'e' as u8, 'x' as u8, 't' as u8, '/' as u8, 'p' as u8, 'l' as u8, 'a' as u8,
        'i' as u8, 'n' as u8,
    ]
}

/// The decimal digits of a number.
pub open spec fn decimal(n: nat) -> Seq<u8>
    decreases n,
{
    if n < 10 {
        seq![('0' as u8 + n) as u8]
    } else {
        decimal(n / 10).push(('0' as u8 + n % 10) as u8)
    }
}

proof fn lemma_decimal_digits(n: nat)
    ensures
        valid_header_value(decimal(n)),
        decimal(n).len() > 0,
    decreases n,
{
    if n >= 10 {
        lemma_decimal_digits(n / 10);
        let d = decimal(n / 10);
        assert forall|i: int| 0 <= i < decimal(n).len() implies crate::interop::header_value_byte(
            #[trigger] decimal(n)[i],
        ) by {
            if i < d.len() {
                assert(decimal(n)[i] == d[i]);
            }
        }
    }
}

fn decimal_bytes(n: u64) -> (r: Vec<u8>)
    ensures
        r@ == decimal(n as nat),
    decreases n,
{
    if n < 10 {
        let r: Vec<u8> = vec![('0' as u8) + (n as u8)];
        assert(r@ =~= decimal(n as nat));
        r
    } else {
        let mut r = decimal_bytes(n / 10);
        r.push(('0' as u8) + ((n % 10) as u8));
        r
    }
}

fn content_length_bytes() -> (r: Vec<u8>)
    ensures
        r@ == content_length_name(),
{
    let r: Vec<u8> = vec![
        'C' as u8, 'o' as u8, 'n' as u8, 't' as u8, 'e' as u8, 'n' as u8, 't' as u8, '-' as u8,
        'l' as u8, 'e' as u8, 'n' as u8, 'g' as u8, 't' as u8, 'h' as u8,
    ];
    assert(r@ =~= content_length_name());
    r
}

fn content_type_bytes() -> (r: Vec<u8>)
    ensures
        r@ == content_type_name(),
{
    let r: Vec<u8> = vec![
        'C' as u8, 'o' as u8, 'n' as u8, 't' as u8, 'e' as u8, 'n' as u8, 't' as u8, '-' as u8,
        't' as u8, 'y' as u8, 'p' as u8, 'e' as u8,
    ];
    assert(r@ =~= content_type_name());
    r
}

fn text_plain_bytes() -> (r: Vec<u8>)
    ensures
        r@ == text_plain(),
{
    let r: Vec<u8> = vec![
        't' as u8, 'e' as u8, 'x' as u8, 't' as u8, '/' as u8, 'p' as u8, 'l' as u8, 'a' as u8,
        'i' as u8, 'n' as u8,
    ];
    assert(r@ =~= text_plain());
    r
}

proof fn lemma_names_valid()
    ensures
        valid_header_name(content_length_name()),
        valid_header_name(content_type_name()),
        valid_header_value(text_plain()),
        lowered(content_length_name()) != lowered(content_type_name()),
{
    assert(lowered(content_length_name())[8] != lowered(content_type_name())[8]);
}

impl FileHandler {
    pub fn new(root_dir: String) -> (r: Self)
        ensures
            r@ == root_dir@,
    {
        FileHandler { root_dir }
    }

    /// The file that a request names, below the root directory.
    pub fn target(&self, request: &Request) -> (r: FileTarget)
        ensures
            target_fits(self@, request@, r),
    {
        if !request.is_get() {
            return FileTarget::MethodNotAllowed;
        }
        let p = match parse_uri(request.path()) {
            Some(p) => p,
            None => {
                return FileTarget::NotFound;
            },
        };
        let mut k: usize = 0;
        while k < p.len() && p[k] == ('/' as u8)
            invariant
                k <= p@.len(),
                skip_slashes(p@, k as int) == skip_slashes(p@, 0),
            decreases p@.len() - k,
        {
            k = k + 1;
        }
        let rel = slice_subrange(p.as_slice(), k, p.len());
        let text = match utf8_text(rel) {
            Some(t) => t,
            None => {
                return FileTarget::NotFound;
            },
        };
        FileTarget::File(join_path(self.root_dir.as_str(), text.as_str()))
    }

    /// `405` with `content-length: 0` and an empty body.
    pub fn method_not_allowed() -> (r: Response)
        ensures
            r@ == method_not_allowed_view(),
    {
        proof {
            lemma_names_valid();
        }
        let zero: Vec<u8> = vec!['0' as u8];
        assert(zero@ =~= seq!['0' as u8]);
        let r = Response::with_status(405).unwrap();
        assert(crate::response::name_index(r@.headers, lowered(content_length_name()), 0) == 0);
        let r = r.with_header(content_length_bytes().as_slice(), zero.as_slice()).unwrap();
        assert(r@.headers =~= seq![(lowered(content_length_name()), seq!['0' as u8])]);
        r
    }

    /// `404` with no headers and an empty body.
    pub fn not_found() -> (r: Response)
        ensures
            r@ == bare_view(404),
    {
        Response::with_status(404).unwrap()
    }

    /// `200` carrying a file's contents, its size as `content-length` and
    /// `content-type: text/plain`.
    pub fn found(contents: Vec<u8>, size: u64) -> (r: Response)
        ensures
            r@ == found_view(contents@, size),
    {
        proof {
            lemma_names_valid();
            lemma_decimal_digits(size as nat);
        }
        let len = decimal_bytes(size);
        let r = Response::with_status(200).unwrap();
        assert(crate::response::name_index(r@.headers, lowered(content_length_name()), 0) == 0);
        let r = r.with_header(content_length_bytes().as_slice(), len.as_slice()).unwrap();
        assert(r@.headers =~= seq![(lowered(content_length_name()), decimal(size as nat))]);
        assert(crate::response::name_index(r@.headers, lowered(content_type_name()), 1) == 1);
        assert(crate::response::name_index(r@.headers, lowered(content_type_name()), 0) == 1);
        let r = r.with_header(content_type_bytes().as_slice(), text_plain_bytes().as_slice()).unwrap();
        assert(r@.headers =~= seq![
            (lowered(content_length_name()), decimal(size as nat)),
            (lowered(content_type_name()), text_plain()),
        ]);
        r.with_body(contents)
    }

    /// The response for a request's target and, where it names a file, what
    /// reading that file gave: `405` for another method than `GET`, `404`
    /// where no file is there or it is a directory, `500` where it could not
    /// be read, and the contents otherwise.
    pub fn respond(target: &FileTarget, read: Option<FileRead>) -> (r: Response)
        ensures
            r@ == respond_view(*target, read),
    {
        match target {
            FileTarget::MethodNotAllowed => FileHandler::method_not_allowed(),
            FileTarget::NotFound => FileHandler::not_found(),
            FileTarget::File(_) => match read {
                Some(FileRead::Contents(c, size)) => FileHandler::found(c, size),
                Some(FileRead::Failed) => Response::with_status(500).unwrap(),
                _ => FileHandler::not_found(),
            },
        }
    }
}

} // verus!
