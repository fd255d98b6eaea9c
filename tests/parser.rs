use isner::parser::{ends_head, parse_request, ParseError, Request};

#[test]
fn parse_request_with_no_headers_no_body() {
    let got = parse_request("GET /foo/bar HTTP/3.0".as_bytes()).unwrap();
    let expected = Request::new(b"GET", "/foo/bar".as_bytes()).unwrap();
    assert_eq!(got.method(), expected.method());
    assert_eq!(got.path(), expected.path());
}

#[test]
fn parse_request_with_headers_no_body() {
    let raw_request = "GET /foo/bar HTTP/3.0\r\nfoo: bar\r\nfizz: buzz\r\n".as_bytes();
    let got = parse_request(raw_request).unwrap();
    let expected = Request::new(b"GET", "/foo/bar".as_bytes())
        .unwrap()
        .with_header(b"foo", b"bar")
        .with_header(b"fizz", b"buzz");
    assert_eq!(got.method(), expected.method());
    assert_eq!(got.path(), expected.path());
    assert_eq!(got.header(b"foo"), Some(&b"bar"[..]));
    assert_eq!(got.header(b"fizz"), Some(&b"buzz"[..]));
}

#[test]
#[should_panic]
fn parse_empty_request() {
    parse_request("".as_bytes()).unwrap();
}

#[test]
#[should_panic]
fn parse_invalid_method() {
    parse_request("&&& /foo/bar".as_bytes()).unwrap();
}

#[test]
#[should_panic]
fn parse_missing_path() {
    parse_request("GET ".as_bytes()).unwrap();
}

#[test]
#[should_panic]
fn parse_invalid_path() {
    parse_request("GET \\".as_bytes()).unwrap();
}

#[test]
#[should_panic]
fn parse_invalid_header_line() {
    parse_request("GET / HTTP/1.1\r\nfoo bar".as_bytes()).unwrap();
}

#[test]
fn request_line_gives_method_and_path_for_any_version() {
    for method in ["GET", "POST", "PUT", "PATCH", "DELETE", "HEAD", "OPTIONS"] {
        for version in ["HTTP/1.0", "HTTP/1.1", "HTTP/9.7"] {
            let raw = format!("{} /a/b.txt {}\r\n\r\n", method, version);
            let got = parse_request(raw.as_bytes()).unwrap();
            assert_eq!(got.method(), method.as_bytes());
            assert_eq!(got.path(), b"/a/b.txt");
            assert_eq!(got.header(b"Host"), None);
        }
    }
}

#[test]
fn extra_request_line_tokens_are_ignored() {
    let got = parse_request(b"GET /x HTTP/1.1 trailing words\r\n\r\n").unwrap();
    assert_eq!(got.path(), b"/x");
}

#[test]
fn empty_input_is_empty_request() {
    assert_eq!(parse_request(b"").err(), Some(ParseError::EmptyRequest));
}

#[test]
fn blank_request_line_is_missing_path() {
    assert_eq!(parse_request(b"\r\n\r\n").err(), Some(ParseError::MissingRequestPath));
    assert_eq!(parse_request(b"\n").err(), Some(ParseError::MissingRequestPath));
}

#[test]
fn single_token_request_line_is_missing_path() {
    assert_eq!(parse_request(b"GET\r\n\r\n").err(), Some(ParseError::MissingRequestPath));
}

#[test]
fn header_without_separator_is_missing_value() {
    assert_eq!(
        parse_request(b"GET / HTTP/1.1\r\nfoo bar\r\n\r\n").err(),
        Some(ParseError::MissingHeaderValue)
    );
    assert_eq!(
        parse_request(b"GET / HTTP/1.1\r\nfoo:bar\r\n\r\n").err(),
        Some(ParseError::MissingHeaderValue)
    );
}

#[test]
fn header_with_empty_name_is_missing_key() {
    assert_eq!(
        parse_request(b"GET / HTTP/1.1\r\n: bar\r\n\r\n").err(),
        Some(ParseError::MissingHeaderKey)
    );
}

#[test]
fn invalid_method_or_path_is_invalid_request() {
    assert_eq!(parse_request(b"G(T / HTTP/1.1\r\n\r\n").err(), Some(ParseError::InvalidRequest));
    assert_eq!(parse_request(b"GET \\ HTTP/1.1\r\n\r\n").err(), Some(ParseError::InvalidRequest));
    assert_eq!(parse_request(b" / HTTP/1.1\r\n\r\n").err(), Some(ParseError::InvalidRequest));
}

#[test]
fn non_utf8_bytes_are_split_like_any_other() {
    let got = parse_request(b"GET / \xff\r\na: \xc3\r\n\r\n").unwrap();
    assert_eq!(got.path(), b"/");
    assert_eq!(got.header(b"a"), Some(&b"\xc3"[..]));
    assert_eq!(
        parse_request(b"GET / HTTP/1.1\r\n\xff\r\n\r\n").err(),
        Some(ParseError::MissingHeaderValue)
    );
}

#[test]
fn header_errors_come_before_method_check() {
    assert_eq!(
        parse_request(b"G(T / HTTP/1.1\r\nbroken\r\n\r\n").err(),
        Some(ParseError::MissingHeaderValue)
    );
}

#[test]
fn header_splits_on_first_separator() {
    let got = parse_request(b"GET / HTTP/1.1\r\nkey: a: b\r\nx-empty: \r\n\r\n").unwrap();
    assert_eq!(got.header(b"key"), Some(&b"a: b"[..]));
    assert_eq!(got.header(b"x-empty"), Some(&b""[..]));
}

#[test]
fn header_names_keep_their_case_and_later_values_win() {
    let got = parse_request(b"GET / HTTP/1.1\r\nX-Foo: 1\r\nX-Foo: 2\r\n\r\n").unwrap();
    assert_eq!(got.header(b"X-Foo"), Some(&b"2"[..]));
    assert_eq!(got.header(b"x-foo"), None);
}

#[test]
fn headers_stop_at_blank_line() {
    let got = parse_request(b"GET / HTTP/1.1\nA: 1\n\nB: 2\n").unwrap();
    assert_eq!(got.header(b"A"), Some(&b"1"[..]));
    assert_eq!(got.header(b"B"), None);
}

#[test]
fn last_line_without_line_end_is_read() {
    let got = parse_request(b"GET / HTTP/1.1\r\nA: 1").unwrap();
    assert_eq!(got.header(b"A"), Some(&b"1"[..]));
}

#[test]
fn parsing_twice_gives_equal_requests() {
    let raw = b"POST /p?q=1 HTTP/1.1\r\nA: 1\r\nB: 2\r\n\r\n";
    let a = parse_request(raw).unwrap();
    let b = parse_request(raw).unwrap();
    assert_eq!(a.method(), b.method());
    assert_eq!(a.path(), b.path());
    assert_eq!(a.header(b"A"), b.header(b"A"));
    assert_eq!(a.header(b"B"), b.header(b"B"));
    assert_eq!(parse_request(b"nope").err(), parse_request(b"nope").err());
}

#[test]
fn request_new_checks_method_and_path() {
    assert!(Request::new(b"GET", b"/").is_ok());
    assert_eq!(Request::new(b"G T", b"/").err(), Some(ParseError::InvalidRequest));
    assert_eq!(Request::new(b"GET", b"").err(), Some(ParseError::InvalidRequest));
    assert!(Request::new(b"GET", b"/").unwrap().is_get());
    assert!(!Request::new(b"get", b"/").unwrap().is_get());
}

#[test]
fn blank_lines_end_the_head() {
    assert!(ends_head(b"\r\n"));
    assert!(ends_head(b"\n"));
    assert!(ends_head(b""));
    assert!(!ends_head(b"a\r\n"));
    assert!(!ends_head(b"\r"));
}

#[test]
fn bad_line_after_good_headers_fails_whole_request() {
    assert_eq!(
        parse_request(b"GET / HTTP/1.1\r\na: 1\r\nb: 2\r\nbroken line\r\nc: 3\r\n\r\n").err(),
        Some(ParseError::MissingHeaderValue)
    );
}

#[test]
fn distinct_header_lines_give_each_value() {
    let got = parse_request(b"GET / HTTP/1.1\r\nk1: v1\r\nk2: a: b\r\nk3: \r\n\r\n").unwrap();
    assert_eq!(got.header(b"k1"), Some(&b"v1"[..]));
    assert_eq!(got.header(b"k2"), Some(&b"a: b"[..]));
    assert_eq!(got.header(b"k3"), Some(&b""[..]));
    assert_eq!(got.header(b"k4"), None);
}

#[test]
fn version_token_does_not_change_the_outcome() {
    for (m, p) in [("GET", "/a"), ("G(T", "/a"), ("GET", "\\")] {
        let a = parse_request(format!("{} {} HTTP/1.0\r\n\r\n", m, p).as_bytes());
        let b = parse_request(format!("{} {} junk more\r\n\r\n", m, p).as_bytes());
        assert_eq!(a.is_ok(), b.is_ok());
        match (a, b) {
            (Ok(a), Ok(b)) => {
                assert_eq!(a.method(), b.method());
                assert_eq!(a.path(), b.path());
            }
            (Err(a), Err(b)) => assert_eq!(a, b),
            _ => panic!("outcomes differ"),
        }
    }
}

#[test]
fn bytes_after_blank_line_are_not_read() {
    let got = parse_request(b"GET / HTTP/1.1\r\nA: 1\r\n\r\nno separator here\r\n").unwrap();
    assert_eq!(got.header(b"A"), Some(&b"1"[..]));
}

#[test]
fn end_of_input_after_header_lines_is_tolerated() {
    let got = parse_request(b"GET / HTTP/1.1\r\nA: 1\r\nB: 2\r\n").unwrap();
    assert_eq!(got.header(b"A"), Some(&b"1"[..]));
    assert_eq!(got.header(b"B"), Some(&b"2"[..]));
}
