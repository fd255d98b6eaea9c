use isner::response::Response;

#[test]
fn content_length_header_is_sent_lower_case() {
    let resp = Response::with_status(200)
        .unwrap()
        .with_header(b"Content-length", b"0")
        .unwrap();
    assert_eq!(
        resp.to_bytes(),
        b"HTTP/1.1 200 OK\r\ncontent-length: 0\r\nConnection: close \r\n\r\n".to_vec()
    );
}

#[test]
fn headers_keep_order_and_empty_values_are_skipped() {
    let resp = Response::with_status(404)
        .unwrap()
        .with_header(b"B-Header", b"1")
        .unwrap()
        .with_header(b"X-Skip", b"")
        .unwrap()
        .with_header(b"A-Header", b"2")
        .unwrap()
        .with_header(b"b-header", b"3")
        .unwrap()
        .with_body(b"body".to_vec());
    assert_eq!(
        resp.to_bytes(),
        b"HTTP/1.1 404 Not Found\r\nb-header: 3\r\na-header: 2\r\nConnection: close \r\n\r\nbody"
            .to_vec()
    );
}

#[test]
fn status_codes_outside_three_digits_are_refused() {
    assert!(Response::with_status(99).is_none());
    assert!(Response::with_status(1000).is_none());
    assert!(Response::with_status(100).is_some());
    assert_eq!(Response::with_status(999).unwrap().status(), 999);
}

#[test]
fn unknown_code_has_unknown_reason() {
    let resp = Response::with_status(599).unwrap();
    assert_eq!(resp.to_bytes(), b"HTTP/1.1 599 UNKNOWN\r\nConnection: close \r\n\r\n".to_vec());
}

#[test]
fn invalid_header_name_or_value_is_refused() {
    let r = || Response::with_status(200).unwrap();
    assert!(r().with_header(b"bad name", b"x").is_none());
    assert!(r().with_header(b"", b"x").is_none());
    assert!(r().with_header(b"good", b"a\nb").is_none());
    assert!(r().with_header(b"good", b"a\tb").is_some());
}

#[test]
fn reason_phrase_is_framed_as_given() {
    let resp = Response::with_status(201).unwrap().with_body(b"x".to_vec());
    assert_eq!(
        resp.to_bytes_with_reason(b"Made"),
        b"HTTP/1.1 201 Made\r\nConnection: close \r\n\r\nx".to_vec()
    );
    assert_eq!(
        resp.to_bytes(),
        b"HTTP/1.1 201 Created\r\nConnection: close \r\n\r\nx".to_vec()
    );
}
