use isner::handler::GetOnlyHandler;
use isner::http_handler::{bad_request, get_response, handle, Handler};
use isner::parser::{Request, RequestView};
use isner::response::{Response, ResponseView};

struct OkEmptyHandler {}

impl Handler for OkEmptyHandler {
    // The trait declares this for proofs in the library; it is never called.
    fn answer(&self, _request: RequestView) -> ResponseView {
        unreachable!()
    }

    fn handle_request(&self, _request: &Request) -> Response {
        Response::with_status(200)
            .unwrap()
            .with_header(b"Content-length", b"0")
            .unwrap()
    }
}

struct AlwaysOk {}

impl Handler for AlwaysOk {
    // The trait declares this for proofs in the library; it is never called.
    fn answer(&self, _request: RequestView) -> ResponseView {
        unreachable!()
    }

    fn handle_request(&self, _request: &Request) -> Response {
        Response::with_status(200).unwrap()
    }
}

#[test]
fn get_response_ok() {
    let h = OkEmptyHandler {};
    let got = get_response("GET / HTTP/1.0\r\n\r\n".as_bytes(), &h);
    assert_eq!(got.status(), 200);
}

#[test]
fn http_handler_get_response_with_parse_error() {
    let h = OkEmptyHandler {};
    let got = get_response("".as_bytes(), &h);
    assert_eq!(got.status(), 400);
}

#[test]
fn handler_get_response_with_parse_error() {
    let got = get_response("".as_bytes(), &GetOnlyHandler);
    assert_eq!(got.status(), 400);
}

#[test]
fn http_handler_write_response_ok() {
    let resp = Response::with_status(200).unwrap();
    let got = String::from_utf8(resp.to_bytes()).unwrap();
    assert_eq!(&got, "HTTP/1.1 200 OK\r\nConnection: close \r\n\r\n");
}

#[test]
fn handle_ok() {
    let h = OkEmptyHandler {};
    let raw_request = "GET / HTTP/1.0\r\n\r\n";
    let (resp, writer) = handle(raw_request.as_bytes(), &h);
    let got = String::from_utf8(writer).unwrap();
    assert_eq!(resp.status(), 200);
    assert_eq!(
        &got,
        "HTTP/1.1 200 OK\r\ncontent-length: 0\r\nConnection: close \r\n\r\n"
    );
}

#[test]
fn always_ok_handler_gives_bare_status_line() {
    let (resp, bytes) = handle(b"GET / HTTP/1.0\r\n\r\n", &AlwaysOk {});
    assert_eq!(resp.status(), 200);
    assert!(resp.body().is_empty());
    assert_eq!(bytes, b"HTTP/1.1 200 OK\r\nConnection: close \r\n\r\n".to_vec());
}

#[test]
fn parse_failure_is_answered_with_bad_request() {
    let (resp, bytes) = handle(b"GET\r\n\r\n", &AlwaysOk {});
    assert_eq!(resp.status(), 400);
    assert_eq!(bytes, b"HTTP/1.1 400 Bad Request\r\nConnection: close \r\n\r\n".to_vec());
    assert_eq!(bad_request().status(), 400);
}

#[test]
fn non_get_is_refused_by_get_only_handler() {
    let (resp, bytes) = handle(b"POST / HTTP/1.1\r\n\r\n", &GetOnlyHandler);
    assert_eq!(resp.status(), 405);
    assert!(resp.body().is_empty());
    assert_eq!(
        bytes,
        b"HTTP/1.1 405 Method Not Allowed\r\nConnection: close \r\n\r\n".to_vec()
    );
}
