use isner::handler::handle_request;
use isner::parser::Request;

#[test]
fn handler_handle_request_ok() {
    let request = Request::new(b"GET", b"/").unwrap();
    let got = handle_request(&request);
    assert_eq!(got.status(), 200);
}

#[test]
fn handler_handle_request_method_not_allowed() {
    let request = Request::new(b"POST", b"/").unwrap();
    let got = handle_request(&request);
    assert_eq!(got.status(), 405);
}

#[test]
fn http_server_handle_request_ok() {
    let request = Request::new(b"GET", b"/").unwrap();
    let got = handle_request(&request);
    assert_eq!(got.status(), 200);
}

#[test]
fn http_server_handle_request_method_not_allowed() {
    let request = Request::new(b"POST", b"/").unwrap();
    let got = handle_request(&request);
    assert_eq!(got.status(), 405);
}

#[test]
#[should_panic]
fn http_server_get_response_with_parse_error() {
    let got = isner::http_handler::get_response("".as_bytes(), &isner::handler::GetOnlyHandler);
    assert_eq!(got.status(), 404);
}
