use isner::file_handler::{FileHandler, FileRead, FileTarget};
use isner::parser::Request;

const EMPTY: &str = "empty_file.txt";

fn get_uri_path(filename: &str) -> String {
    String::from("/") + filename
}

fn build_request(method: &str, filename: &str) -> Request {
    Request::new(method.as_bytes(), get_uri_path(filename).as_bytes()).unwrap()
}

#[test]
fn file_handler_handle_request_ok() {
    let request = build_request("GET", EMPTY);
    let h = FileHandler::new(String::from("./test_data"));
    let target = h.target(&request);
    match &target {
        FileTarget::File(path) => {
            assert!(path.ends_with("empty_file.txt"));
            assert!(path.starts_with("./test_data"));
        }
        _ => panic!("a file was expected"),
    }
    let got = FileHandler::respond(&target, Some(FileRead::Contents(Vec::new(), 0)));
    assert_eq!(got.status(), 200);
}

#[test]
fn file_handler_handle_request_method_not_allowed() {
    let h = FileHandler::new(String::from("./test_data"));
    for method in ["POST", "PUT", "PATCH", "DELETE"] {
        let request = build_request(method, EMPTY);
        assert!(matches!(h.target(&request), FileTarget::MethodNotAllowed));
    }
    let got = FileHandler::method_not_allowed();
    assert_eq!(got.status(), 405);
}

#[test]
fn target_joins_root_and_uri_path() {
    let h = FileHandler::new(String::from("/srv/www"));
    let request = Request::new(b"GET", b"//docs/a.txt?x=1").unwrap();
    match h.target(&request) {
        FileTarget::File(path) => assert_eq!(path, "/srv/www/docs/a.txt"),
        _ => panic!("a file was expected"),
    }
}

#[test]
fn found_sends_size_and_type() {
    let got = FileHandler::found(b"abc".to_vec(), 3);
    assert_eq!(
        got.to_bytes(),
        b"HTTP/1.1 200 OK\r\ncontent-length: 3\r\ncontent-type: text/plain\r\nConnection: close \r\n\r\nabc"
            .to_vec()
    );
    let big = FileHandler::found(Vec::new(), 1234567890);
    let text = String::from_utf8(big.to_bytes()).unwrap();
    assert!(text.contains("content-length: 1234567890\r\n"));
}

#[test]
fn refusals_have_empty_bodies() {
    let na = FileHandler::method_not_allowed();
    assert_eq!(
        na.to_bytes(),
        b"HTTP/1.1 405 Method Not Allowed\r\ncontent-length: 0\r\nConnection: close \r\n\r\n".to_vec()
    );
    let nf = FileHandler::not_found();
    assert_eq!(nf.status(), 404);
    assert!(nf.body().is_empty());
}

#[test]
fn respond_maps_each_outcome() {
    let file = FileTarget::File(String::from("/srv/a"));
    let ok = FileHandler::respond(&file, Some(FileRead::Contents(b"hi".to_vec(), 2)));
    assert_eq!(ok.status(), 200);
    assert_eq!(ok.body(), b"hi");
    assert_eq!(FileHandler::respond(&file, Some(FileRead::Missing)).status(), 404);
    assert_eq!(FileHandler::respond(&file, Some(FileRead::Directory)).status(), 404);
    assert_eq!(FileHandler::respond(&file, Some(FileRead::Failed)).status(), 500);
    assert_eq!(FileHandler::respond(&file, None).status(), 404);
    assert_eq!(FileHandler::respond(&FileTarget::NotFound, None).status(), 404);
    let refused = FileHandler::respond(&FileTarget::MethodNotAllowed, None);
    assert_eq!(refused.status(), 405);
    assert!(refused.body().is_empty());
}

#[test]
fn non_get_requests_are_answered_with_405() {
    let h = FileHandler::new(String::from("/srv/www"));
    for method in ["POST", "PUT", "PATCH", "DELETE", "HEAD"] {
        let request = build_request(method, EMPTY);
        let got = FileHandler::respond(&h.target(&request), None);
        assert_eq!(got.status(), 405);
        assert!(got.body().is_empty());
    }
}
