use netlabs::http::{classify_answer, file_request, not_found_response, ok_header, parse_req, try_parse_req, FileAnswer};

#[test]
fn request_path() {
    assert_eq!(parse_req(b"GET /index.html HTTP/1.1\r\n\r\n"), Some("index.html".to_string()));
    assert_eq!(parse_req(b"GET /dir/a.txt HTTP/1.1\r\nHost: x\r\n"), Some("dir/a.txt".to_string()));
    assert_eq!(parse_req(b"\x01\x02"), None);
    assert_eq!(try_parse_req(b"GET /x HTTP/1.0\r\n\r\n"), Some(Some("x".to_string())));
    assert_eq!(try_parse_req(b"GE"), None);
    assert_eq!(try_parse_req(b"GET /\xc3\xa9 HTTP/1.1\r\n\r\n"), Some(Some("\u{e9}".to_string())));
}

#[test]
fn request_from_client_reads_back() {
    let req = file_request("notes.txt");
    assert_eq!(req, "GET /notes.txt HTTP/1.1\r\n\r\n");
    assert_eq!(parse_req(req.as_bytes()), Some("notes.txt".to_string()));
}

#[test]
fn server_answers() {
    assert_eq!(ok_header(1234), "HTTP/1.0 200 OK\r\nContent-Type: text/html\r\nContent-Length: 1234\r\n\r\n");
    assert_eq!(not_found_response(), "HTTP/1.0 404 NOT FOUND\r\n");
}

#[test]
fn client_reads_answers() {
    assert_eq!(classify_answer(b"HTTP/1.0 404 NOT FOUND\r\n"), FileAnswer::NoSuchFile);
    let ok = b"HTTP/1.0 200 OK\r\nContent-Length: 2\r\n\r\nhi";
    assert_eq!(classify_answer(ok), FileAnswer::Content(34));
    assert_eq!(&ok[34..], b"\r\n\r\nhi");
    assert_eq!(classify_answer(b"HTTP/1.0 200 OK\r\n"), FileAnswer::Bad);
    assert_eq!(classify_answer(b"\r\n\r\n 404"), FileAnswer::Content(0));
}
