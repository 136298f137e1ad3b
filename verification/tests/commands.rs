use netlabs::commands::{decode_commands, encode_commands, request_complete};

#[test]
fn request_bytes() {
    let args = vec!["ls".to_string(), "-la".to_string()];
    assert_eq!(encode_commands(&args), b"ls\r\n-la\r\n\r\n".to_vec());
    assert_eq!(encode_commands(&vec![]), b"\r\n".to_vec());
}

#[test]
fn request_round_trip() {
    let args = vec!["echo".to_string(), "".to_string(), "héllo wörld".to_string()];
    let bytes = encode_commands(&args);
    assert!(request_complete(&bytes));
    assert_eq!(decode_commands(&bytes), args);
}

#[test]
fn decode_of_raw_request() {
    assert_eq!(decode_commands(b"uname\r\n-a\r\n\r\n"), vec!["uname".to_string(), "-a".to_string()]);
    assert_eq!(decode_commands(b"\r\n"), Vec::<String>::new());
    // the text after the last CR LF is dropped
    assert_eq!(decode_commands(b"a\r\nb\r\n"), vec!["a".to_string()]);
    // invalid UTF-8 becomes the replacement character
    assert_eq!(decode_commands(&[0x66, 0xff, 13, 10, 13, 10]), vec!["f\u{fffd}".to_string()]);
}

#[test]
fn completeness() {
    assert!(request_complete(b"x\r\n\r\n"));
    assert!(!request_complete(b"x\r\n"));
    assert!(!request_complete(b"\r\n\r"));
    assert!(!request_complete(b""));
}
