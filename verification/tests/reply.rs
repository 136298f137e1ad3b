use netlabs::reply::{
    code_in_range, expect_reply, parse_i16_at, parse_reply_code, parse_u16_at, reply_complete, response_text,
    ExpectError, ReplyError,
};

#[test]
fn reply_codes() {
    assert_eq!(parse_reply_code(b"220 welcome\r\n"), Ok(220));
    assert_eq!(parse_reply_code(b"331"), Ok(331));
    assert_eq!(parse_reply_code(b"22"), Err(ReplyError::NoCode));
    assert_eq!(parse_reply_code(b"ab1 x"), Err(ReplyError::NotNumber));
    assert_eq!(parse_reply_code(&[0xff, 0x32, 0x30]), Err(ReplyError::NotText));
    assert_eq!(parse_reply_code(b"-12"), Ok(-12));
    assert_eq!(parse_reply_code(b"+12"), Ok(12));
}

#[test]
fn reply_end_and_ranges() {
    assert!(reply_complete(b"250 ok\r\n"));
    assert!(!reply_complete(b"250 ok\r"));
    assert!(!reply_complete(b"\n"));
    assert!(code_in_range(250, 200, 300));
    assert!(!code_in_range(300, 200, 300));
    assert!(code_in_range(200, 200, 300));
}

#[test]
fn number_parsing() {
    assert_eq!(parse_u16_at(b"x65535y", 1, 6), Some(65535));
    assert_eq!(parse_u16_at(b"65536", 0, 5), None);
    assert_eq!(parse_u16_at(b"", 0, 0), None);
    assert_eq!(parse_i16_at(b"-32768", 0, 6), Some(-32768));
    assert_eq!(parse_i16_at(b"32768", 0, 5), None);
}

#[test]
fn whole_reply_text() {
    assert_eq!(response_text(b"227 ok\r\n"), Some("227 ok\r\n".to_string()));
    assert_eq!(response_text(b"22"), None);
    assert_eq!(response_text(&[0x32, 0x32, 0x37, 0xff]), Some("227\u{fffd}".to_string()));
}

#[test]
fn expected_codes_are_told_from_others() {
    assert_eq!(expect_reply(b"226 done\r\n", 200, 300), Ok(226));
    assert_eq!(expect_reply(b"550 no\r\n", 200, 300), Err(ExpectError::Unexpected(550)));
    assert_eq!(expect_reply(b"250 ok\r\n", 250, 251), Ok(250));
    assert_eq!(expect_reply(b"251 ok\r\n", 250, 251), Err(ExpectError::Unexpected(251)));
    assert_eq!(expect_reply(b"2", 200, 300), Err(ExpectError::Unreadable(ReplyError::NoCode)));
    assert_eq!(expect_reply(b"x2y", 200, 300), Err(ExpectError::Unreadable(ReplyError::NotNumber)));
}
