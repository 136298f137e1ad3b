use netlabs::smtp::{compose_message, concat3, login_dialogue, quit_line, MESSAGE_ACCEPTED};

#[test]
fn login_dialogue_lines_and_codes() {
    let steps = login_dialogue("user", "pass", "to@example.org");
    let lines: Vec<(&str, i16)> = steps.iter().map(|s| (s.line.as_str(), s.expected)).collect();
    assert_eq!(
        lines,
        vec![
            ("HELO user\r\n", 250),
            ("AUTH LOGIN \r\n", 334),
            ("dXNlcg==\r\n", 334),
            ("cGFzcw==\r\n", 235),
            ("MAIL FROM: <user>\r\n", 250),
            ("RCPT TO: <to@example.org>\r\n", 250),
            ("DATA\r\n", 354),
        ]
    );
}

#[test]
fn base64_padding_of_credentials() {
    let steps = login_dialogue("ab", "abc", "x");
    assert_eq!(steps[2].line, "YWI=\r\n");
    assert_eq!(steps[3].line, "YWJj\r\n");
    let empty = login_dialogue("", "", "");
    assert_eq!(empty[2].line, "\r\n");
}

#[test]
fn message_without_names_or_picture() {
    let lines = vec!["hello".to_string(), "bye".to_string()];
    let msg = compose_message("a@x", None, "b@y", None, "Hi", &lines, None);
    assert_eq!(
        msg,
        "Subject: Hi\r\nMIME-Version: 1.0\r\nContent-Type: multipart/mixed; boundary=frontier\r\n\r\n\
         --frontier\r\nContent-Type: text/plain\r\n\r\nhello\r\nbye\r\n--frontier--\r\n.\r\n"
    );
}

#[test]
fn message_with_names_and_picture() {
    let lines = vec!["text".to_string()];
    let msg = compose_message("a@x", Some("Ann"), "b@y", Some("Bob"), "", &lines, Some(&[1u8, 2, 3]));
    assert_eq!(
        msg,
        "From: Ann <a@x>\r\nTo: Bob <b@y>\r\nSubject: \r\nMIME-Version: 1.0\r\nContent-Type: multipart/mixed; boundary=frontier\r\n\r\n\
         --frontier\r\nContent-Type: text/plain\r\n\r\ntext\r\n\
         \r\n--frontier\r\nContent-Type: image/png\r\nContent-Transfer-Encoding: base64\r\n\r\nAQID\r\n\
         --frontier--\r\n.\r\n"
    );
}

#[test]
fn closing_lines() {
    assert_eq!(quit_line(), "QUIT\r\n");
    assert_eq!(MESSAGE_ACCEPTED, 250);
    assert_eq!(concat3("a", "b", "c"), "abc");
}
