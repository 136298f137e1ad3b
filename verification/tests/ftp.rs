use netlabs::ftp::{command_words, credentials, parse_listing, parse_pasv_reply, FtpCommand, PasvError, RemoteFile};

#[test]
fn command_lines() {
    assert_eq!(FtpCommand::User("anon".to_string()).text(), "USER anon\r\n");
    assert_eq!(FtpCommand::Pass("secret".to_string()).text(), "PASS secret\r\n");
    assert_eq!(FtpCommand::TypeImage.text(), "TYPE I\r\n");
    assert_eq!(FtpCommand::Passive.text(), "PASV\r\n");
    assert_eq!(FtpCommand::ListDirectory.text(), "MLSD\r\n");
    assert_eq!(FtpCommand::ChangeDirectory("pub".to_string()).text(), "CWD pub\r\n");
    assert_eq!(FtpCommand::Retrieve("a.txt".to_string()).text(), "RETR a.txt\r\n");
    assert_eq!(FtpCommand::Store("b.txt".to_string()).text(), "STOR b.txt\r\n");
    assert_eq!(FtpCommand::Quit.text(), "QUIT\r\n");
}

#[test]
fn expected_reply_codes() {
    assert_eq!(FtpCommand::User(String::new()).expected_codes(), Some((300, 400)));
    assert_eq!(FtpCommand::Pass(String::new()).expected_codes(), Some((200, 300)));
    assert_eq!(FtpCommand::TypeImage.expected_codes(), Some((200, 300)));
    assert_eq!(FtpCommand::ListDirectory.expected_codes(), Some((100, 200)));
    assert_eq!(FtpCommand::Retrieve(String::new()).expected_codes(), Some((100, 200)));
    assert_eq!(FtpCommand::Store(String::new()).expected_codes(), Some((100, 200)));
    assert_eq!(FtpCommand::ChangeDirectory(String::new()).expected_codes(), Some((200, 300)));
    assert_eq!(FtpCommand::Passive.expected_codes(), None);
    assert_eq!(FtpCommand::Quit.expected_codes(), None);
}

#[test]
fn pasv_reply_gives_address() {
    let addr = parse_pasv_reply("227 Entering Passive Mode (127,0,0,1,195,80).\r\n").ok().unwrap();
    assert_eq!(addr.host, [127, 0, 0, 1]);
    assert_eq!(addr.port_high, 195);
    assert_eq!(addr.port_low, 80);
    assert_eq!(addr.port(), 195 * 256 + 80);
}

#[test]
fn pasv_reply_errors() {
    assert_eq!(parse_pasv_reply("abc (1,2,3,4,5,6)").err(), Some(PasvError::BadCode));
    assert_eq!(parse_pasv_reply("200 (1,2,3,4,5,6)").err(), Some(PasvError::NotPassive));
    assert_eq!(parse_pasv_reply("227 no address").err(), Some(PasvError::Malformed));
    assert_eq!(parse_pasv_reply("227 (1,2,3,4,5").err(), Some(PasvError::Malformed));
    assert_eq!(parse_pasv_reply("227 (1,2,3,4,5)").err(), Some(PasvError::Malformed));
    assert_eq!(parse_pasv_reply("227 (1,2,x,4,5,6)").err(), Some(PasvError::BadNumber));
    assert_eq!(parse_pasv_reply("227 (1,2,3,4,5,70000)").err(), Some(PasvError::BadNumber));
}

#[test]
fn listing_entries() {
    let data = "type=dir;modify=20240101; pub\r\nType=file;size=12; notes.txt \r\ntype=cdir; .\r\nnofacts\r\ntype=FILE; upper\r\n";
    let files = parse_listing(data);
    assert_eq!(files.len(), 2);
    assert!(matches!(&files[0], RemoteFile::Dir(n) if n == "pub"));
    assert!(matches!(&files[1], RemoteFile::File(n) if n == "notes.txt"));
}

#[test]
fn listing_of_nothing() {
    assert!(parse_listing("").is_empty());
    assert!(parse_listing("\n\n").is_empty());
}

#[test]
fn credentials_and_command_words() {
    assert_eq!(credentials("user secret pass"), Some(("user".to_string(), "secret pass".to_string())));
    assert_eq!(credentials("nospace"), None);
    assert_eq!(command_words("  load a.txt b.txt \n"), vec!["load", "a.txt", "b.txt"]);
    assert_eq!(command_words("cd  dir\n"), vec!["cd", "", "dir"]);
    assert!(command_words("   \n").is_empty());
}
