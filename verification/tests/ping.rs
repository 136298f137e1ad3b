use netlabs::ping::{
    echo_reply, elapsed_micros, format_i64, format_u64, heartbeat_message, ping_message, reply_timestamp, stats,
    timestamp_token, TimestampError,
};

#[test]
fn decimal_formatting() {
    assert_eq!(format_u64(0), "0");
    assert_eq!(format_u64(1200), "1200");
    assert_eq!(format_u64(u64::MAX), "18446744073709551615");
    assert_eq!(format_i64(-7), "-7");
    assert_eq!(format_i64(i64::MIN), "-9223372036854775808");
    assert_eq!(format_i64(i64::MAX), "9223372036854775807");
}

#[test]
fn messages() {
    assert_eq!(ping_message(3, "2024-05-01T10:00:00+00:00"), "Ping 3 2024-05-01T10:00:00+00:00");
    assert_eq!(ping_message(-128, "t"), "Ping -128 t");
    assert_eq!(heartbeat_message(42, "t"), "Heartbeat 42 t");
}

#[test]
fn timestamp_read_back() {
    let ts = "2024-05-01T10:00:00.250+02:00";
    let msg = heartbeat_message(7, ts);
    assert_eq!(timestamp_token(&msg), Some(ts.to_string()));
    let upper = ping_message(1, ts).to_ascii_uppercase();
    assert_eq!(timestamp_token(&upper), Some(ts.to_string()));
}

#[test]
fn tokens_split_on_ascii_white_space() {
    assert_eq!(timestamp_token("  a\tb \n c d"), Some("c".to_string()));
    assert_eq!(timestamp_token("a b"), None);
    assert_eq!(timestamp_token(""), None);
}

#[test]
fn reply_timestamps() {
    // 2024-05-01T08:00:00.250Z
    let micros = 1_714_550_400_250_000i64;
    assert_eq!(reply_timestamp(b"PING 1 2024-05-01T10:00:00.250+02:00"), Ok(micros));
    assert_eq!(reply_timestamp(b"Heartbeat 1"), Err(TimestampError::Malformed));
    assert_eq!(reply_timestamp(b"Heartbeat 1 yesterday"), Err(TimestampError::InvalidTime));
}

#[test]
fn elapsed_time() {
    assert_eq!(elapsed_micros(1_000, 1_750), 750);
    assert_eq!(elapsed_micros(10, 3), -7);
}

#[test]
fn round_trip_statistics() {
    assert_eq!(stats(vec![]), None);
    assert_eq!(stats(vec![100, 300, 200]), Some((100, 300, 200, 70)));
    assert_eq!(stats(vec![1, 2]), Some((1, 2, 1, 80)));
    assert_eq!(stats(vec![-3, -4]), Some((-4, -3, -4, 80)));
    assert_eq!(stats(vec![5; 10]), Some((5, 5, 5, 0)));
    assert_eq!(stats(vec![0; 12]), Some((0, 0, 0, -20)));
    // the count of replies wraps as an `i8` does
    assert_eq!(stats(vec![0; 200]), Some((0, 0, 0, 660)));
    assert_eq!(stats(vec![0; 300]), Some((0, 0, 0, -340)));
}

#[test]
fn echo_upper_cases_ascii() {
    assert_eq!(echo_reply(b"Ping 1 abc-z"), "PING 1 ABC-Z");
    assert_eq!(echo_reply("ßé x".as_bytes()), "ßé X");
    assert_eq!(echo_reply(&[0x61, 0xff]), "A\u{fffd}");
}
