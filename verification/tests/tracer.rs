use netlabs::tracer::{
    checksum, classify_reply, probe_sequence, Icmp, IcmpReply, ProbeRound, ReplyInfo, ReplyVerdict, RoundError,
    MAGIC_NUMBER,
};

#[test]
fn internet_checksum_exact_value() {
    // 0x0201 + 0x0403 = 0x0604, complemented
    assert_eq!(checksum(&[1, 2, 3, 4]), !0x0604u16);
    // carries fold back into the low half
    assert_eq!(checksum(&[0xff, 0xff, 0x01, 0x00]), !0x0001u16);
    assert_eq!(checksum(&[]), 0xffff);
}

#[test]
fn echo_request_checks_to_zero() {
    let data = Icmp { id: MAGIC_NUMBER, seq: 0x0302 }.build();
    assert_eq!(data[0], 8);
    assert_eq!(data[4], 0x34);
    assert_eq!(data[5], 0x12);
    assert_eq!(data[6], 0x02);
    assert_eq!(data[7], 0x03);
    assert_eq!(checksum(&data), 0);
}

#[test]
fn echo_request_reads_back() {
    let data = Icmp { id: 0xbeef, seq: 7 }.build();
    let reply = IcmpReply::from_bytes(&data).unwrap();
    assert_eq!(reply.ty, 8);
    assert_eq!(reply.id, 0xbeef);
    assert_eq!(reply.seq, 7);
    assert!(IcmpReply::from_bytes(&data[..7]).is_none());
}

#[test]
fn probe_sequence_packs_ttl_and_probe() {
    assert_eq!(probe_sequence(2, 3), 0x0302);
    assert_eq!(probe_sequence(0, 0), 0);
    assert_eq!(probe_sequence(255, 255), 0xffff);
}

fn ip_header(sender: [u8; 4]) -> Vec<u8> {
    let mut h = vec![0x45u8, 0, 0, 0, 0, 0, 0, 0, 64, 1, 0, 0];
    h.extend_from_slice(&sender);
    h.extend_from_slice(&[10, 0, 0, 1]);
    h
}

#[test]
fn echo_reply_of_current_round_is_matched() {
    let mut buf = ip_header([8, 8, 4, 4]);
    let mut echo = Icmp { id: MAGIC_NUMBER, seq: probe_sequence(1, 5) }.build().to_vec();
    echo[0] = 0;
    buf.extend_from_slice(&echo);
    buf.resize(64, 0);
    let info = classify_reply(&buf, 32, 5).unwrap();
    assert_eq!(info.sender, [8, 8, 4, 4]);
    assert_eq!(info.verdict, ReplyVerdict::Probe(1));
    let other_round = classify_reply(&buf, 32, 6).unwrap();
    assert_eq!(other_round.verdict, ReplyVerdict::WrongTtl);
    assert!(classify_reply(&buf, 27, 5).is_none());
}

#[test]
fn time_exceeded_reply_reads_the_quoted_probe() {
    let mut buf = ip_header([192, 168, 0, 1]);
    buf.extend_from_slice(&[11, 0, 0, 0, 0, 0, 0, 0]);
    buf.extend_from_slice(&ip_header([10, 0, 0, 1]));
    buf.extend_from_slice(&Icmp { id: MAGIC_NUMBER, seq: probe_sequence(2, 1) }.build());
    buf.resize(128, 0);
    let info = classify_reply(&buf, 60, 1).unwrap();
    assert_eq!(info.sender, [192, 168, 0, 1]);
    assert_eq!(info.verdict, ReplyVerdict::Probe(2));
}

#[test]
fn foreign_replies_are_told_apart() {
    let mut buf = ip_header([1, 1, 1, 1]);
    let mut echo = Icmp { id: 0x4321, seq: probe_sequence(0, 1) }.build().to_vec();
    echo[0] = 0;
    buf.extend_from_slice(&echo);
    buf.resize(64, 0);
    assert_eq!(classify_reply(&buf, 32, 1).unwrap().verdict, ReplyVerdict::WrongMagic);
    buf[20] = 3;
    assert_eq!(classify_reply(&buf, 32, 1).unwrap().verdict, ReplyVerdict::WrongType);
}

#[test]
fn any_buffer_checks_after_its_checksum_is_written() {
    for len in [4usize, 5, 12, 33] {
        let mut data: Vec<u8> = (0..len).map(|i| (i * 37 + 11) as u8).collect();
        data[2] = 0;
        data[3] = 0;
        let c = checksum(&data);
        data[2] = (c & 0xff) as u8;
        data[3] = (c >> 8) as u8;
        assert_eq!(checksum(&data), 0, "length {len}");
    }
    let mut zeros = vec![0u8; 8];
    let c = checksum(&zeros);
    zeros[2] = (c & 0xff) as u8;
    zeros[3] = (c >> 8) as u8;
    assert_eq!(checksum(&zeros), 0);
}

#[test]
fn round_counts_answers_and_rejects_unsent_probes() {
    let mut round = ProbeRound::new(3);
    assert_eq!(round.left, 3);
    assert_eq!(round.sender, None);
    let other = ReplyInfo { sender: [10, 0, 0, 1], verdict: ReplyVerdict::WrongTtl };
    assert_eq!(round.take_reply(other), Ok(None));
    assert_eq!(round.left, 3);
    assert_eq!(round.sender, Some([10, 0, 0, 1]));
    let answer = ReplyInfo { sender: [10, 0, 0, 2], verdict: ReplyVerdict::Probe(2) };
    assert_eq!(round.take_reply(answer), Ok(Some(2)));
    assert_eq!(round.left, 2);
    assert_eq!(round.sender, Some([10, 0, 0, 2]));
    let unsent = ReplyInfo { sender: [10, 0, 0, 3], verdict: ReplyVerdict::Probe(3) };
    assert_eq!(round.take_reply(unsent), Err(RoundError::ProbeOutOfRange));
    assert_eq!(round.left, 1);
}
