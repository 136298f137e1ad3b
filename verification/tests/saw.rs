use netlabs::saw::{build_packet, check, checksum, ChecksumError, ReceptionKind, Receiver, Sender, HEADER_SIZE};

#[test]
fn checksum_correct_odd() {
    let mut data = *b"fo  obarbaz";
    data[2] = 0;
    data[3] = 0;
    let sm = checksum(&data);
    data[2] = sm[0];
    data[3] = sm[1];
    assert!(matches!(check(&data), Result::Ok(_)));
}

#[test]
fn checksum_correct_even() {
    let mut data = *b"ba  rabaraberebere";
    data[2] = 0;
    data[3] = 0;
    let sm = checksum(&data);
    data[2] = sm[0];
    data[3] = sm[1];
    assert!(matches!(check(&data), Result::Ok(_)));
}

#[test]
fn checksum_wrong() {
    let mut data = *b"fo  obarbazz";
    data[2] = 0;
    data[3] = 0;
    let sm = checksum(&data[..10]);
    data[2] = sm[0];
    data[3] = sm[1];
    data[1] = data[1] - 1;
    assert!(matches!(check(&data), Result::Err(_)));
}

#[test]
fn checksum_exact_value() {
    // words 0x0201 and 0x0403 sum to 0x0604; the complement is 0xf9fb
    assert_eq!(checksum(&[1, 2, 3, 4]), [0xfb, 0xf9]);
    // an odd last byte counts as a low byte
    assert_eq!(checksum(&[5]), [0xfa, 0xff]);
    assert_eq!(checksum(&[]), [0xff, 0xff]);
}

#[test]
fn check_rejects_plain_zeroes() {
    assert_eq!(check(&[0, 0, 0, 0]), Err(ChecksumError::Incorrect));
    assert_eq!(check(&[0xff, 0xff]), Ok(()));
}

#[test]
fn built_packet_layout_and_check() {
    let pkt = build_packet(1, b"hello");
    assert_eq!(pkt.len(), HEADER_SIZE + 5);
    assert_eq!(pkt[0], 5);
    assert_eq!(pkt[1], 1);
    assert_eq!(&pkt[4..], b"hello");
    assert_eq!(check(&pkt), Ok(()));
}

#[test]
fn receiver_takes_fresh_packet_and_ignores_repeat() {
    let mut receiver = Receiver::new();
    assert_eq!(receiver.expected(), 0);
    let pkt = build_packet(0, b"abc");
    let rec = receiver.accept_packet(&pkt);
    assert_eq!(rec.ack, 0);
    assert_eq!(rec.kind, ReceptionKind::Delivered);
    assert_eq!(rec.payload, b"abc".to_vec());
    assert!(!rec.finished);
    assert_eq!(receiver.expected(), 1);
    assert_eq!(receiver.received(), 3);
    // the same packet again is acknowledged but not taken
    let again = receiver.accept_packet(&pkt);
    assert_eq!(again.ack, 0);
    assert_eq!(again.kind, ReceptionKind::Duplicate);
    assert!(again.payload.is_empty());
    assert_eq!(receiver.received(), 3);
}

#[test]
fn receiver_drops_corrupted_and_finishes_on_empty() {
    let mut receiver = Receiver::new();
    let mut pkt = build_packet(0, b"xy");
    pkt[5] ^= 1;
    let rec = receiver.accept_packet(&pkt);
    assert_eq!(rec.kind, ReceptionKind::Corrupted);
    assert_eq!(receiver.expected(), 0);
    let last = build_packet(0, b"");
    let rec = receiver.accept_packet(&last);
    assert_eq!(rec.kind, ReceptionKind::Delivered);
    assert!(rec.finished);
}

#[test]
fn sender_moves_on_only_with_matching_ack() {
    let mut sender = Sender::new();
    assert_eq!(sender.index(), 0);
    let pkt = sender.packet(b"data");
    assert_eq!(pkt[1], 0);
    assert!(!sender.acknowledge(1, 4));
    assert_eq!(sender.index(), 0);
    assert!(sender.acknowledge(0, 4));
    assert_eq!(sender.index(), 1);
    assert_eq!(sender.sent(), 4);
}

#[test]
fn any_single_byte_change_is_caught() {
    let pkt = build_packet(1, b"odd payload");
    assert_eq!(check(&pkt), Ok(()));
    for i in 0..pkt.len() {
        for delta in [1u8, 7, 128, 255] {
            let mut bad = pkt.clone();
            bad[i] = bad[i].wrapping_add(delta);
            assert_eq!(check(&bad), Err(ChecksumError::Incorrect), "byte {i} changed by {delta}");
        }
    }
}
