use fluxel::codec::{
    build_ack, make_ack_packet, make_data_packet, parse_ack, parse_data_packet, CodecError,
};
use fluxel::seqnum::{distance, seq_before, seq_next, seq_not_after};

#[test]
fn data_packet_layout_is_big_endian() {
    let p = make_data_packet(0x0102, 0x0304_0506, 0x0708_090a_0b0c_0d0e, &[0xaa, 0xbb]).unwrap();
    assert_eq!(
        p,
        vec![
            0x01, 0x00, 0x01, 0x02, 0x03, 0x04, 0x05, 0x06, 0x07, 0x08, 0x09, 0x0a, 0x0b, 0x0c,
            0x0d, 0x0e, 0x00, 0x02, 0xaa, 0xbb
        ]
    );
}

#[test]
fn data_round_trip() {
    let payload: Vec<u8> = (0..300u32).map(|i| (i % 251) as u8).collect();
    let p = make_data_packet(1, 77, 123456, &payload).unwrap();
    assert_eq!(p.len(), 18 + 300);
    assert_eq!(parse_data_packet(&p), Some((77, payload)));
}

#[test]
fn data_round_trip_largest_payload() {
    let payload = vec![9u8; 65535];
    let p = make_data_packet(1, u32::MAX, u64::MAX, &payload).unwrap();
    assert_eq!(parse_data_packet(&p), Some((u32::MAX, payload)));
}

#[test]
fn data_round_trip_empty_payload() {
    let p = make_data_packet(1, 5, 0, &[]).unwrap();
    assert_eq!(p.len(), 18);
    assert_eq!(parse_data_packet(&p), Some((5, vec![])));
}

#[test]
fn oversized_payload_is_refused() {
    let payload = vec![0u8; 65536];
    assert_eq!(make_data_packet(1, 0, 0, &payload), Err(CodecError::InvalidPayloadSize));
}

#[test]
fn malformed_data_is_dropped() {
    let p = make_data_packet(1, 3, 0, &[1, 2, 3]).unwrap();
    assert_eq!(parse_data_packet(&p[..17]), None);
    assert_eq!(parse_data_packet(&p[..20]), None);
    let mut wrong = p.clone();
    wrong[0] = 0x02;
    assert_eq!(parse_data_packet(&wrong), None);
    let mut extra = p.clone();
    extra.push(0xff);
    assert_eq!(parse_data_packet(&extra), Some((3, vec![1, 2, 3])));
}

#[test]
fn ack_layout_and_round_trip() {
    let a = make_ack_packet(0x0102_0304, 0x0506_0708_090a_0b0c);
    assert_eq!(
        a,
        vec![0x02, 0x00, 0x01, 0x02, 0x03, 0x04, 0x05, 0x06, 0x07, 0x08, 0x09, 0x0a, 0x0b, 0x0c]
    );
    assert_eq!(parse_ack(&a), Some((0x0102_0304, 0x0506_0708_090a_0b0c)));
    assert_eq!(build_ack(7, 0b10), make_ack_packet(7, 0b10));
    assert_eq!(parse_ack(&build_ack(u32::MAX, u64::MAX)), Some((u32::MAX, u64::MAX)));
}

#[test]
fn malformed_ack_is_dropped() {
    let a = make_ack_packet(1, 2);
    assert_eq!(parse_ack(&a[..13]), None);
    let mut wrong = a.clone();
    wrong[0] = 0x01;
    assert_eq!(parse_ack(&wrong), None);
    assert_eq!(parse_ack(&[]), None);
}

#[test]
fn serial_number_order() {
    assert!(seq_before(1, 2));
    assert!(!seq_before(2, 1));
    assert!(!seq_before(5, 5));
    assert!(seq_not_after(5, 5));
    assert!(seq_before(u32::MAX, 0));
    assert!(seq_before(u32::MAX - 1, 1));
    assert!(!seq_before(0, 0x8000_0000));
    assert!(seq_before(0, 0x7fff_ffff));
    assert_eq!(distance(u32::MAX, 1), 2);
    assert_eq!(seq_next(u32::MAX), 0);
}
