use fluxel::clock::now_ms;
use fluxel::codec::{make_ack_packet, make_data_packet, parse_ack, parse_data_packet};
use fluxel::packet::FluxelPacket;
use fluxel::receiver::Receiver;
use fluxel::sender::{ConfigError, Sender, SenderConfig, MAX_PAYLOAD};

fn config() -> SenderConfig {
    SenderConfig { window_size: 256, payload_size: 1000, retrans_timeout_ms: 250, stream_id: 1 }
}

fn source(n: usize) -> Vec<u8> {
    (0..n).map(|i| (i * 7 % 256) as u8).collect()
}

/// Feeds `data` to the sender in chunks of the configured size, then the end
/// of the source; returns the datagrams sent.
fn send_all(s: &mut Sender, data: &[u8], now: u64) -> Vec<Vec<u8>> {
    let mut sent = Vec::new();
    let size = s.config.payload_size;
    let mut pos = 0;
    while s.wants_data() {
        let end = std::cmp::min(pos + size, data.len());
        match s.push_chunk(&data[pos..end], now) {
            Some(d) => sent.push(d),
            None => break,
        }
        pos = end;
    }
    sent
}

#[test]
fn lossless_transfer() {
    let data = source(3000);
    let mut s = Sender::new(config(), 0).unwrap();
    let mut r = Receiver::new(0, 150);
    let sent = send_all(&mut s, &data, 1000);
    assert_eq!(sent.len(), 3);
    assert!(s.eof_reached);
    for (i, d) in sent.iter().enumerate() {
        let (seq, p) = parse_data_packet(d).unwrap();
        assert_eq!(seq, i as u32);
        assert_eq!(p.len(), 1000);
        assert!(r.on_datagram(d, 1000));
    }
    assert_eq!(r.build_ack(), (2, 0));
    assert!(r.advance_playout(1149).is_empty());
    let out = r.advance_playout(1150);
    assert_eq!(out.concat(), data);
    assert_eq!(r.next_expected, 3);
    assert!(!s.is_done());
    let (c, b) = parse_ack(&make_ack_packet(2, 0)).unwrap();
    assert!(s.on_ack(c, b, 1100).is_empty());
    assert!(s.is_done());
}

#[test]
fn single_drop_is_recovered_from_bitmap() {
    let data = source(3000);
    let mut s = Sender::new(config(), 0).unwrap();
    let mut r = Receiver::new(0, 150);
    let sent = send_all(&mut s, &data, 0);
    assert!(r.on_datagram(&sent[0], 10));
    assert!(r.on_datagram(&sent[2], 20));
    assert_eq!(r.build_ack(), (0, 0b10));
    let resent = s.on_ack(0, 0b10, 100);
    assert_eq!(resent, vec![sent[1].clone()]);
    assert_eq!(s.window.len(), 2);
    assert_eq!(s.window[0].seq, 1);
    assert_eq!(s.window[0].transmit_count, 2);
    assert_eq!(s.window[0].last_sent_ms, 100);
    assert_eq!(s.window[1].seq, 2);
    assert_eq!(s.window[1].transmit_count, 1);
    assert_eq!(r.advance_playout(200).concat(), data[..1000].to_vec());
    assert!(r.on_datagram(&resent[0], 110));
    assert_eq!(r.build_ack(), (2, 0));
    assert!(r.advance_playout(259).is_empty());
    assert_eq!(r.advance_playout(260).concat(), data[1000..].to_vec());
    assert!(s.on_ack(2, 0, 300).is_empty());
    assert!(s.is_done());
}

#[test]
fn reordered_arrivals_play_in_order() {
    let mut r = Receiver::new(0, 150);
    let d: Vec<Vec<u8>> =
        (0..3u32).map(|i| make_data_packet(1, i, 0, &[i as u8; 4]).unwrap()).collect();
    assert!(r.on_datagram(&d[2], 0));
    assert_eq!(r.build_ack(), (u32::MAX, 0b100));
    assert!(r.on_datagram(&d[0], 10));
    assert!(r.on_datagram(&d[1], 20));
    assert_eq!(r.buffer.len(), 3);
    assert_eq!(r.build_ack(), (2, 0));
    assert_eq!(r.advance_playout(160), vec![vec![0u8; 4]]);
    assert_eq!(r.advance_playout(170), vec![vec![1u8; 4], vec![2u8; 4]]);
    assert_eq!(r.build_ack(), (2, 0));
}

#[test]
fn duplicate_is_suppressed() {
    let mut r = Receiver::new(0, 150);
    let d = make_data_packet(1, 0, 0, b"hello").unwrap();
    assert!(r.on_datagram(&d, 0));
    assert!(!r.on_datagram(&d, 5));
    let out = r.advance_playout(500);
    assert_eq!(out, vec![b"hello".to_vec()]);
    assert!(!r.on_datagram(&d, 600));
    assert!(r.advance_playout(1000).is_empty());
}

#[test]
fn timeouts_resend_every_entry() {
    let mut s = Sender::new(config(), 0).unwrap();
    let sent = send_all(&mut s, &source(3000), 0);
    assert!(s.scan_timeouts(250).is_empty());
    assert_eq!(s.scan_timeouts(251), sent);
    assert!(s.window.iter().all(|e| e.transmit_count == 2 && e.last_sent_ms == 251));
    assert!(s.scan_timeouts(501).is_empty());
    assert_eq!(s.scan_timeouts(502), sent);
    assert!(s.window.iter().all(|e| e.transmit_count == 3));
}

#[test]
fn sequence_numbers_wrap() {
    let first = u32::MAX - 1;
    let data = source(4000);
    let mut s = Sender::new(config(), first).unwrap();
    let mut r = Receiver::new(first, 150);
    let sent = send_all(&mut s, &data, 0);
    let seqs: Vec<u32> = sent.iter().map(|d| parse_data_packet(d).unwrap().0).collect();
    assert_eq!(seqs, vec![u32::MAX - 1, u32::MAX, 0, 1]);
    assert!(r.on_datagram(&sent[0], 0));
    assert!(r.on_datagram(&sent[2], 0));
    assert!(r.on_datagram(&sent[3], 0));
    assert_eq!(r.build_ack(), (u32::MAX - 1, 0b110));
    let resent = s.on_ack(u32::MAX - 1, 0b110, 10);
    assert_eq!(resent, vec![sent[1].clone()]);
    assert_eq!(s.window.len(), 3);
    assert!(r.on_datagram(&resent[0], 20));
    assert_eq!(r.build_ack(), (1, 0));
    assert_eq!(r.advance_playout(170).concat(), data);
    assert_eq!(r.next_expected, 2);
    assert!(s.on_ack(1, 0, 30).is_empty());
    assert!(s.is_done());
}

#[test]
fn stale_ack_removes_nothing() {
    let mut s = Sender::new(config(), 10).unwrap();
    send_all(&mut s, &source(2000), 0);
    assert!(s.on_ack(5, u64::MAX, 0).is_empty());
    assert_eq!(s.window.len(), 2);
    assert!(s.on_ack(10, u64::MAX, 0).is_empty());
    assert_eq!(s.window.len(), 1);
}

#[test]
fn repeated_ack_keeps_window() {
    let mut s = Sender::new(config(), 0).unwrap();
    send_all(&mut s, &source(4000), 0);
    assert_eq!(s.on_ack(0, 0b10, 5).len(), 2);
    let seqs: Vec<u32> = s.window.iter().map(|e| e.seq).collect();
    assert_eq!(s.on_ack(0, 0b10, 6).len(), 2);
    let again: Vec<u32> = s.window.iter().map(|e| e.seq).collect();
    assert_eq!(seqs, again);
    assert_eq!(again, vec![1, 2, 3]);
    assert_eq!(s.window[0].transmit_count, 3);
    assert_eq!(s.window[1].transmit_count, 1);
    assert_eq!(s.window[2].transmit_count, 3);
}

#[test]
fn window_is_bounded() {
    let cfg = SenderConfig { window_size: 4, payload_size: 10, retrans_timeout_ms: 250, stream_id: 1 };
    let mut s = Sender::new(cfg, 0).unwrap();
    let sent = send_all(&mut s, &source(100), 0);
    assert_eq!(sent.len(), 4);
    assert_eq!(s.window.len(), 4);
    assert!(!s.wants_data());
    assert_eq!(s.push_chunk(&[1, 2, 3], 0), None);
    assert_eq!(s.window.len(), 4);
    s.on_ack(1, 0, 0);
    assert_eq!(s.window.len(), 2);
    assert!(s.wants_data());
}

#[test]
fn oversized_payload_config_is_refused() {
    let cfg = SenderConfig { window_size: 4, payload_size: MAX_PAYLOAD + 1, retrans_timeout_ms: 1, stream_id: 1 };
    assert!(matches!(Sender::new(cfg, 0), Err(ConfigError::InvalidPayloadSize)));
    let cfg = SenderConfig { payload_size: MAX_PAYLOAD, ..cfg };
    assert!(Sender::new(cfg, 0).is_ok());
}

#[test]
fn stamped_chunk_carries_seq_and_payload() {
    let mut s = Sender::new(config(), 42).unwrap();
    let d = s.push_chunk_now(b"abc").unwrap();
    assert_eq!(parse_data_packet(&d), Some((42, b"abc".to_vec())));
    assert_eq!(s.next_seq, 43);
    assert_eq!(s.push_chunk_now(b""), None);
    assert!(s.eof_reached);
}

#[test]
fn packet_record_is_stamped() {
    let before = now_ms() as u128;
    let p = FluxelPacket::new(9, String::from("frame"));
    assert_eq!(p.seq_num, 9);
    assert_eq!(p.payload, "frame");
    assert!(p.timestamp >= before);
    assert!(before > 1_500_000_000_000);
}

#[test]
fn non_data_datagram_is_dropped() {
    let mut r = Receiver::new(0, 0);
    assert!(!r.on_datagram(&make_ack_packet(0, 0), 0));
    assert!(!r.on_datagram(&[0x01, 0x00], 0));
    assert!(r.buffer.is_empty());
}

#[test]
fn packet_record_takes_given_stamp() {
    let p = FluxelPacket::new_at(3, String::from("x"), 1_700_000_000_123);
    assert_eq!(p.seq_num, 3);
    assert_eq!(p.payload, "x");
    assert_eq!(p.timestamp, 1_700_000_000_123u128);
}

#[test]
fn resends_come_in_seq_order_across_wrap() {
    let mut s = Sender::new(config(), u32::MAX - 2).unwrap();
    let sent = send_all(&mut s, &source(5000), 0);
    assert_eq!(sent.len(), 5);
    let resent = s.on_ack(u32::MAX - 2, 0b0101, 7);
    let seqs: Vec<u32> = resent.iter().map(|d| parse_data_packet(d).unwrap().0).collect();
    assert_eq!(seqs, vec![u32::MAX, 1]);
}
