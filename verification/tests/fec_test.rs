use screen_mirror::transport::fec::{FecDecoder, FecEncoder, FecHeader};
use screen_mirror::transport::rtp::{RtpHeader, RtpPacket};

fn make_rtp(seq: u16, pt: u8, payload: &[u8]) -> RtpPacket {
    RtpPacket {
        header: RtpHeader {
            version: 2,
            padding: false,
            extension: false,
            marker: seq % 6 == 5,
            payload_type: pt,
            sequence_number: seq,
            timestamp: seq as u32 * 3000,
            ssrc: 0xAAAAAAAA,
        },
        payload: payload.to_vec(),
    }
}

#[test]
fn test_fec_encoder_produces_parity_after_group_size() {
    let mut enc = FecEncoder::new(6, 96);
    for i in 0..5u16 {
        let pkt = make_rtp(i, 96, &[i as u8; 100]);
        assert!(enc.push(&pkt).is_none());
    }
    let pkt = make_rtp(5, 96, &[5u8; 100]);
    let fec_pkt = enc.push(&pkt).expect("should produce FEC packet after 6th");
    assert_eq!(fec_pkt.header.payload_type, 127);
}

#[test]
fn test_fec_recovers_single_lost_packet() {
    let mut enc = FecEncoder::new(4, 96);
    let packets: Vec<RtpPacket> = (0..4u16)
        .map(|i| make_rtp(i, 96, &[(i as u8 + 1) * 17; 50]))
        .collect();

    let mut fec_pkt = None;
    for pkt in &packets {
        fec_pkt = enc.push(pkt);
    }
    let fec_pkt = fec_pkt.unwrap();

    let mut dec = FecDecoder::new();
    dec.push_fec(&fec_pkt);
    dec.push_media(&packets[0]);
    dec.push_media(&packets[1]);
    dec.push_media(&packets[3]);

    let recovered = dec.recover(2).expect("should recover seq=2");
    assert_eq!(recovered, packets[2].payload);
}

#[test]
fn test_fec_cannot_recover_two_lost_packets() {
    let mut enc = FecEncoder::new(4, 96);
    let packets: Vec<RtpPacket> = (0..4u16).map(|i| make_rtp(i, 96, &[i as u8; 50])).collect();

    let mut fec_pkt = None;
    for pkt in &packets {
        fec_pkt = enc.push(pkt);
    }
    let fec_pkt = fec_pkt.unwrap();

    let mut dec = FecDecoder::new();
    dec.push_fec(&fec_pkt);
    dec.push_media(&packets[0]);
    dec.push_media(&packets[3]);

    assert!(dec.recover(1).is_none());
    assert!(dec.recover(2).is_none());
}

#[test]
fn fec_header_exact_bytes_and_roundtrip() {
    let h = FecHeader { base_seq: 0xBEEF, group_len: 6, media_pt: 96 };
    let bytes = h.serialize();
    assert_eq!(bytes, [0xBE, 0xEF, 6, 96]);
    assert_eq!(FecHeader::parse(&bytes), Some(h));
    assert_eq!(FecHeader::parse(&[1, 2, 3]), None);
}

#[test]
fn fec_parity_payload_is_padded_xor() {
    let mut enc = FecEncoder::new(2, 96);
    assert!(enc.push(&make_rtp(10, 96, &[0x0F, 0xF0, 0xFF])).is_none());
    let fec = enc.push(&make_rtp(11, 96, &[0xFF])).unwrap();
    assert_eq!(fec.payload, vec![0, 10, 2, 96, 0xF0, 0xF0, 0xFF]);
    assert_eq!(fec.header.sequence_number, 0);
    assert_eq!(fec.header.timestamp, 0);
    assert!(!fec.header.marker);
    let fec2 = {
        enc.push(&make_rtp(12, 96, &[1]));
        enc.push(&make_rtp(13, 96, &[2])).unwrap()
    };
    assert_eq!(fec2.header.sequence_number, 1);
    assert_eq!(fec2.header.ssrc, fec.header.ssrc);
}

#[test]
fn fec_flush_closes_partial_group() {
    let mut enc = FecEncoder::new(6, 111);
    assert!(enc.flush().is_none());
    assert!(enc.push(&make_rtp(7, 111, &[3, 4])).is_none());
    let fec = enc.flush().unwrap();
    assert_eq!(fec.payload, vec![0, 7, 1, 111, 3, 4]);
    assert!(enc.flush().is_none());
}

#[test]
fn fec_recovery_pads_shorter_payload() {
    let mut enc = FecEncoder::new(3, 96);
    let p0 = make_rtp(100, 96, &[1, 2, 3, 4]);
    let p1 = make_rtp(101, 96, &[9]);
    let p2 = make_rtp(102, 96, &[5, 6]);
    enc.push(&p0);
    enc.push(&p1);
    let fec = enc.push(&p2).unwrap();
    let mut dec = FecDecoder::new();
    dec.push_fec(&fec);
    dec.push_media(&p0);
    dec.push_media(&p2);
    assert_eq!(dec.recover(101), Some(vec![9, 0, 0, 0]));
    // A sequence number outside every group cannot be rebuilt.
    assert_eq!(dec.recover(200), None);
}

#[test]
fn fec_group_across_sequence_wrap() {
    let mut enc = FecEncoder::new(3, 96);
    let ps = [make_rtp(65535, 96, &[1, 1]), make_rtp(0, 96, &[2, 2]), make_rtp(1, 96, &[4, 4])];
    enc.push(&ps[0]);
    enc.push(&ps[1]);
    let fec = enc.push(&ps[2]).unwrap();
    let mut dec = FecDecoder::new();
    dec.push_fec(&fec);
    dec.push_media(&ps[0]);
    dec.push_media(&ps[2]);
    assert_eq!(dec.recover(0), Some(vec![2, 2]));
}

#[test]
fn fec_remove_old_groups_drops_earlier_groups() {
    let mut enc = FecEncoder::new(2, 96);
    let a = [make_rtp(10, 96, &[1]), make_rtp(11, 96, &[2])];
    enc.push(&a[0]);
    let fec_a = enc.push(&a[1]).unwrap();
    let b = [make_rtp(500, 96, &[3]), make_rtp(501, 96, &[4])];
    enc.push(&b[0]);
    let fec_b = enc.push(&b[1]).unwrap();
    let mut dec = FecDecoder::new();
    dec.push_fec(&fec_a);
    dec.push_fec(&fec_b);
    dec.push_media(&a[0]);
    dec.push_media(&b[0]);
    dec.remove_old_groups(400);
    assert_eq!(dec.recover(11), None);
    assert_eq!(dec.recover(501), Some(vec![4]));
}

#[test]
fn fec_short_parity_payload_ignored() {
    let mut dec = FecDecoder::new();
    dec.push_fec(&make_rtp(0, 127, &[0, 1, 2]));
    dec.push_media(&make_rtp(0, 96, &[5]));
    assert_eq!(dec.recover(1), None);
}

#[test]
fn encoder_run_emits_one_parity_per_group() {
    let mut enc = FecEncoder::new(2, 96);
    let mut outs = Vec::new();
    for s in 0..5u16 {
        outs.push(enc.push(&make_rtp(100 + s, 96, &[s as u8, 1])));
    }
    assert!(outs[0].is_none() && outs[2].is_none() && outs[4].is_none());
    let f1 = outs[1].as_ref().unwrap();
    let f3 = outs[3].as_ref().unwrap();
    assert_eq!(f1.header.sequence_number, 0);
    assert_eq!(f3.header.sequence_number, 1);
    assert_eq!(f1.header.ssrc, f3.header.ssrc);
    assert_eq!(f1.header.payload_type, 127);
    assert_eq!(&f1.payload[..], &[0, 100, 2, 96, 0 ^ 1, 0][..]);
    assert_eq!(&f3.payload[..], &[0, 102, 2, 96, 2 ^ 3, 0][..]);
}

#[test]
fn shorter_lost_packet_comes_back_zero_padded() {
    let mut enc = FecEncoder::new(3, 96);
    let packets = vec![
        make_rtp(65535, 96, &[1, 2, 3, 4]),
        make_rtp(0, 96, &[9, 9]),
        make_rtp(1, 96, &[5, 6, 7]),
    ];
    let mut fec_pkt = None;
    for p in &packets {
        fec_pkt = enc.push(p);
    }
    let mut dec = FecDecoder::new();
    dec.push_fec(&fec_pkt.unwrap());
    dec.push_media(&packets[0]);
    dec.push_media(&packets[2]);
    assert_eq!(dec.recover(0), Some(vec![9, 9, 0, 0]));
    assert_eq!(dec.recover(0), Some(vec![9, 9, 0, 0]));
}
