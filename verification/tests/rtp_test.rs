use screen_mirror::transport::rtp::{H264Depacketizer, H264Packetizer, RtpHeader, RtpPacket};

#[test]
fn test_rtp_header_roundtrip() {
    let header = RtpHeader {
        version: 2,
        padding: false,
        extension: false,
        marker: true,
        payload_type: 96,
        sequence_number: 1234,
        timestamp: 90000,
        ssrc: 0xDEADBEEF,
    };
    let bytes = header.serialize();
    let parsed = RtpHeader::parse(&bytes).unwrap();
    assert_eq!(parsed.version, 2);
    assert_eq!(parsed.marker, true);
    assert_eq!(parsed.payload_type, 96);
    assert_eq!(parsed.sequence_number, 1234);
    assert_eq!(parsed.timestamp, 90000);
    assert_eq!(parsed.ssrc, 0xDEADBEEF);
}

#[test]
fn test_single_nal_unit_no_fragmentation() {
    let mut packetizer = H264Packetizer::new(96, 0xAABBCCDD, 1400);
    let nal = vec![0x65; 100];
    let packets = packetizer.packetize(&nal, 90000);
    assert_eq!(packets.len(), 1);
    assert_eq!(packets[0].header.payload_type, 96);
    assert_eq!(packets[0].header.timestamp, 90000);
    assert_eq!(packets[0].header.marker, true);
    assert_eq!(packets[0].payload, nal);
}

#[test]
fn test_large_nal_fua_fragmentation() {
    let mut packetizer = H264Packetizer::new(96, 0xAABBCCDD, 1400);
    let nal = vec![0x65; 5000];
    let packets = packetizer.packetize(&nal, 90000);
    assert!(packets.len() >= 4);
    for pkt in &packets[..packets.len() - 1] {
        assert_eq!(pkt.header.marker, false);
    }
    assert_eq!(packets.last().unwrap().header.marker, true);
    for pkt in &packets {
        assert_eq!(pkt.header.timestamp, 90000);
    }
}

#[test]
fn test_fua_roundtrip() {
    let mut packetizer = H264Packetizer::new(96, 0xAABBCCDD, 1400);
    let mut depacketizer = H264Depacketizer::new();

    let sent_nal = vec![0x65; 5000];
    let packets = packetizer.packetize(&sent_nal, 90000);

    for pkt in &packets {
        depacketizer.push(pkt);
    }
    let reassembled = depacketizer.pop_nal().unwrap();
    assert_eq!(reassembled, sent_nal);
}

#[test]
fn rtp_header_exact_bytes() {
    let header = RtpHeader {
        version: 2,
        padding: true,
        extension: false,
        marker: true,
        payload_type: 96,
        sequence_number: 0x1234,
        timestamp: 0x0102_0304,
        ssrc: 0xA1B2_C3D4,
    };
    assert_eq!(
        header.serialize(),
        [0xA0, 0xE0, 0x12, 0x34, 0x01, 0x02, 0x03, 0x04, 0xA1, 0xB2, 0xC3, 0xD4]
    );
}

#[test]
fn rtp_header_parse_too_short() {
    assert!(RtpHeader::parse(&[0x80; 11]).is_none());
    assert!(RtpPacket::parse(&[0x80; 11]).is_none());
}

#[test]
fn rtp_packet_serialize_parse_roundtrip() {
    let pkt = RtpPacket {
        header: RtpHeader {
            version: 2,
            padding: false,
            extension: false,
            marker: false,
            payload_type: 111,
            sequence_number: 65535,
            timestamp: 480,
            ssrc: 7,
        },
        payload: vec![1, 2, 3, 4, 5],
    };
    let bytes = pkt.serialize();
    assert_eq!(bytes.len(), 17);
    let parsed = RtpPacket::parse(&bytes).unwrap();
    assert_eq!(parsed.header, pkt.header);
    assert_eq!(parsed.payload, pkt.payload);
}

#[test]
fn fua_fragment_headers_and_sizes() {
    // max payload 20 - 12 = 8 bytes, FU-A pieces of 6 bytes.
    let mut packetizer = H264Packetizer::new(96, 1, 20);
    let nal: Vec<u8> = (0..14u8).map(|i| if i == 0 { 0x65 } else { i }).collect();
    let packets = packetizer.packetize(&nal, 5);
    // 13 body bytes in pieces of 6: 6 + 6 + 1.
    assert_eq!(packets.len(), 3);
    assert_eq!(packets[0].payload, vec![0x7C, 0x85, 1, 2, 3, 4, 5, 6]);
    assert_eq!(packets[1].payload, vec![0x7C, 0x05, 7, 8, 9, 10, 11, 12]);
    assert_eq!(packets[2].payload, vec![0x7C, 0x45, 13]);
    assert_eq!(packets[0].header.sequence_number, 0);
    assert_eq!(packets[2].header.sequence_number, 2);
    let more = packetizer.packetize(&[0x41, 9], 6);
    assert_eq!(more[0].header.sequence_number, 3);
}

#[test]
fn depacketizer_single_nal_replaces_buffer() {
    let mut d = H264Depacketizer::new();
    let mk = |payload: Vec<u8>| RtpPacket {
        header: RtpHeader {
            version: 2,
            padding: false,
            extension: false,
            marker: true,
            payload_type: 96,
            sequence_number: 0,
            timestamp: 0,
            ssrc: 0,
        },
        payload,
    };
    d.push(&mk(vec![0x67, 1, 2]));
    d.push(&mk(vec![0x68, 3]));
    assert_eq!(d.pop_nal(), Some(vec![0x68, 3]));
    assert_eq!(d.pop_nal(), None);
    // A continuation fragment without a start is dropped.
    d.push(&mk(vec![0x7C, 0x05, 9, 9]));
    assert_eq!(d.pop_nal(), None);
}

#[test]
fn sequence_numbers_continue_across_calls() {
    let mut pk = H264Packetizer::new(96, 7, 15);
    let first = pk.packetize(&[0x65, 1], 10);
    let second = pk.packetize(&[0x65, 1, 2, 3, 4, 5, 6, 7], 20);
    let third = pk.packetize(&[0x41], 30);
    assert_eq!(first.len(), 1);
    assert_eq!(first[0].header.sequence_number, 0);
    assert_eq!(second.len(), 7);
    for (i, p) in second.iter().enumerate() {
        assert_eq!(p.header.sequence_number, 1 + i as u16);
    }
    assert_eq!(third[0].header.sequence_number, 8);
}

#[test]
fn packets_of_a_nal_depacketize_to_it_from_any_state() {
    let nal: Vec<u8> = (0..40u8).map(|b| if b == 0 { 0x45 } else { b }).collect();
    let mut pk = H264Packetizer::new(96, 7, 20);
    let packets = pk.packetize(&nal, 0);
    let mut d = H264Depacketizer::new();
    d.push(&pk.packetize(&[0x7C, 0x85, 9, 9], 0)[0]);
    for p in &packets {
        d.push(p);
    }
    assert_eq!(d.pop_nal(), Some(nal));
    assert_eq!(d.pop_nal(), None);
}
