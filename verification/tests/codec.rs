use reliable_udp::packet_building::serialize;
use reliable_udp::packet_splitting::decode;
use reliable_udp::packet_types::{Packet, RawPacket, SequencedAckedPacket, SequencedPacket};

fn dummy_addr() -> u64 {
    1000
}

#[test]
fn raw_packet_strip_marker_too_big() {
    let packet = RawPacket { addr: dummy_addr(), bytes: vec![1] };
    let marker = &[1, 2, 3, 4];
    let result = packet.strip_marker(marker);
    assert_eq!(result.is_none(), true);
}

#[test]
fn raw_packet_strip_marker_no_match() {
    let packet = RawPacket { addr: dummy_addr(), bytes: vec![1, 2, 3] };
    let marker = &[2, 1];
    let result = packet.strip_marker(marker);
    assert_eq!(result.is_none(), true);
}

#[test]
fn raw_packet_strip_marker_match() {
    let packet = RawPacket { addr: dummy_addr(), bytes: vec![1, 2, 3, 4] };
    let marker = &[1, 2];
    let result = packet.strip_marker(marker);
    assert_eq!(result.is_some(), true);

    let unwrapped_result = result.unwrap();
    assert_eq!(unwrapped_result.addr, dummy_addr());
    assert_eq!(unwrapped_result.bytes, vec![3, 4]);
}

#[test]
fn packet_strips_sequence_number() {
    let packet = Packet { addr: dummy_addr(), bytes: vec![1, 2, 3] };
    let result = packet.strip_sequence();
    // Sequence is big endian: 1 * 256, 2 * 1 = 258
    assert_eq!(result.addr, dummy_addr());
    assert_eq!(result.seq_num, 258);
    assert_eq!(result.bytes, vec![3]);
}

#[test]
fn sequenced_packet_add_acks() {
    let packet = SequencedPacket { addr: dummy_addr(), seq_num: 5, bytes: vec![1, 2, 3] };
    let result = packet.add_acks(1, 0b11101101);
    assert_eq!(result.addr, dummy_addr());
    assert_eq!(result.seq_num, 5);
    assert_eq!(result.ack_num, 1);
    assert_eq!(result.ack_field, 0b11101101);
    assert_eq!(result.bytes, vec![1, 2, 3]);
}

#[test]
fn sequenced_packet_strips_acks() {
    let packet =
        SequencedPacket { addr: dummy_addr(), seq_num: 5, bytes: vec![1, 2, 1, 2, 3, 4, 7] };
    let result = packet.strip_acks();
    assert_eq!(result.addr, dummy_addr());
    assert_eq!(result.seq_num, 5);
    // Ack num is big endian: 1 * 256, 2 * 1 = 258
    assert_eq!(result.ack_num, 258);
    // Ack field is big endian: 1 * 0b0001, 2 * 0b0010, etc.
    assert_eq!(result.ack_field, 0b1000000100000001100000100);
    assert_eq!(result.bytes, vec![7]);
}

#[test]
fn sequenced_acked_packet_serialize() {
    let marker = &[1, 2, 3, 4];
    let packet = SequencedAckedPacket {
        addr: dummy_addr(),
        seq_num: 300,
        ack_num: 600,
        ack_field: 111111111,
        bytes: vec![1, 2, 3, 4, 5],
    };
    let result = packet.serialize(marker);
    assert_eq!(result.addr, dummy_addr());

    let expected_bytes: Vec<u8> = vec![
        1, 2, 3, 4, // Marker
        1, 44, // Sequence Num
        2, 88, // Ack Num
        6, 159, 107, 199, // Ack Field
        1, 2, 3, 4, 5, // Payload
    ];

    assert_eq!(result.bytes, expected_bytes);
}

#[test]
fn codec_round_trip_over_own_marker() {
    let packet = SequencedAckedPacket {
        addr: dummy_addr(),
        seq_num: 300,
        ack_num: 600,
        ack_field: 111111111,
        bytes: vec![1, 2, 3, 4, 5],
    };
    let raw = serialize(packet);
    let expected_bytes: Vec<u8> = vec![
        0x30, 0x31, 0x32, // Marker "012"
        0x01, 0x2c, // Sequence Num
        0x02, 0x58, // Ack Num
        0x06, 0x9f, 0x6b, 0xc7, // Ack Field
        1, 2, 3, 4, 5, // Payload
    ];
    assert_eq!(raw.bytes, expected_bytes);

    let decoded = decode(raw).expect("a framed packet decodes");
    assert_eq!(decoded.addr, dummy_addr());
    assert_eq!(decoded.seq_num, 300);
    assert_eq!(decoded.ack_num, 600);
    assert_eq!(decoded.ack_field, 111111111);
    assert_eq!(decoded.bytes, vec![1, 2, 3, 4, 5]);
}

#[test]
fn decode_rejects_foreign_marker() {
    let mut bytes = b"not_marker".to_vec();
    bytes.resize(256, 0);
    assert!(decode(RawPacket { addr: dummy_addr(), bytes }).is_none());
}

#[test]
fn decode_rejects_short_buffer() {
    // opens with the marker but is too short to hold the 11-byte header
    let bytes = vec![0x30, 0x31, 0x32, 0, 1, 0, 2];
    assert!(decode(RawPacket { addr: dummy_addr(), bytes }).is_none());
}

#[test]
fn decode_accepts_header_only_datagram() {
    let packet = SequencedAckedPacket {
        addr: dummy_addr(),
        seq_num: 7,
        ack_num: 9,
        ack_field: 0,
        bytes: vec![],
    };
    let decoded = decode(serialize(packet)).expect("an empty payload decodes");
    assert_eq!(decoded.seq_num, 7);
    assert_eq!(decoded.ack_num, 9);
    assert_eq!(decoded.bytes, Vec::<u8>::new());
}

#[test]
fn fixed_buffer_pipeline_peels_the_header() {
    // a full 256-byte receive buffer: marker, seq 258, ack 515, field 1, payload
    let mut bytes = vec![0x30, 0x31, 0x32, 1, 2, 2, 3, 0, 0, 0, 1];
    bytes.resize(256, 0xab);
    let stripped = reliable_udp::packet_splitting::strip_marker(RawPacket {
        addr: dummy_addr(),
        bytes,
    });
    assert_eq!(stripped.bytes.len(), 253);
    let sequenced = reliable_udp::packet_splitting::strip_sequence(stripped);
    assert_eq!(sequenced.seq_num, 258);
    assert_eq!(sequenced.bytes.len(), 251);
    let full = reliable_udp::packet_splitting::strip_acks(sequenced);
    assert_eq!(full.ack_num, 515);
    assert_eq!(full.ack_field, 1);
    assert_eq!(full.bytes.len(), 245);
    assert!(full.bytes.iter().all(|b| *b == 0xab));
}

#[test]
fn free_builders_attach_the_headers() {
    let packet = Packet { addr: dummy_addr(), bytes: vec![9, 8] };
    let sequenced = reliable_udp::packet_building::add_sequence_number(packet, 42);
    assert_eq!(sequenced.seq_num, 42);
    let full = reliable_udp::packet_building::add_acks(sequenced, 17, 0b1010);
    assert_eq!(full.ack_num, 17);
    assert_eq!(full.ack_field, 0b1010);
    assert_eq!(full.bytes, vec![9, 8]);
}
