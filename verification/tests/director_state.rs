use std::collections::HashMap;

use reliable_udp::constants::{MAX_RESEND_ATTEMPTS, PACKET_DROP_TIME};
use reliable_udp::director::{
    add_packet_to_ack_map, delete_acked_packets, extract_dropped_packets, increment_seq_number,
    Director,
};
use reliable_udp::packet_types::{Packet, SequencedAckedPacket};
use reliable_udp::pending::PendingTable;

fn addr_a() -> u64 {
    54234
}

#[test]
fn extract_dropped_packets_test() {
    let addr = addr_a();
    let mut packets_awaiting_ack = PendingTable::new();
    let now: u64 = 100;

    let dropped_packets = extract_dropped_packets(&mut packets_awaiting_ack, now);
    assert_eq!(dropped_packets.len(), 0);

    let not_dropped_packet = SequencedAckedPacket {
        addr,
        seq_num: 1,
        ack_num: 2,
        ack_field: 3,
        bytes: vec![1],
    };
    packets_awaiting_ack.insert(&not_dropped_packet, now, 2);
    let dropped_packets = extract_dropped_packets(&mut packets_awaiting_ack, now);
    assert_eq!(dropped_packets.len(), 0);

    let dropped_packet = SequencedAckedPacket {
        addr,
        seq_num: 2,
        ack_num: 2,
        ack_field: 3,
        bytes: vec![1],
    };
    packets_awaiting_ack.insert(&dropped_packet, now - (PACKET_DROP_TIME + 5), 1);
    let dropped_packets = extract_dropped_packets(&mut packets_awaiting_ack, now);
    assert_eq!(dropped_packets.len(), 1);
    assert_eq!(dropped_packets[0].packet.seq_num, dropped_packet.seq_num);
    assert_eq!(dropped_packets[0].packet.bytes, dropped_packet.bytes);
    assert_eq!(dropped_packets[0].tries, 1);
}

#[test]
fn entry_at_the_drop_boundary_is_kept() {
    let mut table = PendingTable::new();
    let packet = SequencedAckedPacket {
        addr: addr_a(),
        seq_num: 1,
        ack_num: 0,
        ack_field: 0,
        bytes: vec![],
    };
    // waited exactly PACKET_DROP_TIME: not yet dropped
    table.insert(&packet, 10, 1);
    assert_eq!(extract_dropped_packets(&mut table, 10 + PACKET_DROP_TIME).len(), 0);
    assert_eq!(table.len(), 1);
    // one second more: dropped
    assert_eq!(extract_dropped_packets(&mut table, 10 + PACKET_DROP_TIME + 1).len(), 1);
    assert_eq!(table.len(), 0);
}

#[test]
fn delete_acked_packets_test() {
    let addr = 58234u64;
    let mut packets_awaiting_ack = PendingTable::new();
    for idx in 1u16..5 {
        let packet = SequencedAckedPacket {
            addr,
            seq_num: idx.wrapping_sub(2),
            ack_num: 2,
            ack_field: 3,
            bytes: vec![1],
        };
        packets_awaiting_ack.insert(&packet, 0, 1);
    }
    assert_eq!(packets_awaiting_ack.len(), 4);

    let ack_packet = SequencedAckedPacket {
        addr,
        seq_num: 1,
        ack_num: 3,
        ack_field: 0,
        bytes: vec![1],
    };
    delete_acked_packets(&ack_packet, &mut packets_awaiting_ack);
    assert_eq!(packets_awaiting_ack.len(), 4);

    let ack_packet = SequencedAckedPacket {
        addr,
        seq_num: 1,
        ack_num: 2,
        ack_field: 0,
        bytes: vec![1],
    };
    delete_acked_packets(&ack_packet, &mut packets_awaiting_ack);
    assert_eq!(packets_awaiting_ack.len(), 3);

    let ack_packet = SequencedAckedPacket {
        addr,
        seq_num: 1,
        ack_num: 1,
        ack_field: 0b11,
        bytes: vec![1],
    };
    delete_acked_packets(&ack_packet, &mut packets_awaiting_ack);
    assert_eq!(packets_awaiting_ack.len(), 0);
}

#[test]
fn increment_seq_number_test() {
    let addr = addr_a();
    let mut seq_num_map: HashMap<u64, u16> = HashMap::new();
    let result = increment_seq_number(&mut seq_num_map, addr);
    assert_eq!(result, 1);
    let result = increment_seq_number(&mut seq_num_map, addr);
    assert_eq!(result, 2);
    let result = increment_seq_number(&mut seq_num_map, addr);
    assert_eq!(result, 3);
    seq_num_map.insert(addr, u16::MAX);
    let result = increment_seq_number(&mut seq_num_map, addr);
    assert_eq!(result, 0);
}

#[test]
fn add_packet_to_waiting_test() {
}

#[test]
fn add_packet_to_ack_map_test() {
}

#[test]
fn ack_map_starts_fresh_window_per_peer() {
    let mut ack_map = HashMap::new();
    add_packet_to_ack_map(7, 5, &mut ack_map);
    add_packet_to_ack_map(7, 10, &mut ack_map);
    add_packet_to_ack_map(8, 3, &mut ack_map);
    let acks_7 = ack_map.get(&7).unwrap();
    assert_eq!(acks_7.ack_num, 10);
    // bit 4 records seq 5; bit 9 records the fresh window's seq 0
    assert_eq!(acks_7.ack_field, 0b1000010000);
    let acks_8 = ack_map.get(&8).unwrap();
    assert_eq!(acks_8.ack_num, 3);
    assert_eq!(acks_8.ack_field, 0b100);
}

#[test]
fn first_send_carries_seq_one_and_empty_acks() {
    let mut director = Director::new();
    let payload = Packet { addr: addr_a(), bytes: b"X".to_vec() };
    let (to_app, to_wire) = director.run_iteration(&vec![], &vec![payload], 100);
    assert!(to_app.is_empty());
    assert_eq!(to_wire.len(), 1);
    assert_eq!(to_wire[0].addr, addr_a());
    assert_eq!(to_wire[0].seq_num, 1);
    assert_eq!(to_wire[0].ack_num, 0);
    assert_eq!(to_wire[0].ack_field, 0);
    assert_eq!(to_wire[0].bytes, b"X".to_vec());
}

#[test]
fn reliable_send_clears_pending_on_ack() {
    // peer A sends a payload to peer B
    let mut a = Director::new();
    let b_addr = 2u64;
    let a_addr = 1u64;
    let (_, a_wire) = a.run_iteration(&vec![], &vec![Packet { addr: b_addr, bytes: b"X".to_vec() }], 50);
    assert_eq!(a_wire[0].seq_num, 1);
    assert_eq!(a.packets_awaiting_ack.len(), 1);

    // B receives it and hands the payload to its application
    let mut b = Director::new();
    let arrived = SequencedAckedPacket { addr: a_addr, ..a_wire.into_iter().next().unwrap() };
    let (b_app, _) = b.run_iteration(&vec![arrived], &vec![], 51);
    assert_eq!(b_app.len(), 1);
    assert_eq!(b_app[0].bytes, b"X".to_vec());

    // B later sends any packet back to A: it carries ack_num 1
    let (_, b_wire) = b.run_iteration(&vec![], &vec![Packet { addr: a_addr, bytes: b"ok".to_vec() }], 52);
    assert_eq!(b_wire[0].ack_num, 1);

    // A receives it: the pending entry (B, 1) is gone
    let returned = SequencedAckedPacket { addr: b_addr, ..b_wire.into_iter().next().unwrap() };
    let (_, _) = a.run_iteration(&vec![returned], &vec![], 53);
    assert_eq!(a.packets_awaiting_ack.len(), 0);
}

#[test]
fn timed_out_packet_is_resent_at_most_five_times() {
    let mut director = Director::new();
    let payload = Packet { addr: addr_a(), bytes: b"X".to_vec() };
    let mut now: u64 = 10;
    let (_, wire) = director.run_iteration(&vec![], &vec![payload], now);
    assert_eq!(wire.len(), 1);

    // four timeouts in a row: each one retransmission with a fresh seq num
    let mut copies = 1;
    for round in 0u16..4 {
        now += PACKET_DROP_TIME + 1;
        let (_, wire) = director.run_iteration(&vec![], &vec![], now);
        assert_eq!(wire.len(), 1);
        assert_eq!(wire[0].bytes, b"X".to_vec());
        assert_eq!(wire[0].seq_num, 2 + round);
        copies += 1;
    }
    assert_eq!(copies, MAX_RESEND_ATTEMPTS);

    // the fifth copy has exhausted its tries: the next timeout drops it
    now += PACKET_DROP_TIME + 1;
    let (_, wire) = director.run_iteration(&vec![], &vec![], now);
    assert!(wire.is_empty());
    assert_eq!(director.packets_awaiting_ack.len(), 0);

    // and nothing comes back later either
    now += PACKET_DROP_TIME + 1;
    let (_, wire) = director.run_iteration(&vec![], &vec![], now);
    assert!(wire.is_empty());
}

#[test]
fn inbound_ack_beats_the_drop_clock() {
    // an ack that arrives in the same iteration as the timeout clears the
    // pending entry before the drop phase can re-send it
    let mut director = Director::new();
    let b_addr = 9u64;
    let (_, wire) = director.run_iteration(&vec![], &vec![Packet { addr: b_addr, bytes: b"X".to_vec() }], 10);
    assert_eq!(wire[0].seq_num, 1);
    let ack = SequencedAckedPacket {
        addr: b_addr,
        seq_num: 1,
        ack_num: 1,
        ack_field: 0,
        bytes: vec![],
    };
    let (_, wire) = director.run_iteration(&vec![ack], &vec![], 10 + PACKET_DROP_TIME + 1);
    assert!(wire.is_empty());
    assert_eq!(director.packets_awaiting_ack.len(), 0);
}

#[test]
fn ack_field_bit_clears_older_pending() {
    // bit i of the ack field acknowledges ack_num - (i + 1)
    let mut director = Director::new();
    let b_addr = 9u64;
    let sends = vec![
        Packet { addr: b_addr, bytes: b"one".to_vec() },
        Packet { addr: b_addr, bytes: b"two".to_vec() },
        Packet { addr: b_addr, bytes: b"three".to_vec() },
    ];
    let (_, wire) = director.run_iteration(&vec![], &sends, 10);
    assert_eq!(wire.len(), 3);
    assert_eq!(director.packets_awaiting_ack.len(), 3);

    // ack_num 3 with bit 1 set acknowledges seq 3 and seq 1, not seq 2
    let ack = SequencedAckedPacket {
        addr: b_addr,
        seq_num: 1,
        ack_num: 3,
        ack_field: 0b10,
        bytes: vec![],
    };
    director.run_iteration(&vec![ack], &vec![], 11);
    assert_eq!(director.packets_awaiting_ack.len(), 1);
}

#[test]
fn tick_stamps_the_clock_and_sends() {
    let mut director = Director::new();
    let (to_app, to_wire) = director.tick(&vec![], &vec![]);
    assert!(to_app.is_empty());
    assert!(to_wire.is_empty());

    let payload = Packet { addr: addr_a(), bytes: b"hello world!".to_vec() };
    let (_, to_wire) = director.tick(&vec![], &vec![payload]);
    assert_eq!(to_wire.len(), 1);
    assert_eq!(to_wire[0].seq_num, 1);
    assert_eq!(to_wire[0].bytes, b"hello world!".to_vec());
    assert_eq!(director.packets_awaiting_ack.len(), 1);
}
