use reliable_udp::ack::PeerAcks;

#[test]
fn update_ack_map_for_normal_newer() {
    // In range, sets correct flag
    let mut peer_acks = PeerAcks { ack_num: 5, ack_field: 0b101 };
    let seq_num = 10;
    peer_acks.add_seq_num(seq_num);
    assert!(peer_acks.ack_num == 10);
    assert!(peer_acks.ack_field == 0b10110000);

    // Out of range, sets ack num and empty flags
    let mut peer_acks = PeerAcks { ack_num: 5, ack_field: 0b101 };
    let seq_num = 40;
    peer_acks.add_seq_num(seq_num);
    assert!(peer_acks.ack_num == 40);
    assert!(peer_acks.ack_field == 0);
}

#[test]
fn update_ack_map_for_wraparound_newer() {
    // In range, sets correct flag
    let mut peer_acks = PeerAcks { ack_num: 65535, ack_field: 0b101 };
    let seq_num = 4;
    peer_acks.add_seq_num(seq_num);
    assert!(peer_acks.ack_num == 4);
    assert!(peer_acks.ack_field == 0b10110000);

    // Out of range, sets ack num and empty flags
    let mut peer_acks = PeerAcks { ack_num: 65535, ack_field: 0b101 };
    let seq_num = 40;
    peer_acks.add_seq_num(seq_num);
    assert!(peer_acks.ack_num == 40);
    assert!(peer_acks.ack_field == 0);
}

#[test]
fn update_ack_map_for_normal_older() {
    // In range, sets correct flag
    let mut peer_acks = PeerAcks { ack_num: 20, ack_field: 0b101 };
    let seq_num = 15;
    peer_acks.add_seq_num(seq_num);
    assert!(peer_acks.ack_num == 20);
    assert!(peer_acks.ack_field == 0b10101);

    // Out of range does nothing
    let mut peer_acks = PeerAcks { ack_num: 40, ack_field: 0b101 };
    let seq_num = 5;
    peer_acks.add_seq_num(seq_num);
    assert!(peer_acks.ack_num == 40);
    assert!(peer_acks.ack_field == 0b101);
}

#[test]
fn update_ack_map_for_wraparound_older() {
    // In range, sets correct flag
    let mut peer_acks = PeerAcks { ack_num: 5, ack_field: 0b101 };
    let seq_num = 65535;
    peer_acks.add_seq_num(seq_num);
    assert!(peer_acks.ack_num == 5);
    assert!(peer_acks.ack_field == 0b100101);

    // Out of range does nothing
    let mut peer_acks = PeerAcks { ack_num: 40, ack_field: 0b101 };
    let seq_num = 65535;
    peer_acks.add_seq_num(seq_num);
    assert!(peer_acks.ack_num == 40);
    assert!(peer_acks.ack_field == 0b101);
}

#[test]
fn duplicate_seq_num_changes_nothing() {
    let mut once = PeerAcks { ack_num: 5, ack_field: 0b101 };
    once.add_seq_num(10);
    let mut twice = PeerAcks { ack_num: 5, ack_field: 0b101 };
    twice.add_seq_num(10);
    twice.add_seq_num(10);
    assert_eq!(once.ack_num, twice.ack_num);
    assert_eq!(once.ack_field, twice.ack_field);
}

#[test]
fn ack_num_tracks_wrap_aware_maximum() {
    let mut acks = PeerAcks { ack_num: 0, ack_field: 0 };
    for n in [3u16, 1, 7, 5, 6] {
        acks.add_seq_num(n);
    }
    assert_eq!(acks.ack_num, 7);

    // across the wrap boundary the small number is the newer one
    let mut acks = PeerAcks { ack_num: 65534, ack_field: 0 };
    for n in [65535u16, 2, 1] {
        acks.add_seq_num(n);
    }
    assert_eq!(acks.ack_num, 2);
}

#[test]
fn window_truncation_forgets_old_acks() {
    let mut acks = PeerAcks { ack_num: 100, ack_field: 0xffff_ffff };
    acks.add_seq_num(132);
    assert_eq!(acks.ack_num, 132);
    assert_eq!(acks.ack_field, 0);
}
