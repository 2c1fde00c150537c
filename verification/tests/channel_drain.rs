use std::sync::mpsc::channel;

use reliable_udp::helpers::try_recv_all;

#[test]
fn try_recv_all_drains_in_order() {
    let (tx, rx) = channel();
    tx.send(1u32).unwrap();
    tx.send(2).unwrap();
    tx.send(3).unwrap();
    let drained = try_recv_all(&rx);
    assert_eq!(drained, vec![1, 2, 3]);
    let drained = try_recv_all(&rx);
    assert!(drained.is_empty());
}

#[test]
fn try_recv_all_on_disconnected_channel_is_empty() {
    let (tx, rx) = channel::<u8>();
    drop(tx);
    let drained = try_recv_all(&rx);
    assert!(drained.is_empty());
}
