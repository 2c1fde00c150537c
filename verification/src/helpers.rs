use vstd::prelude::*;

use std::sync::mpsc::Receiver;

verus! {

/// Declares mpsc's `Receiver` so that channel ends can stand in signatures;
/// the values inside are opaque to the verifier.
#[verifier::external_type_specification]
#[verifier::external_body]
#[verifier::reject_recursive_types(T)]
pub struct ExReceiver<T>(Receiver<T>);

/// Relies on mpsc `Receiver::try_recv`: hands back one queued value without
/// blocking, or nothing when the channel is empty or disconnected. What
/// arrives depends on the channel's state, so nothing more is promised.
#[verifier::external_body]
fn try_recv_one<T>(rx: &Receiver<T>) -> Option<T> {
    rx.try_recv().ok()
}

/// Drains every value currently queued on the channel without blocking,
/// in arrival order. The drain is bounded only by the width of `usize`,
/// which no real queue reaches.
pub fn try_recv_all<T>(ack_rx: &Receiver<T>) -> Vec<T> {
    let mut out: Vec<T> = Vec::new();
    let mut fuel: usize = usize::MAX;
    while fuel > 0
        decreases fuel,
    {
        match try_recv_one(ack_rx) {
            Some(v) => out.push(v),
            None => {
                return out;
            },
        }
        fuel -= 1;
    }
    out
}

} // verus!
