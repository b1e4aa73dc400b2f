//! Trusted boundary to the bounded event channel between the scanner thread
//! and the consumer. Each wrapper makes exactly one `crossbeam_channel` call
//! and converts its result into a plain outcome; which outcome occurs depends
//! on the consumer on the other side, so the contracts promise only how the
//! outcomes correspond to the call's result.

use vstd::prelude::*;

use crate::model::ScanEvent;

verus! {

#[verifier::external_type_specification]
#[verifier::external_body]
#[verifier::reject_recursive_types(T)]
pub struct ExSender<T>(crossbeam_channel::Sender<T>);

#[verifier::external_type_specification]
#[verifier::external_body]
#[verifier::reject_recursive_types(T)]
pub struct ExReceiver<T>(crossbeam_channel::Receiver<T>);

/// Outcome of one send attempt. `Kept` returns the undelivered event to the
/// caller (the channel was full, or stayed full for the whole wait).
#[derive(Debug)]
pub enum SendAttempt {
    Sent,
    Kept(ScanEvent),
    Disconnected,
}

/// Outcome of one non-blocking receive attempt.
#[derive(Debug)]
pub enum RecvAttempt {
    Received(ScanEvent),
    Empty,
    Disconnected,
}

/// Relies on `crossbeam_channel::Sender::try_send`: the event is enqueued
/// exactly when the call returns `Ok`; a `Full` error hands the original
/// event back; `Disconnected` means every receiver is gone.
#[verifier::external_body]
pub fn try_send_event(tx: &crossbeam_channel::Sender<ScanEvent>, ev: ScanEvent) -> (r: SendAttempt)
    ensures
        (r matches SendAttempt::Kept(kept) ==> kept == ev),
{
    match tx.try_send(ev) {
        Ok(()) => SendAttempt::Sent,
        Err(crossbeam_channel::TrySendError::Full(returned)) => SendAttempt::Kept(returned),
        Err(crossbeam_channel::TrySendError::Disconnected(_)) => SendAttempt::Disconnected,
    }
}

/// Relies on `crossbeam_channel::Sender::send_timeout`: blocks for at most
/// the given wait; the event is enqueued exactly when the call returns `Ok`,
/// a `Timeout` error hands the original event back, and `Disconnected` means
/// every receiver is gone.
#[verifier::external_body]
pub fn send_event_timeout(
    tx: &crossbeam_channel::Sender<ScanEvent>,
    ev: ScanEvent,
    wait_millis: u64,
) -> (r: SendAttempt)
    ensures
        (r matches SendAttempt::Kept(kept) ==> kept == ev),
{
    match tx.send_timeout(ev, std::time::Duration::from_millis(wait_millis)) {
        Ok(()) => SendAttempt::Sent,
        Err(crossbeam_channel::SendTimeoutError::Timeout(returned)) => SendAttempt::Kept(returned),
        Err(crossbeam_channel::SendTimeoutError::Disconnected(_)) => SendAttempt::Disconnected,
    }
}

/// Relies on `crossbeam_channel::Sender::send`: blocks until the event is
/// enqueued (result `true`) or every receiver is gone (result `false`).
#[verifier::external_body]
pub fn send_event_blocking(tx: &crossbeam_channel::Sender<ScanEvent>, ev: ScanEvent) -> (r: bool) {
    tx.send(ev).is_ok()
}

/// Relies on `crossbeam_channel::Receiver::try_recv`: never blocks; returns a
/// queued event when one is ready, `Empty` when none is, and `Disconnected`
/// when the channel is empty and every sender is gone.
#[verifier::external_body]
pub fn try_recv_event(rx: &crossbeam_channel::Receiver<ScanEvent>) -> (r: RecvAttempt) {
    match rx.try_recv() {
        Ok(ev) => RecvAttempt::Received(ev),
        Err(crossbeam_channel::TryRecvError::Empty) => RecvAttempt::Empty,
        Err(crossbeam_channel::TryRecvError::Disconnected) => RecvAttempt::Disconnected,
    }
}

} // verus!
