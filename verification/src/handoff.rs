//! The handoff queue: an unbounded, ordered, multi-producer/single-consumer
//! queue that carries newly accepted connection handles from the acceptor
//! context into the broadcast engine. It is the sole point of contact
//! between the two contexts; the engine drains it once per cycle.

use vstd::prelude::*;

verus! {

#[verifier::external_type_specification]
#[verifier::external_body]
#[verifier::reject_recursive_types(T)]
pub struct ExSender<T>(std::sync::mpsc::Sender<T>);

#[verifier::external_type_specification]
#[verifier::external_body]
#[verifier::reject_recursive_types(T)]
pub struct ExReceiver<T>(std::sync::mpsc::Receiver<T>);

/// Relies on std::sync::mpsc::channel to connect the two halves of an
/// unbounded queue that preserves the order of values sent from one sender.
#[verifier::external_body]
fn mpsc_channel<T>() -> (std::sync::mpsc::Sender<T>, std::sync::mpsc::Receiver<T>) {
    std::sync::mpsc::channel()
}

/// Relies on std::sync::mpsc::Sender::send, which queues the value without
/// blocking and fails only when the receiver is gone. What the queue then
/// holds depends on the other producers, so only the outcome is reported.
#[verifier::external_body]
fn mpsc_send<T>(tx: &std::sync::mpsc::Sender<T>, value: T) -> (ok: bool) {
    tx.send(value).is_ok()
}

/// Relies on std::sync::mpsc::Receiver::try_iter, which yields the pending
/// values oldest first and stops without blocking once none is pending.
/// What is pending depends on the producers, so nothing is promised of the
/// result.
#[verifier::external_body]
fn mpsc_try_iter_all<T>(rx: &std::sync::mpsc::Receiver<T>) -> (r: Vec<T>) {
    rx.try_iter().collect()
}

/// The producer half of the handoff queue, held by the acceptor context;
/// it may be held by several producers at once.
#[verifier::reject_recursive_types(T)]
pub struct HandoffSender<T> {
    tx: std::sync::mpsc::Sender<T>,
}

/// The consumer half of the handoff queue, owned by the broadcast engine.
#[verifier::reject_recursive_types(T)]
pub struct HandoffQueue<T> {
    rx: std::sync::mpsc::Receiver<T>,
}

/// A connected handoff queue: what the sender enqueues, the queue hands out.
pub fn handoff_channel<T>() -> (HandoffSender<T>, HandoffQueue<T>) {
    let (tx, rx) = mpsc_channel();
    (HandoffSender { tx }, HandoffQueue { rx })
}

impl<T> HandoffSender<T> {
    /// Queues one newly accepted handle without blocking the caller,
    /// preserving arrival order; reports whether the consumer still exists.
    pub fn enqueue(&self, value: T) -> bool {
        mpsc_send(&self.tx, value)
    }
}

impl<T> HandoffQueue<T> {
    /// Returns the entries pending at the time of the call, oldest first,
    /// without blocking to wait for new ones; an empty queue yields an
    /// empty vector at once.
    pub fn try_drain_all(&mut self) -> Vec<T> {
        mpsc_try_iter_all(&self.rx)
    }
}

} // verus!
