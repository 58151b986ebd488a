//! Broadcast dispatch: one send fans a value out to every registered channel.

use vstd::prelude::*;

verus! {

/// Declares `std::sync::mpsc::Sender` so that channel ends can be stored and
/// passed around; the type stays opaque here.
#[verifier::external_type_specification]
#[verifier::external_body]
#[verifier::reject_recursive_types(T)]
pub struct ExSender<T>(std::sync::mpsc::Sender<T>);

/// Relies on `std::sync::mpsc::Sender::send`: the value is delivered to the
/// channel's receiver; the result tells whether the receiver still exists.
/// Nothing is promised of it here, since that depends on the receiving side.
#[verifier::external_body]
fn send_one<T>(sender: &std::sync::mpsc::Sender<T>, t: T) -> (ok: bool) {
    sender.send(t).is_ok()
}

/// Fans values out to many channels: what is sent once is delivered to every
/// sender added so far, in registration order.
#[verifier::reject_recursive_types(T)]
pub struct MultiTaskSender<T> {
    senders: Vec<std::sync::mpsc::Sender<T>>,
}

impl<T: Clone + Send> MultiTaskSender<T> {
    /// How many channels the dispatcher feeds.
    pub closed spec fn n_senders(&self) -> int {
        self.senders@.len() as int
    }

    /// A dispatcher with no channels yet.
    pub fn new() -> (m: MultiTaskSender<T>)
        ensures
            m.n_senders() == 0,
    {
        MultiTaskSender { senders: Vec::new() }
    }

    /// Registers one more outgoing channel.
    pub fn add_sender(&mut self, sender: std::sync::mpsc::Sender<T>)
        ensures
            final(self).n_senders() == old(self).n_senders() + 1,
    {
        self.senders.push(sender);
    }

    /// Delivers a clone of the value to every registered channel, in
    /// registration order.
    pub fn send(&self, t: T) {
        let mut i: usize = 0;
        while i < self.senders.len()
            decreases self.senders@.len() - i,
        {
            send_one(&self.senders[i], t.clone());
            i = i + 1;
        }
    }
}

} // verus!
