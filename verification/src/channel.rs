//! The two ends of a std channel, each keeping a record of the messages that
//! passed through it by way of this library.
use std::sync::mpsc::{Receiver, RecvError, SendError, Sender};
use vstd::prelude::*;

verus! {

#[verifier::external_type_specification]
#[verifier::external_body]
#[verifier::reject_recursive_types(T)]
pub struct ExSender<T>(Sender<T>);

#[verifier::external_type_specification]
#[verifier::external_body]
#[verifier::reject_recursive_types(T)]
pub struct ExReceiver<T>(Receiver<T>);

#[verifier::external_type_specification]
#[verifier::external_body]
#[verifier::reject_recursive_types(T)]
pub struct ExSendError<T>(SendError<T>);

#[verifier::external_type_specification]
#[verifier::external_body]
pub struct ExRecvError(RecvError);

/// Calls `std::sync::mpsc::channel`. Nothing is claimed of the two ends
/// beyond their types: what travels between them depends on the threads that
/// hold them.
#[verifier::external_body]
pub(crate) fn open_channel<T>() -> (ends: (Sender<T>, Receiver<T>)) {
    std::sync::mpsc::channel()
}

/// Calls `Sender::send`. Whether it succeeds depends on whether the receiving
/// end is still alive, which no argument shows, so nothing is claimed.
#[verifier::external_body]
pub(crate) fn channel_send<T>(tx: &Sender<T>, value: T) -> (r: Result<(), SendError<T>>) {
    tx.send(value)
}

/// Calls `Receiver::recv`. What comes back depends on what other threads sent,
/// so nothing is claimed of it.
#[verifier::external_body]
pub(crate) fn channel_recv<T>(rx: &Receiver<T>) -> (r: Result<T, RecvError>) {
    rx.recv()
}

/// The sending end of a channel, together with the messages that have been
/// delivered into the channel through it.
#[verifier::reject_recursive_types(M)]
pub struct Outlet<M> {
    tx: Sender<M>,
    delivered: Ghost<Seq<M>>,
    refused: Ghost<bool>,
}

impl<M> View for Outlet<M> {
    type V = Seq<M>;

    /// The messages delivered so far, in the order they were sent.
    closed spec fn view(&self) -> Seq<M> {
        self.delivered@
    }
}

impl<M> Outlet<M> {
    /// Whether a send through this end has been refused: the channel's
    /// receiving end had hung up, and a message sent then is never received.
    pub closed spec fn refused(&self) -> bool {
        self.refused@
    }

    /// The sending end of the channel that this outlet writes.
    pub closed spec fn sender_end(&self) -> Sender<M> {
        self.tx
    }

    /// Wraps the sending end of a channel; nothing has been delivered yet,
    /// and nothing refused.
    pub fn new(tx: Sender<M>) -> (out: Self)
        ensures
            out@ == Seq::<M>::empty(),
            !out.refused(),
            out.sender_end() == tx,
    {
        Outlet { tx, delivered: Ghost(Seq::empty()), refused: Ghost(false) }
    }

    /// Sends a message. Returns whether it was delivered, which fails only when
    /// the receiving end has hung up; a delivered message is recorded, and so
    /// is a refusal.
    pub fn send(&mut self, value: M) -> (ok: bool)
        ensures
            final(self).sender_end() == old(self).sender_end(),
            ok ==> final(self)@ == old(self)@.push(value),
            ok ==> final(self).refused() == old(self).refused(),
            !ok ==> final(self)@ == old(self)@,
            !ok ==> final(self).refused(),
    {
        let ghost v = value;
        match channel_send(&self.tx, value) {
            Ok(()) => {
                self.delivered = Ghost(self.delivered@.push(v));
                true
            },
            Err(_) => {
                self.refused = Ghost(true);
                false
            },
        }
    }
}

/// The receiving end of a channel, together with the messages that have been
/// taken out of it through this library.
#[verifier::reject_recursive_types(M)]
pub struct Inlet<M> {
    rx: Receiver<M>,
    taken: Ghost<Seq<M>>,
    hung_up: Ghost<bool>,
}

impl<M> View for Inlet<M> {
    type V = Seq<M>;

    /// The messages taken so far, in the order they were received.
    closed spec fn view(&self) -> Seq<M> {
        self.taken@
    }
}

impl<M> Inlet<M> {
    /// Whether a read through this end has found every sending end hung up
    /// and nothing left in the channel.
    pub closed spec fn hung_up(&self) -> bool {
        self.hung_up@
    }

    /// The receiving end of the channel that this inlet reads.
    pub closed spec fn receiver_end(&self) -> Receiver<M> {
        self.rx
    }

    /// Wraps the receiving end of a channel; nothing has been taken yet, and
    /// no hang-up seen.
    pub fn new(rx: Receiver<M>) -> (inlet: Self)
        ensures
            inlet@ == Seq::<M>::empty(),
            !inlet.hung_up(),
            inlet.receiver_end() == rx,
    {
        Inlet { rx, taken: Ghost(Seq::empty()), hung_up: Ghost(false) }
    }

    /// Blocks until a message arrives, and records it; `None` once every
    /// sending end has hung up and the channel is empty, which is recorded too.
    pub fn take(&mut self) -> (m: Option<M>)
        ensures
            final(self).receiver_end() == old(self).receiver_end(),
            match m {
                Some(v) => final(self)@ == old(self)@.push(v) && final(self).hung_up() == old(self).hung_up(),
                None => final(self)@ == old(self)@ && final(self).hung_up(),
            },
    {
        match channel_recv(&self.rx) {
            Ok(v) => {
                let ghost g = v;
                self.taken = Ghost(self.taken@.push(g));
                Some(v)
            },
            Err(_) => {
                self.hung_up = Ghost(true);
                None
            },
        }
    }

    /// The receiving end of the channel.
    pub fn receiver(&self) -> (r: &Receiver<M>)
        ensures
            *r == self.receiver_end(),
    {
        &self.rx
    }
}

} // verus!
