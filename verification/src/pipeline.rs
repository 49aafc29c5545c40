//! The `Pipeline` type: the receiving end of a channel of values or errors.
use crate::channel::{open_channel, Inlet, Outlet};
use crate::error::{Error, PipelineResult};
use crate::stream::{wrap_ok, ok_values, err_values};
use std::sync::mpsc::{Receiver, Sender};
use vstd::prelude::*;

verus! {

/// Represents a Receiver of values or errors
#[verifier::reject_recursive_types(T)]
pub struct Pipeline<T> {
    inlet: Inlet<PipelineResult<T>>,
    feeder: Ghost<Option<Outlet<PipelineResult<T>>>>,
}

impl<T> View for Pipeline<T> {
    type V = Seq<PipelineResult<T>>;

    /// The messages that the library has taken from this pipeline so far.
    closed spec fn view(&self) -> Seq<PipelineResult<T>> {
        self.inlet@
    }
}

impl<T> core::ops::Deref for Pipeline<T> {
    type Target = Receiver<PipelineResult<T>>;

    fn deref(&self) -> (r: &Receiver<PipelineResult<T>>)
        ensures
            *r == self.receiver_end(),
    {
        self.inlet.receiver()
    }
}

impl<T> Pipeline<T> {
    /// Whether a read of this pipeline has found every sender hung up and
    /// nothing left in the channel.
    pub closed spec fn hung_up(&self) -> bool {
        self.inlet.hung_up()
    }

    /// The receiving end of the channel that this pipeline reads.
    pub closed spec fn receiver_end(&self) -> Receiver<PipelineResult<T>> {
        self.inlet.receiver_end()
    }

    /// The messages that this library delivered into the pipeline's channel
    /// when it made the pipeline, in the order they were sent.
    pub closed spec fn fed(&self) -> Seq<PipelineResult<T>> {
        match self.feeder@ {
            Some(out) => out@,
            None => Seq::empty(),
        }
    }

    /// Whether a message that this library sent into the pipeline's channel
    /// when it made the pipeline was refused (the channel's receiving end had
    /// hung up), after which nothing more was sent.
    pub closed spec fn feed_refused(&self) -> bool {
        match self.feeder@ {
            Some(out) => out.refused(),
            None => false,
        }
    }

    /// Instantiates a new Pipeline with an input Sender
    pub fn new() -> (r: (Sender<PipelineResult<T>>, Pipeline<T>))
        ensures
            r.1@ == Seq::<PipelineResult<T>>::empty(),
            !r.1.hung_up(),
            r.1.fed() == Seq::<PipelineResult<T>>::empty(),
            !r.1.feed_refused(),
    {
        let (i, o) = open_channel();
        (i, Pipeline { inlet: Inlet::new(o), feeder: Ghost(None) })
    }

    /// Takes the next message, blocking until one arrives; `None` once every
    /// sender has hung up and nothing is left.
    pub fn take(&mut self) -> (m: Option<PipelineResult<T>>)
        ensures
            final(self).receiver_end() == old(self).receiver_end(),
            match m {
                Some(v) => final(self)@ == old(self)@.push(v) && final(self).hung_up() == old(self).hung_up(),
                None => final(self)@ == old(self)@ && final(self).hung_up(),
            },
    {
        self.inlet.take()
    }

    /// Creates a channel and writes the given value to it
    ///
    /// This function creates a new channel and writes the
    /// given value into that channel. This is useful
    /// for starting a pipeline.
    pub fn from_value(value: T) -> (p: Pipeline<T>)
        ensures
            p@ == Seq::<PipelineResult<T>>::empty(),
            !p.hung_up(),
            !p.feed_refused() ==> p.fed() == seq![Ok::<T, Error>(value)],
            p.feed_refused() ==> p.fed() == Seq::<PipelineResult<T>>::empty(),
    {
        let ghost v = value;
        let (i, mut o) = Pipeline::new();
        let mut out = Outlet::new(i);
        out.send(Ok(value));
        proof {
            assert(out@ == seq![Ok::<T, Error>(v)] || out.refused());
        }
        o.feeder = Ghost(Some(out));
        o
    }

    /// Creates a channel and writes all values in the given Vec to it synchronously, consuming the Vec
    ///
    /// This function creates a new channel and writes all
    /// values in the given Vec to it, consuming the Vec.
    /// The writing happens synchronously, before returning from the function.
    /// This is useful for starting a pipeline.
    pub fn from_vec_sync(values: Vec<T>) -> (p: Pipeline<T>)
        ensures
            p@ == Seq::<PipelineResult<T>>::empty(),
            !p.hung_up(),
            !p.feed_refused() ==> p.fed() == wrap_ok(values@),
            p.feed_refused() ==> exists|k: int| 0 <= k < values@.len() && p.fed() == wrap_ok(values@.take(k)),
    {
        let ghost all = values@;
        let (i, mut o) = Pipeline::new();
        let mut out = Outlet::new(i);
        let ok = send_values(values, &mut out);
        proof {
            assert(Seq::<PipelineResult<T>>::empty() + out@ == out@);
            if ok {
                assert(!out.refused());
            }
        }
        o.feeder = Ghost(Some(out));
        o
    }

    /// Takes every message until every sender has hung up, in the order they
    /// arrive.
    ///
    /// NOTE: This function blocks if the original input channel
    ///       of the pipeline hasn't been closed.
    pub fn drain(&mut self, budget: usize) -> (r: (Vec<PipelineResult<T>>, bool))
        ensures
            final(self)@ == old(self)@ + r.0@,
            r.0@.len() <= budget,
            !r.1 ==> r.0@.len() == budget,
            r.1 ==> final(self).hung_up(),
    {
        let mut all: Vec<PipelineResult<T>> = Vec::new();
        let mut n: usize = 0;
        while n < budget
            invariant
                n <= budget,
                all@.len() == n,
                self@ == old(self)@ + all@,
            decreases budget - n,
        {
            match self.take() {
                Some(m) => {
                    all.push(m);
                    n = n + 1;
                },
                None => {
                    return (all, true);
                },
            }
        }
        (all, false)
    }

    /// Collects all non-errors from a pipeline into a Vec
    ///
    /// This function takes all input from a pipeline and filters
    /// all the errors from the pipeline, collecting all non-errors
    /// into a Vec (at most `usize::MAX` messages are read).
    /// NOTE: This function blocks if the original input channel
    ///       of the pipeline hasn't been closed.
    ///       Make sure you drop that first (or use one of the
    ///       construction functions in this module).
    pub fn collect_ok(self) -> Vec<T> {
        let mut p = self;
        p.collect_ok_in_place()
    }

    /// Reads this pipeline until every sender has hung up (or `usize::MAX`
    /// messages were read), and returns the values of the successes read,
    /// in order.
    pub fn collect_ok_in_place(&mut self) -> (values: Vec<T>)
        ensures
            old(self)@.is_prefix_of(final(self)@),
            values@ == ok_values(final(self)@.skip(old(self)@.len() as int)),
            final(self).hung_up() || final(self)@.len() - old(self)@.len() == usize::MAX,
    {
        let ghost before = self@;
        let (all, _) = self.drain(usize::MAX);
        proof {
            assert(self@.skip(before.len() as int) =~= all@);
            assert(self@.subrange(0, before.len() as int) =~= before);
        }
        keep_ok(all)
    }

    /// Collects all errors from a pipeline into a Vec
    ///
    /// This function takes all input from a pipeline and filters
    /// all the non-errors from the pipeline, collecting all errors
    /// into a Vec (at most `usize::MAX` messages are read).
    /// NOTE: This function blocks if the original input channel
    ///       of the pipeline hasn't been closed.
    ///       Make sure you drop that first (or use one of the
    ///       construction functions in this module).
    pub fn collect_err(self) -> Vec<Error> {
        let mut p = self;
        p.collect_err_in_place()
    }

    /// Reads this pipeline until every sender has hung up (or `usize::MAX`
    /// messages were read), and returns the errors read, in order.
    pub fn collect_err_in_place(&mut self) -> (errors: Vec<Error>)
        ensures
            old(self)@.is_prefix_of(final(self)@),
            errors@ == err_values(final(self)@.skip(old(self)@.len() as int)),
            final(self).hung_up() || final(self)@.len() - old(self)@.len() == usize::MAX,
    {
        let ghost before = self@;
        let (all, _) = self.drain(usize::MAX);
        proof {
            assert(self@.skip(before.len() as int) =~= all@);
            assert(self@.subrange(0, before.len() as int) =~= before);
        }
        keep_err(all)
    }
}

/// Writes every value, wrapped as a success, in order, stopping at the first
/// that cannot be delivered. Returns whether all of them were delivered.
pub fn send_values<T>(values: Vec<T>, out: &mut Outlet<PipelineResult<T>>) -> (ok: bool)
    ensures
        ok ==> final(out)@ == old(out)@ + wrap_ok(values@),
        !ok ==> exists|k: int|
            0 <= k < values@.len() && final(out)@ == old(out)@ + wrap_ok(values@.take(k)),
        !ok ==> final(out).refused(),
        ok ==> final(out).refused() == old(out).refused(),
{
    let ghost start = out@;
    let ghost all = values@;
    for value in it: values.into_iter()
        invariant
            it.seq() == all,
            all == values@,
            start == old(out)@,
            out.refused() == old(out).refused(),
            0 <= it.index() <= all.len(),
            out@ == start + wrap_ok(all.take(it.index() as int)),
    {
        let ghost k = it.index();
        assert(k < all.len() && all[k] == value);
        if !out.send(Ok(value)) {
            assert(out@ == start + wrap_ok(all.take(k as int)));
            return false;
        }
        proof {
            assert(all.take(k + 1) == all.take(k as int).push(value));
            assert(wrap_ok(all.take(k + 1)) == wrap_ok(all.take(k as int)).push(Ok(value)));
        }
    }
    proof {
        assert(all.take(all.len() as int) == all);
    }
    true
}

} // verus!

verus! {

/// The values of the successful messages, in order; errors are dropped.
pub fn keep_ok<T>(messages: Vec<PipelineResult<T>>) -> (values: Vec<T>)
    ensures
        values@ == ok_values(messages@),
{
    let ghost all = messages@;
    let mut values: Vec<T> = Vec::new();
    for m in it: messages.into_iter()
        invariant
            it.seq() == all,
            all == messages@,
            0 <= it.index() <= all.len(),
            values@ == ok_values(all.take(it.index() as int)),
    {
        let ghost k = it.index();
        assert(all.take(k + 1).drop_last() == all.take(k as int));
        match m {
            Ok(v) => values.push(v),
            Err(_) => {},
        }
    }
    proof {
        assert(all.take(all.len() as int) == all);
    }
    values
}

/// The errors among the messages, in order; values are dropped.
pub fn keep_err<T>(messages: Vec<PipelineResult<T>>) -> (errors: Vec<Error>)
    ensures
        errors@ == err_values(messages@),
{
    let ghost all = messages@;
    let mut errors: Vec<Error> = Vec::new();
    for m in it: messages.into_iter()
        invariant
            it.seq() == all,
            all == messages@,
            0 <= it.index() <= all.len(),
            errors@ == err_values(all.take(it.index() as int)),
    {
        let ghost k = it.index();
        assert(all.take(k + 1).drop_last() == all.take(k as int));
        match m {
            Ok(_) => {},
            Err(e) => errors.push(e),
        }
    }
    proof {
        assert(all.take(all.len() as int) == all);
    }
    errors
}

} // verus!
