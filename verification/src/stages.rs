//! The work of each pipeline stage: read messages from the input pipeline(s)
//! and deliver what the stage makes of them to the output(s). Each function
//! here is what one stage's worker thread runs, from start to end.
use crate::channel::{Inlet, Outlet};
use crate::either::Either;
use crate::error::{Error, PipelineResult};
use crate::pipeline::Pipeline;
use crate::stream::{
    stops_at_error, wrap_left, wrap_right, ok_values, err_values, as_left, as_right, left_side,
    right_side, picked, wrap_ok, all_ok,
};
use vstd::prelude::*;

verus! {

/// Why a stage stopped.
#[derive(Copy, Clone, Debug, PartialEq, Eq, Structural)]
pub enum Flow {
    /// Every sender of the input hung up and nothing was left to read.
    Drained,
    /// An error was passed on, after which the stage reads no more.
    Halted,
    /// A message could not be delivered: its receiver hung up.
    Refused,
    /// The stage read as many messages as a `usize` can count.
    Exhausted,
}

/// The messages that were added to `before` to make `after`.
pub open spec fn added<M>(before: Seq<M>, after: Seq<M>) -> Seq<M> {
    after.skip(before.len() as int)
}

/// A stage that passes on what it reads, having read `got` and delivered
/// `sent`, stopped for `flow`: everything read was delivered, but for the
/// last message when a delivery was refused.
pub open spec fn passed_on<M>(got: Seq<M>, sent: Seq<M>, flow: Flow) -> bool {
    if flow is Refused {
        got.len() > 0 && sent == got.drop_last()
    } else {
        sent == got
    }
}

/// The error-stop rule, for a stage that read `got` and stopped for `flow`:
/// it reads nothing past the first error, and it halts exactly when the last
/// message it read and passed on was an error.
pub open spec fn halts_on_error<T>(got: Seq<PipelineResult<T>>, flow: Flow) -> bool {
    &&& stops_at_error(got)
    &&& flow is Halted <==> (got.len() > 0 && got.last() is Err)
}

/// A first input of a merge, from which `got` was read, was read to its
/// end: it hung up, or what was read from it ended in an error.
pub open spec fn first_finished<T>(got: Seq<PipelineResult<T>>, hung_up: bool) -> bool {
    hung_up || (got.len() > 0 && got.last() is Err)
}

impl<T> Pipeline<T> {
    /// Multiplexes messages received on two separate pipelines into `out`
    ///
    /// Passes on every message of this pipeline, then every message of
    /// `other`, without any further transformation. Reading from either input
    /// ends at its first error, which is passed on too.
    pub fn run_merge(&mut self, other: &mut Pipeline<T>, out: &mut Outlet<PipelineResult<T>>) -> (flow: Flow)
        ensures
            flow is Refused ==> final(out).refused(),
            flow is Drained ==> final(other).hung_up(),
            flow is Exhausted ==> added(old(self)@, final(self)@).len() == usize::MAX || added(old(other)@, final(other)@).len() == usize::MAX,
            flow is Drained || flow is Halted || added(old(other)@, final(other)@).len() > 0 ==> first_finished(added(old(self)@, final(self)@), final(self).hung_up()),
            old(self)@.is_prefix_of(final(self)@),
            old(other)@.is_prefix_of(final(other)@),
            old(out)@.is_prefix_of(final(out)@),
            stops_at_error(added(old(self)@, final(self)@)),
            stops_at_error(added(old(other)@, final(other)@)),
            flow !is Refused ==> halts_on_error(added(old(other)@, final(other)@), flow),
            passed_on(
                added(old(self)@, final(self)@) + added(old(other)@, final(other)@),
                added(old(out)@, final(out)@),
                flow,
            ),
    {
        let ghost a0 = self@;
        let ghost b0 = other@;
        let ghost o0 = out@;
        let first = forward(self, out);
        let ghost ga = added(a0, self@);
        let ghost o1 = out@;
        if first == Flow::Refused || first == Flow::Exhausted {
            proof {
                lemma_added(b0, Seq::empty());
                assert(b0 + Seq::<PipelineResult<T>>::empty() == b0);
                assert(ga + Seq::<PipelineResult<T>>::empty() == ga);
            }
            return first;
        }
        let second = forward(other, out);
        proof {
            let gb = added(b0, other@);
            let s1 = added(o0, o1);
            let s2 = added(o1, out@);
            assert(o1 == o0 + s1);
            assert(out@ == o1 + s2);
            lemma_added(o0, s1 + s2);
            assert(out@ == o0 + (s1 + s2));
            if second is Refused {
                assert((ga + gb).drop_last() =~= ga + gb.drop_last());
            }
        }
        second
    }
}

impl<L> Pipeline<L> {
    /// Multiplexes messages received on two separate pipelines into `out`, marked with an Either
    ///
    /// Passes on every message of this pipeline, its values marked as left
    /// ones, then every message of `other`, its values marked as right ones.
    /// Reading from either input ends at its first error, which is passed on
    /// too.
    pub fn run_merge_either<R>(
        &mut self,
        other: &mut Pipeline<R>,
        out: &mut Outlet<PipelineResult<Either<L, R>>>,
    ) -> (flow: Flow)
        ensures
            flow is Refused ==> final(out).refused(),
            flow is Drained ==> final(other).hung_up(),
            flow is Exhausted ==> added(old(self)@, final(self)@).len() == usize::MAX || added(old(other)@, final(other)@).len() == usize::MAX,
            flow is Drained || flow is Halted || added(old(other)@, final(other)@).len() > 0 ==> first_finished(added(old(self)@, final(self)@), final(self).hung_up()),
            old(self)@.is_prefix_of(final(self)@),
            old(other)@.is_prefix_of(final(other)@),
            old(out)@.is_prefix_of(final(out)@),
            stops_at_error(added(old(self)@, final(self)@)),
            stops_at_error(added(old(other)@, final(other)@)),
            flow !is Refused ==> halts_on_error(added(old(other)@, final(other)@), flow),
            passed_on(
                wrap_left::<L, R>(added(old(self)@, final(self)@)) + wrap_right::<L, R>(
                    added(old(other)@, final(other)@),
                ),
                added(old(out)@, final(out)@),
                flow,
            ),
    {
        let ghost a0 = self@;
        let ghost b0 = other@;
        let ghost o0 = out@;
        let first = forward_left(self, out);
        let ghost ga = wrap_left::<L, R>(added(a0, self@));
        let ghost o1 = out@;
        if first == Flow::Refused || first == Flow::Exhausted {
            proof {
                lemma_added(b0, Seq::empty());
                assert(b0 + Seq::<PipelineResult<R>>::empty() == b0);
                assert(wrap_right::<L, R>(Seq::<PipelineResult<R>>::empty()) =~= Seq::empty());
                assert(ga + Seq::<PipelineResult<Either<L, R>>>::empty() == ga);
            }
            return first;
        }
        let second = forward_right(other, out);
        proof {
            let gb = wrap_right::<L, R>(added(b0, other@));
            let s1 = added(o0, o1);
            let s2 = added(o1, out@);
            assert(o1 == o0 + s1);
            assert(out@ == o1 + s2);
            lemma_added(o0, s1 + s2);
            assert(out@ == o0 + (s1 + s2));
            if second is Refused {
                assert((ga + gb).drop_last() =~= ga + gb.drop_last());
            }
        }
        second
    }
}

/// The message that a mapping stage delivers for `m`, where `r` came back
/// from `op`: the result of `op` on a value, or the error itself.
pub open spec fn mapped_message<T, O, F: FnMut(T) -> PipelineResult<O>>(
    op: F,
    m: PipelineResult<T>,
    r: PipelineResult<O>,
) -> bool {
    match m {
        Ok(v) => call_ensures(op, (v,), r),
        Err(e) => r == Err::<O, Error>(e),
    }
}

/// A mapping stage that read `got`, delivered `sent` and stopped for `flow`:
/// the i-th message delivered is what the stage made of the i-th message
/// read; it stops after the first error it reads or `op` returns; and only a
/// refused delivery leaves a message read without its result delivered.
pub open spec fn mapped<T, O, F: FnMut(T) -> PipelineResult<O>>(
    op: F,
    got: Seq<PipelineResult<T>>,
    sent: Seq<PipelineResult<O>>,
    flow: Flow,
) -> bool {
    &&& stops_at_error(got)
    &&& stops_at_error(sent)
    &&& if flow is Refused {
        got.len() > 0 && sent.len() == got.len() - 1
    } else {
        sent.len() == got.len()
    }
    &&& forall|i: int| 0 <= i < sent.len() ==> mapped_message(op, got[i], #[trigger] sent[i])
    &&& flow is Halted <==> (sent.len() > 0 && sent.last() is Err)
}

impl<T> Pipeline<T> {
    /// Transforms the messages of this pipeline using `op` and delivers them to `out`
    ///
    /// Every value is transformed by `op`, and what it returns is delivered;
    /// an error, whether read or returned by `op`, is delivered and ends the
    /// stage.
    pub fn run_map<O, F: FnMut(T) -> PipelineResult<O>>(
        &mut self,
        op: &mut F,
        out: &mut Outlet<PipelineResult<O>>,
    ) -> (flow: Flow)
        requires
            forall|v: T| call_requires(*old(op), (v,)),
        ensures
            flow is Refused ==> final(out).refused(),
            flow is Drained ==> final(self).hung_up(),
            flow is Exhausted ==> added(old(self)@, final(self)@).len() == usize::MAX,
            old(self)@.is_prefix_of(final(self)@),
            old(out)@.is_prefix_of(final(out)@),
            mapped(*old(op), added(old(self)@, final(self)@), added(old(out)@, final(out)@), flow),
    {
        let ghost in0 = self@;
        let ghost out0 = out@;
        let ghost op0 = *op;
        let ghost mut got: Seq<PipelineResult<T>> = Seq::empty();
        let ghost mut sent: Seq<PipelineResult<O>> = Seq::empty();
        let mut n: usize = 0;
        while n < usize::MAX
            invariant
                got.len() == n,
                self@ == in0 + got,
                out@ == out0 + sent,
                in0 == old(self)@,
                out0 == old(out)@,
                op0 == *old(op),
                *op == op0,
                forall|v: T| call_requires(op0, (v,)),
                all_ok(got),
                all_ok(sent),
                sent.len() == got.len(),
                forall|i: int| 0 <= i < sent.len() ==> mapped_message(op0, got[i], #[trigger] sent[i]),
            decreases usize::MAX - n,
        {
            match self.take() {
                None => {
                    proof { lemma_added(in0, got); lemma_added(out0, sent); }
                    return Flow::Drained;
                },
                Some(m) => {
                    let ghost gm = m;
                    let ghost prev_got = got;
                    let ghost prev_sent = sent;
                    proof { got = got.push(m); }
                    let r = match m {
                        Ok(v) => op(v),
                        Err(e) => Err(e),
                    };
                    assert(mapped_message(op0, gm, r));
                    let stop = r.is_err();
                    let ghost gr = r;
                    if !out.send(r) {
                        proof {
                            lemma_added(in0, got);
                            lemma_added(out0, sent);
                            assert(got.drop_last() == prev_got);
                        }
                        return Flow::Refused;
                    }
                    proof { sent = sent.push(gr); }
                    assert(forall|i: int| 0 <= i < sent.len() ==> mapped_message(op0, got[i], #[trigger] sent[i])) by {
                        assert forall|i: int| 0 <= i < sent.len() implies mapped_message(op0, got[i], #[trigger] sent[i]) by {
                            if i < prev_sent.len() {
                                assert(got[i] == prev_got[i]);
                                assert(sent[i] == prev_sent[i]);
                            }
                        }
                    }
                    if stop {
                        proof { lemma_added(in0, got); lemma_added(out0, sent); }
                        return Flow::Halted;
                    }
                },
            }
            n = n + 1;
        }
        proof { lemma_added(in0, got); lemma_added(out0, sent); }
        Flow::Exhausted
    }
}

/// A mapping stage with a context that read `got`, delivered `sent` and
/// stopped for `flow`, where `results[i]` is what it made of `got[i]` and the
/// context went through the states `contexts`: it stops after the first
/// error it reads or `op` returns; every result is delivered, but for the
/// last when a delivery was refused.
pub open spec fn mapped_with_ctx<T, C, O>(
    got: Seq<PipelineResult<T>>,
    sent: Seq<PipelineResult<O>>,
    flow: Flow,
    contexts: Seq<C>,
    results: Seq<PipelineResult<O>>,
) -> bool {
    &&& stops_at_error(got)
    &&& stops_at_error(results)
    &&& results.len() == got.len()
    &&& contexts.len() == got.len() + 1
    &&& passed_on(results, sent, flow)
    &&& flow !is Refused ==> (flow is Halted <==> (results.len() > 0 && results.last() is Err))
}

impl<T> Pipeline<T> {
    /// Transforms the messages of this pipeline using `op` and a mutable context, and delivers them to `out`
    ///
    /// Every value is transformed by `op`, which also receives the context,
    /// and what it returns is delivered; an error, whether read or returned
    /// by `op`, is delivered and ends the stage. The context holds what `op`
    /// left in it once the stage is done.
    pub fn run_map_with_ctx<O, C, F: FnMut(T, &mut C) -> PipelineResult<O>>(
        &mut self,
        op: &mut F,
        ctx: &mut C,
        out: &mut Outlet<PipelineResult<O>>,
    ) -> (flow: Flow)
        requires
            forall|v: T, c: &mut C| call_requires(*old(op), (v, c)),
        ensures
            flow is Refused ==> final(out).refused(),
            flow is Drained ==> final(self).hung_up(),
            flow is Exhausted ==> added(old(self)@, final(self)@).len() == usize::MAX,
            old(self)@.is_prefix_of(final(self)@),
            old(out)@.is_prefix_of(final(out)@),
            exists|contexts: Seq<C>, results: Seq<PipelineResult<O>>|
                #![trigger mapped_with_ctx(added(old(self)@, final(self)@), added(old(out)@, final(out)@), flow, contexts, results)]
                {
                    &&& contexts[0] == *old(ctx)
                    &&& contexts.last() == *final(ctx)
                    &&& mapped_with_ctx(
                        added(old(self)@, final(self)@),
                        added(old(out)@, final(out)@),
                        flow,
                        contexts,
                        results,
                    )
                    &&& forall|i: int| 0 <= i < contexts.len() - 1 ==> match #[trigger] added(old(self)@, final(self)@)[i] {
                        Ok(v) => exists|c: &mut C| *c == contexts[i] && *final(c) == contexts[i + 1]
                            && call_ensures(*old(op), (v, c), results[i]),
                        Err(e) => contexts[i + 1] == contexts[i] && results[i] == Err::<O, Error>(e),
                    }
                },
    {
        let ghost in0 = self@;
        let ghost out0 = out@;
        let ghost op0 = *op;
        let ghost mut got: Seq<PipelineResult<T>> = Seq::empty();
        let ghost mut results: Seq<PipelineResult<O>> = Seq::empty();
        let ghost mut contexts: Seq<C> = seq![*ctx];
        let mut n: usize = 0;
        while n < usize::MAX
            invariant
                got.len() == n,
                self@ == in0 + got,
                out@ == out0 + results,
                in0 == old(self)@,
                out0 == old(out)@,
                op0 == *old(op),
                *op == op0,
                forall|v: T, c: &mut C| call_requires(op0, (v, c)),
                all_ok(got),
                all_ok(results),
                results.len() == got.len(),
                contexts.len() == got.len() + 1,
                contexts[0] == *old(ctx),
                contexts.last() == *ctx,
                forall|i: int| 0 <= i < got.len() ==> match #[trigger] got[i] {
                    Ok(v) => exists|c: &mut C| *c == contexts[i] && *final(c) == contexts[i + 1]
                        && call_ensures(op0, (v, c), results[i]),
                    Err(e) => contexts[i + 1] == contexts[i] && results[i] == Err::<O, Error>(e),
                },
            decreases usize::MAX - n,
        {
            match self.take() {
                None => {
                    proof {
                        lemma_added(in0, got);
                        lemma_added(out0, results);
                        assert(mapped_with_ctx(got, results, Flow::Drained, contexts, results));
                    }
                    return Flow::Drained;
                },
                Some(m) => {
                    let ghost gm = m;
                    let ghost prev_got = got;
                    let ghost prev_results = results;
                    let ghost prev_contexts = contexts;
                    let ghost before = *ctx;
                    let r = match m {
                        Ok(v) => op(v, ctx),
                        Err(e) => Err(e),
                    };
                    let ghost after = *ctx;
                    assert(match gm {
                        Ok(v) => exists|c: &mut C| *c == before && *final(c) == after && call_ensures(op0, (v, c), r),
                        Err(e) => after == before && r == Err::<O, Error>(e),
                    });
                    let stop = r.is_err();
                    let ghost gr = r;
                    proof {
                        got = got.push(gm);
                        results = results.push(gr);
                        contexts = contexts.push(after);
                        assert forall|i: int| 0 <= i < got.len() implies match #[trigger] got[i] {
                            Ok(v) => exists|c: &mut C| *c == contexts[i] && *final(c) == contexts[i + 1]
                                && call_ensures(op0, (v, c), results[i]),
                            Err(e) => contexts[i + 1] == contexts[i] && results[i] == Err::<O, Error>(e),
                        } by {
                            if i < prev_got.len() {
                                assert(got[i] == prev_got[i]);
                                assert(results[i] == prev_results[i]);
                                assert(contexts[i] == prev_contexts[i]);
                                assert(contexts[i + 1] == prev_contexts[i + 1]);
                            }
                        }
                    }
                    if !out.send(r) {
                        proof {
                            lemma_added(in0, got);
                            lemma_added(out0, prev_results);
                            assert(results.drop_last() == prev_results);
                            assert(mapped_with_ctx(got, prev_results, Flow::Refused, contexts, results));
                        }
                        return Flow::Refused;
                    }
                    if stop {
                        proof {
                            lemma_added(in0, got);
                            lemma_added(out0, results);
                            assert(mapped_with_ctx(got, results, Flow::Halted, contexts, results));
                        }
                        return Flow::Halted;
                    }
                },
            }
            n = n + 1;
        }
        proof {
            lemma_added(in0, got);
            lemma_added(out0, results);
            assert(mapped_with_ctx(got, results, Flow::Exhausted, contexts, results));
        }
        Flow::Exhausted
    }
}

impl<T> Pipeline<T> {
    /// Feeds all non-errors from this pipeline into `out`
    ///
    /// Reads every message until the input drains, delivering the value of
    /// each success and dropping each error.
    pub fn run_filter_ok(&mut self, out: &mut Outlet<T>) -> (flow: Flow)
        ensures
            flow is Refused ==> final(out).refused(),
            flow is Drained ==> final(self).hung_up(),
            flow is Exhausted ==> added(old(self)@, final(self)@).len() == usize::MAX,
            old(self)@.is_prefix_of(final(self)@),
            old(out)@.is_prefix_of(final(out)@),
            flow is Drained || flow is Refused || flow is Exhausted,
            flow is Refused ==> {
                let got = added(old(self)@, final(self)@);
                &&& got.len() > 0
                &&& got.last() is Ok
                &&& added(old(out)@, final(out)@) == ok_values(got.drop_last())
            },
            flow !is Refused ==> added(old(out)@, final(out)@) == ok_values(added(old(self)@, final(self)@)),
    {
        let ghost in0 = self@;
        let ghost out0 = out@;
        let ghost mut got: Seq<PipelineResult<T>> = Seq::empty();
        let mut n: usize = 0;
        while n < usize::MAX
            invariant
                got.len() == n,
                self@ == in0 + got,
                out@ == out0 + ok_values(got),
                in0 == old(self)@,
                out0 == old(out)@,
            decreases usize::MAX - n,
        {
            match self.take() {
                None => {
                    proof { lemma_added(in0, got); lemma_added(out0, ok_values(got)); }
                    return Flow::Drained;
                },
                Some(m) => {
                    let ghost prev = got;
                    proof {
                        got = got.push(m);
                        assert(got.drop_last() == prev);
                    }
                    match m {
                        Ok(v) => {
                            if !out.send(v) {
                                proof { lemma_added(in0, got); lemma_added(out0, ok_values(prev)); }
                                return Flow::Refused;
                            }
                        },
                        Err(_) => {},
                    }
                },
            }
            n = n + 1;
        }
        proof { lemma_added(in0, got); lemma_added(out0, ok_values(got)); }
        Flow::Exhausted
    }
}

impl<T> Pipeline<T> {
    /// Feeds all errors from this pipeline into `out`
    ///
    /// Reads every message until the input drains, delivering each error and
    /// dropping each success.
    pub fn run_filter_err(&mut self, out: &mut Outlet<Error>) -> (flow: Flow)
        ensures
            flow is Refused ==> final(out).refused(),
            flow is Drained ==> final(self).hung_up(),
            flow is Exhausted ==> added(old(self)@, final(self)@).len() == usize::MAX,
            old(self)@.is_prefix_of(final(self)@),
            old(out)@.is_prefix_of(final(out)@),
            flow is Drained || flow is Refused || flow is Exhausted,
            flow is Refused ==> {
                let got = added(old(self)@, final(self)@);
                &&& got.len() > 0
                &&& got.last() is Err
                &&& added(old(out)@, final(out)@) == err_values(got.drop_last())
            },
            flow !is Refused ==> added(old(out)@, final(out)@) == err_values(added(old(self)@, final(self)@)),
    {
        let ghost in0 = self@;
        let ghost out0 = out@;
        let ghost mut got: Seq<PipelineResult<T>> = Seq::empty();
        let mut n: usize = 0;
        while n < usize::MAX
            invariant
                got.len() == n,
                self@ == in0 + got,
                out@ == out0 + err_values(got),
                in0 == old(self)@,
                out0 == old(out)@,
            decreases usize::MAX - n,
        {
            match self.take() {
                None => {
                    proof { lemma_added(in0, got); lemma_added(out0, err_values(got)); }
                    return Flow::Drained;
                },
                Some(m) => {
                    let ghost prev = got;
                    proof {
                        got = got.push(m);
                        assert(got.drop_last() == prev);
                    }
                    match m {
                        Ok(_) => {},
                        Err(e) => {
                            if !out.send(e) {
                                proof { lemma_added(in0, got); lemma_added(out0, err_values(prev)); }
                                return Flow::Refused;
                            }
                        },
                    }
                },
            }
            n = n + 1;
        }
        proof { lemma_added(in0, got); lemma_added(out0, err_values(got)); }
        Flow::Exhausted
    }
}

impl<L, R> Pipeline<Either<L, R>> {
    /// Feeds messages of this pipeline into either of two outputs, decided based on its side of Either
    ///
    /// A left value goes to `left`, a right value to `right`; an error goes to
    /// both and ends the stage.
    pub fn run_split_by_either(
        &mut self,
        left: &mut Outlet<PipelineResult<L>>,
        right: &mut Outlet<PipelineResult<R>>,
    ) -> (flow: Flow)
        ensures
            flow is Refused ==> final(left).refused() || final(right).refused(),
            flow is Drained ==> final(self).hung_up(),
            flow is Exhausted ==> added(old(self)@, final(self)@).len() == usize::MAX,
            old(self)@.is_prefix_of(final(self)@),
            old(left)@.is_prefix_of(final(left)@),
            old(right)@.is_prefix_of(final(right)@),
            stops_at_error(added(old(self)@, final(self)@)),
            flow !is Refused ==> {
                &&& halts_on_error(added(old(self)@, final(self)@), flow)
                &&& added(old(left)@, final(left)@) == left_side(added(old(self)@, final(self)@))
                &&& added(old(right)@, final(right)@) == right_side(added(old(self)@, final(self)@))
            },
            flow is Refused ==> {
                let got = added(old(self)@, final(self)@);
                let sl = added(old(left)@, final(left)@);
                let sr = added(old(right)@, final(right)@);
                &&& got.len() > 0
                &&& sl == left_side(got.drop_last()) || sl == left_side(got)
                &&& sr == right_side(got.drop_last()) || sr == right_side(got)
            },
    {
        let ghost in0 = self@;
        let ghost l0 = left@;
        let ghost r0 = right@;
        let ghost mut got: Seq<PipelineResult<Either<L, R>>> = Seq::empty();
        let mut n: usize = 0;
        while n < usize::MAX
            invariant
                got.len() == n,
                self@ == in0 + got,
                left@ == l0 + left_side(got),
                right@ == r0 + right_side(got),
                all_ok(got),
                in0 == old(self)@,
                l0 == old(left)@,
                r0 == old(right)@,
            decreases usize::MAX - n,
        {
            match self.take() {
                None => {
                    proof {
                        lemma_added(in0, got);
                        lemma_added(l0, left_side(got));
                        lemma_added(r0, right_side(got));
                    }
                    return Flow::Drained;
                },
                Some(m) => {
                    let ghost prev = got;
                    proof {
                        got = got.push(m);
                        assert(got.drop_last() == prev);
                    }
                    match m {
                        Ok(Either::Left(v)) => {
                            if !left.send(Ok(v)) {
                                proof {
                                    lemma_added(in0, got);
                                    lemma_added(l0, left_side(prev));
                                    lemma_added(r0, right_side(prev));
                                }
                                return Flow::Refused;
                            }
                        },
                        Ok(Either::Right(v)) => {
                            if !right.send(Ok(v)) {
                                proof {
                                    lemma_added(in0, got);
                                    lemma_added(l0, left_side(prev));
                                    lemma_added(r0, right_side(prev));
                                }
                                return Flow::Refused;
                            }
                        },
                        Err(e) => {
                            if !left.send(Err(e)) {
                                proof {
                                    lemma_added(in0, got);
                                    lemma_added(l0, left_side(prev));
                                    lemma_added(r0, right_side(prev));
                                }
                                return Flow::Refused;
                            }
                            if !right.send(Err(e)) {
                                proof {
                                    lemma_added(in0, got);
                                    lemma_added(l0, left_side(got));
                                    lemma_added(r0, right_side(prev));
                                }
                                return Flow::Refused;
                            }
                            proof {
                                lemma_added(in0, got);
                                lemma_added(l0, left_side(got));
                                lemma_added(r0, right_side(got));
                            }
                            return Flow::Halted;
                        },
                    }
                },
            }
            n = n + 1;
        }
        proof {
            lemma_added(in0, got);
            lemma_added(l0, left_side(got));
            lemma_added(r0, right_side(got));
        }
        Flow::Exhausted
    }
}

/// `picks[i]` is what `pred` said of the value of `got[i]`, for every
/// success in `got`.
pub open spec fn judged<T, F: FnMut(&T) -> bool>(pred: F, got: Seq<PipelineResult<T>>, picks: Seq<bool>) -> bool {
    &&& picks.len() == got.len()
    &&& forall|i: int| 0 <= i < got.len() ==> match #[trigger] got[i] {
        Ok(v) => call_ensures(pred, (&v,), picks[i]),
        Err(_) => true,
    }
}

impl<T> Pipeline<T> {
    /// Feeds messages of this pipeline into either of two outputs, decided using the predicate `pred`
    ///
    /// A value on which `pred` returns true goes to `left`, one on which it
    /// returns false to `right`; an error goes to both and ends the stage.
    pub fn run_split_by<F: FnMut(&T) -> bool>(
        &mut self,
        pred: &mut F,
        left: &mut Outlet<PipelineResult<T>>,
        right: &mut Outlet<PipelineResult<T>>,
    ) -> (flow: Flow)
        requires
            forall|v: &T| call_requires(*old(pred), (v,)),
        ensures
            flow is Refused ==> final(left).refused() || final(right).refused(),
            flow is Drained ==> final(self).hung_up(),
            flow is Exhausted ==> added(old(self)@, final(self)@).len() == usize::MAX,
            old(self)@.is_prefix_of(final(self)@),
            old(left)@.is_prefix_of(final(left)@),
            old(right)@.is_prefix_of(final(right)@),
            stops_at_error(added(old(self)@, final(self)@)),
            exists|picks: Seq<bool>|
                #![trigger judged(*old(pred), added(old(self)@, final(self)@), picks)]
                {
                    let got = added(old(self)@, final(self)@);
                    let sl = added(old(left)@, final(left)@);
                    let sr = added(old(right)@, final(right)@);
                    &&& judged(*old(pred), got, picks)
                    &&& flow !is Refused ==> {
                        &&& halts_on_error(got, flow)
                        &&& sl == picked(got, picks, true)
                        &&& sr == picked(got, picks, false)
                    }
                    &&& flow is Refused ==> {
                        &&& got.len() > 0
                        &&& sl == picked(got.drop_last(), picks, true) || sl == picked(got, picks, true)
                        &&& sr == picked(got.drop_last(), picks, false) || sr == picked(got, picks, false)
                    }
                },
    {
        let ghost in0 = self@;
        let ghost l0 = left@;
        let ghost r0 = right@;
        let ghost p0 = *pred;
        let ghost mut got: Seq<PipelineResult<T>> = Seq::empty();
        let ghost mut picks: Seq<bool> = Seq::empty();
        let mut n: usize = 0;
        while n < usize::MAX
            invariant
                got.len() == n,
                self@ == in0 + got,
                left@ == l0 + picked(got, picks, true),
                right@ == r0 + picked(got, picks, false),
                all_ok(got),
                judged(p0, got, picks),
                in0 == old(self)@,
                l0 == old(left)@,
                r0 == old(right)@,
                p0 == *old(pred),
                *pred == p0,
                forall|v: &T| call_requires(p0, (v,)),
            decreases usize::MAX - n,
        {
            match self.take() {
                None => {
                    proof {
                        lemma_added(in0, got);
                        lemma_added(l0, picked(got, picks, true));
                        lemma_added(r0, picked(got, picks, false));
                    }
                    return Flow::Drained;
                },
                Some(m) => {
                    let ghost prev = got;
                    let ghost prev_picks = picks;
                    match m {
                        Ok(v) => {
                            let to_left = pred(&v);
                            proof {
                                got = got.push(Ok(v));
                                picks = picks.push(to_left);
                                assert(got.drop_last() == prev);
                                lemma_picked_prefix(prev, prev_picks, to_left, true);
                                lemma_picked_prefix(prev, prev_picks, to_left, false);
                                assert forall|i: int| 0 <= i < got.len() implies match #[trigger] got[i] {
                                    Ok(w) => call_ensures(p0, (&w,), picks[i]),
                                    Err(_) => true,
                                } by {
                                    if i < prev.len() {
                                        assert(got[i] == prev[i]);
                                        assert(picks[i] == prev_picks[i]);
                                    }
                                }
                            }
                            let delivered = if to_left {
                                left.send(Ok(v))
                            } else {
                                right.send(Ok(v))
                            };
                            if !delivered {
                                proof {
                                    lemma_added(in0, got);
                                    lemma_added(l0, picked(prev, prev_picks, true));
                                    lemma_added(r0, picked(prev, prev_picks, false));
                                    assert(judged(p0, got, picks));
                                }
                                return Flow::Refused;
                            }
                        },
                        Err(e) => {
                            proof {
                                got = got.push(Err(e));
                                picks = picks.push(false);
                                assert(got.drop_last() == prev);
                                lemma_picked_prefix(prev, prev_picks, false, true);
                                lemma_picked_prefix(prev, prev_picks, false, false);
                                assert forall|i: int| 0 <= i < got.len() implies match #[trigger] got[i] {
                                    Ok(w) => call_ensures(p0, (&w,), picks[i]),
                                    Err(_) => true,
                                } by {
                                    if i < prev.len() {
                                        assert(got[i] == prev[i]);
                                        assert(picks[i] == prev_picks[i]);
                                    }
                                }
                            }
                            if !left.send(Err(e)) {
                                proof {
                                    lemma_added(in0, got);
                                    lemma_added(l0, picked(prev, prev_picks, true));
                                    lemma_added(r0, picked(prev, prev_picks, false));
                                    assert(judged(p0, got, picks));
                                    assert(picked(got.drop_last(), picks, true) == picked(prev, prev_picks, true));
                                    assert(picked(got.drop_last(), picks, false) == picked(prev, prev_picks, false));
                                }
                                return Flow::Refused;
                            }
                            if !right.send(Err(e)) {
                                proof {
                                    assert(picked(got, picks, true) == picked(prev, prev_picks, true).push(Err(e)));
                                    assert(left@ == l0 + picked(got, picks, true));
                                    lemma_added(in0, got);
                                    lemma_added(l0, picked(got, picks, true));
                                    lemma_added(r0, picked(prev, prev_picks, false));
                                    assert(judged(p0, got, picks));
                                    assert(picked(got.drop_last(), picks, false) == picked(prev, prev_picks, false));
                                }
                                return Flow::Refused;
                            }
                            proof {
                                assert(picked(got, picks, true) == picked(prev, prev_picks, true).push(Err(e)));
                                assert(picked(got, picks, false) == picked(prev, prev_picks, false).push(Err(e)));
                                assert(left@ == l0 + picked(got, picks, true));
                                assert(right@ == r0 + picked(got, picks, false));
                                lemma_added(in0, got);
                                lemma_added(l0, picked(got, picks, true));
                                lemma_added(r0, picked(got, picks, false));
                                assert(judged(p0, got, picks));
                            }
                            return Flow::Halted;
                        },
                    }
                },
            }
            n = n + 1;
        }
        proof {
            lemma_added(in0, got);
            lemma_added(l0, picked(got, picks, true));
            lemma_added(r0, picked(got, picks, false));
        }
        Flow::Exhausted
    }
}

/// `c` is a copy of the message `m`: a clone of its value, or the same error.
pub open spec fn copy_of<T: Clone>(m: PipelineResult<T>, c: PipelineResult<T>) -> bool {
    match m {
        Ok(v) => c is Ok && cloned(v, c->Ok_0),
        Err(e) => c == Err::<T, Error>(e),
    }
}

/// `copies[i]` is a copy of `got[i]`, for each message of `copies`.
pub open spec fn copies_of<T: Clone>(got: Seq<PipelineResult<T>>, copies: Seq<PipelineResult<T>>) -> bool {
    forall|i: int| 0 <= i < copies.len() ==> copy_of(got[i], #[trigger] copies[i])
}

impl<T: Clone> Pipeline<T> {
    /// Inverse-multiplexes messages of this pipeline into two outputs
    ///
    /// Every message goes to both outputs: a clone of it to `first`, the
    /// message itself to `second`. An error ends the stage.
    pub fn run_duplicate(
        &mut self,
        first: &mut Outlet<PipelineResult<T>>,
        second: &mut Outlet<PipelineResult<T>>,
    ) -> (flow: Flow)
        ensures
            flow is Refused ==> final(first).refused() || final(second).refused(),
            flow is Drained ==> final(self).hung_up(),
            flow is Exhausted ==> added(old(self)@, final(self)@).len() == usize::MAX,
            old(self)@.is_prefix_of(final(self)@),
            old(first)@.is_prefix_of(final(first)@),
            old(second)@.is_prefix_of(final(second)@),
            stops_at_error(added(old(self)@, final(self)@)),
            copies_of(added(old(self)@, final(self)@), added(old(first)@, final(first)@)),
            flow !is Refused ==> {
                &&& halts_on_error(added(old(self)@, final(self)@), flow)
                &&& added(old(first)@, final(first)@).len() == added(old(self)@, final(self)@).len()
                &&& added(old(second)@, final(second)@) == added(old(self)@, final(self)@)
            },
            flow is Refused ==> {
                let got = added(old(self)@, final(self)@);
                let s1 = added(old(first)@, final(first)@);
                &&& got.len() > 0
                &&& s1.len() == got.len() - 1 || s1.len() == got.len()
                &&& added(old(second)@, final(second)@) == got.drop_last()
            },
    {
        let ghost in0 = self@;
        let ghost f0 = first@;
        let ghost s0 = second@;
        let ghost mut got: Seq<PipelineResult<T>> = Seq::empty();
        let ghost mut copies: Seq<PipelineResult<T>> = Seq::empty();
        let mut n: usize = 0;
        while n < usize::MAX
            invariant
                got.len() == n,
                self@ == in0 + got,
                first@ == f0 + copies,
                second@ == s0 + got,
                copies.len() == got.len(),
                copies_of(got, copies),
                all_ok(got),
                in0 == old(self)@,
                f0 == old(first)@,
                s0 == old(second)@,
            decreases usize::MAX - n,
        {
            match self.take() {
                None => {
                    proof {
                        lemma_added(in0, got);
                        lemma_added(f0, copies);
                        lemma_added(s0, got);
                    }
                    return Flow::Drained;
                },
                Some(m) => {
                    let ghost prev = got;
                    let ghost prev_copies = copies;
                    let stop = m.is_err();
                    let c = match &m {
                        Ok(v) => Ok(v.clone()),
                        Err(e) => Err(*e),
                    };
                    assert(copy_of(m, c));
                    let ghost gc = c;
                    proof { got = got.push(m); }
                    assert(got.drop_last() == prev);
                    if !first.send(c) {
                        proof {
                            lemma_added(in0, got);
                            lemma_added(f0, copies);
                            lemma_added(s0, prev);
                        }
                        return Flow::Refused;
                    }
                    proof {
                        copies = copies.push(gc);
                        assert forall|i: int| 0 <= i < copies.len() implies copy_of(got[i], #[trigger] copies[i]) by {
                            if i < prev.len() {
                                assert(got[i] == prev[i]);
                                assert(copies[i] == prev_copies[i]);
                            }
                        }
                    }
                    if !second.send(m) {
                        proof {
                            lemma_added(in0, got);
                            lemma_added(f0, copies);
                            lemma_added(s0, prev);
                        }
                        return Flow::Refused;
                    }
                    if stop {
                        proof {
                            lemma_added(in0, got);
                            lemma_added(f0, copies);
                            lemma_added(s0, got);
                        }
                        return Flow::Halted;
                    }
                },
            }
            n = n + 1;
        }
        proof {
            lemma_added(in0, got);
            lemma_added(f0, copies);
            lemma_added(s0, got);
        }
        Flow::Exhausted
    }
}

impl<T> Pipeline<T> {
    /// Executes `callback` on each message received on this pipeline
    ///
    /// Every message, value or error, is handed to `callback`, in order,
    /// until the input drains.
    pub fn run_each<F: FnMut(PipelineResult<T>)>(&mut self, callback: &mut F) -> (flow: Flow)
        requires
            forall|m: PipelineResult<T>| call_requires(*old(callback), (m,)),
        ensures
            flow is Drained ==> final(self).hung_up(),
            flow is Exhausted ==> added(old(self)@, final(self)@).len() == usize::MAX,
            old(self)@.is_prefix_of(final(self)@),
            flow is Drained || flow is Exhausted,
            forall|i: int| 0 <= i < added(old(self)@, final(self)@).len()
                ==> call_ensures(*old(callback), (#[trigger] added(old(self)@, final(self)@)[i],), ()),
    {
        let ghost in0 = self@;
        let ghost cb0 = *callback;
        let ghost mut got: Seq<PipelineResult<T>> = Seq::empty();
        let mut n: usize = 0;
        while n < usize::MAX
            invariant
                got.len() == n,
                self@ == in0 + got,
                in0 == old(self)@,
                cb0 == *old(callback),
                *callback == cb0,
                forall|m: PipelineResult<T>| call_requires(cb0, (m,)),
                forall|i: int| 0 <= i < got.len() ==> call_ensures(cb0, (#[trigger] got[i],), ()),
            decreases usize::MAX - n,
        {
            match self.take() {
                None => {
                    proof { lemma_added(in0, got); }
                    return Flow::Drained;
                },
                Some(m) => {
                    let ghost gm = m;
                    let ghost prev = got;
                    callback(m);
                    proof {
                        got = got.push(gm);
                        assert forall|i: int| 0 <= i < got.len() implies call_ensures(cb0, (#[trigger] got[i],), ()) by {
                            if i < prev.len() {
                                assert(got[i] == prev[i]);
                            }
                        }
                    }
                },
            }
            n = n + 1;
        }
        proof { lemma_added(in0, got); }
        Flow::Exhausted
    }

    /// Executes `callback` on each message received on this pipeline, with a shared context
    ///
    /// Every message, value or error, is handed to `callback` together with
    /// the context, in order, until the input drains. The context holds what
    /// `callback` left in it once the stage is done.
    pub fn run_each_with_ctx<C, F: FnMut(PipelineResult<T>, &mut C)>(
        &mut self,
        callback: &mut F,
        ctx: &mut C,
    ) -> (flow: Flow)
        requires
            forall|m: PipelineResult<T>, c: &mut C| call_requires(*old(callback), (m, c)),
        ensures
            flow is Drained ==> final(self).hung_up(),
            flow is Exhausted ==> added(old(self)@, final(self)@).len() == usize::MAX,
            old(self)@.is_prefix_of(final(self)@),
            flow is Drained || flow is Exhausted,
            exists|contexts: Seq<C>|
                #![trigger contexts.len(), contexts[0]]
                {
                    &&& contexts.len() == added(old(self)@, final(self)@).len() + 1
                    &&& contexts[0] == *old(ctx)
                    &&& contexts.last() == *final(ctx)
                    &&& forall|i: int| 0 <= i < contexts.len() - 1 ==> exists|c: &mut C|
                        *c == contexts[i] && *final(c) == contexts[i + 1]
                        && call_ensures(*old(callback), (#[trigger] added(old(self)@, final(self)@)[i], c), ())
                },
    {
        let ghost in0 = self@;
        let ghost cb0 = *callback;
        let ghost mut got: Seq<PipelineResult<T>> = Seq::empty();
        let ghost mut contexts: Seq<C> = seq![*ctx];
        let mut n: usize = 0;
        while n < usize::MAX
            invariant
                got.len() == n,
                self@ == in0 + got,
                in0 == old(self)@,
                cb0 == *old(callback),
                *callback == cb0,
                forall|m: PipelineResult<T>, c: &mut C| call_requires(cb0, (m, c)),
                contexts.len() == got.len() + 1,
                contexts[0] == *old(ctx),
                contexts.last() == *ctx,
                forall|i: int| 0 <= i < got.len() ==> exists|c: &mut C|
                    *c == contexts[i] && *final(c) == contexts[i + 1]
                    && call_ensures(cb0, (#[trigger] got[i], c), ()),
            decreases usize::MAX - n,
        {
            match self.take() {
                None => {
                    proof {
                        lemma_added(in0, got);
                        assert(contexts[0] == *old(ctx));
                    }
                    return Flow::Drained;
                },
                Some(m) => {
                    let ghost gm = m;
                    let ghost prev = got;
                    let ghost prev_contexts = contexts;
                    let ghost before = *ctx;
                    callback(m, ctx);
                    let ghost after = *ctx;
                    assert(exists|c: &mut C| *c == before && *final(c) == after && call_ensures(cb0, (gm, c), ()));
                    proof {
                        got = got.push(gm);
                        contexts = contexts.push(after);
                        assert forall|i: int| 0 <= i < got.len() implies exists|c: &mut C|
                            *c == contexts[i] && *final(c) == contexts[i + 1]
                            && call_ensures(cb0, (#[trigger] got[i], c), ()) by {
                            if i < prev.len() {
                                assert(got[i] == prev[i]);
                                assert(contexts[i] == prev_contexts[i]);
                                assert(contexts[i + 1] == prev_contexts[i + 1]);
                            }
                        }
                    }
                },
            }
            n = n + 1;
        }
        proof {
            lemma_added(in0, got);
            assert(contexts[0] == *old(ctx));
        }
        Flow::Exhausted
    }
}

/// Feeds every value read from `input` into `out`, each wrapped as a success,
/// until `input` drains.
pub fn run_from_receiver<T>(input: &mut Inlet<T>, out: &mut Outlet<PipelineResult<T>>) -> (flow: Flow)
    ensures
        flow is Refused ==> final(out).refused(),
        flow is Drained ==> final(input).hung_up(),
        flow is Exhausted ==> added(old(input)@, final(input)@).len() == usize::MAX,
        old(input)@.is_prefix_of(final(input)@),
        old(out)@.is_prefix_of(final(out)@),
        flow is Drained || flow is Refused || flow is Exhausted,
        flow is Refused ==> {
            let got = added(old(input)@, final(input)@);
            got.len() > 0 && added(old(out)@, final(out)@) == wrap_ok(got.drop_last())
        },
        flow !is Refused ==> added(old(out)@, final(out)@) == wrap_ok(added(old(input)@, final(input)@)),
{
    let ghost in0 = input@;
    let ghost out0 = out@;
    let ghost mut got: Seq<T> = Seq::empty();
    let mut n: usize = 0;
    while n < usize::MAX
        invariant
            got.len() == n,
            input@ == in0 + got,
            out@ == out0 + wrap_ok(got),
            in0 == old(input)@,
            out0 == old(out)@,
        decreases usize::MAX - n,
    {
        match input.take() {
            None => {
                proof { lemma_added(in0, got); lemma_added(out0, wrap_ok(got)); }
                return Flow::Drained;
            },
            Some(v) => {
                let ghost gv = v;
                let ghost prev = got;
                proof {
                    got = got.push(gv);
                    assert(got.drop_last() == prev);
                    assert(wrap_ok(got) == wrap_ok(prev).push(Ok(gv)));
                }
                if !out.send(Ok(v)) {
                    proof { lemma_added(in0, got); lemma_added(out0, wrap_ok(prev)); }
                    return Flow::Refused;
                }
            },
        }
        n = n + 1;
    }
    proof { lemma_added(in0, got); lemma_added(out0, wrap_ok(got)); }
    Flow::Exhausted
}

/// A mapping stage whose operation passes every value on unchanged passes
/// on exactly what it read: with such an `op`, a run of `run_map` that was
/// not refused delivered the messages it read, in order.
pub proof fn lemma_map_identity<T, F: FnMut(T) -> PipelineResult<T>>(
    op: F,
    got: Seq<PipelineResult<T>>,
    sent: Seq<PipelineResult<T>>,
    flow: Flow,
)
    requires
        forall|v: T, r: PipelineResult<T>| call_ensures(op, (v,), r) ==> r == Ok::<T, Error>(v),
        mapped(op, got, sent, flow),
        flow !is Refused,
    ensures
        sent == got,
{
    assert forall|i: int| 0 <= i < sent.len() implies sent[i] == got[i] by {
        assert(mapped_message(op, got[i], sent[i]));
    }
    assert(sent =~= got);
}

/// A mapping stage with a context whose operation passes every value on
/// unchanged and leaves the context as it found it passes on exactly what
/// it read, and ends with the context it started with: with such an `op`,
/// a run of `run_map_with_ctx` that was not refused delivered the messages it
/// read, in order, and its context states are all the first one.
pub proof fn lemma_map_with_ctx_identity<T, C, F: FnMut(T, &mut C) -> PipelineResult<T>>(
    op: F,
    got: Seq<PipelineResult<T>>,
    sent: Seq<PipelineResult<T>>,
    flow: Flow,
    contexts: Seq<C>,
    results: Seq<PipelineResult<T>>,
)
    requires
        forall|v: T, c: &mut C, r: PipelineResult<T>|
            call_ensures(op, (v, c), r) ==> r == Ok::<T, Error>(v) && *final(c) == *c,
        mapped_with_ctx(got, sent, flow, contexts, results),
        forall|i: int| 0 <= i < contexts.len() - 1 ==> match #[trigger] got[i] {
            Ok(v) => exists|c: &mut C| *c == contexts[i] && *final(c) == contexts[i + 1]
                && call_ensures(op, (v, c), results[i]),
            Err(e) => contexts[i + 1] == contexts[i] && results[i] == Err::<T, Error>(e),
        },
        flow !is Refused,
    ensures
        sent == got,
        contexts.last() == contexts[0],
{
    assert forall|i: int| 0 <= i < got.len() implies results[i] == got[i] && contexts[i + 1] == contexts[i] by {
        match got[i] {
            Ok(v) => {
                let c = choose|c: &mut C| *c == contexts[i] && *final(c) == contexts[i + 1]
                    && call_ensures(op, (v, c), results[i]);
            },
            Err(e) => {},
        }
    }
    assert(results =~= got);
    assert forall|j: int| 0 <= j < contexts.len() - 1 implies contexts[j + 1] == #[trigger] contexts[j] by {
        match got[j] {
            Ok(v) => {
                let c = choose|c: &mut C| *c == contexts[j] && *final(c) == contexts[j + 1]
                    && call_ensures(op, (v, c), results[j]);
            },
            Err(e) => {},
        }
    }
    lemma_contexts_unchanged(contexts, contexts.len() - 1);
}

proof fn lemma_contexts_unchanged<C>(contexts: Seq<C>, i: int)
    requires
        0 <= i < contexts.len(),
        forall|j: int| 0 <= j < contexts.len() - 1 ==> contexts[j + 1] == #[trigger] contexts[j],
    ensures
        contexts[i] == contexts[0],
    decreases i,
{
    if i > 0 {
        lemma_contexts_unchanged(contexts, i - 1);
    }
}

/// Passes on every message of `input` to `out` until `input` drains, or
/// after passing on an error.
fn forward<T>(input: &mut Pipeline<T>, out: &mut Outlet<PipelineResult<T>>) -> (flow: Flow)
    ensures
        flow is Drained ==> final(input).hung_up(),
        flow is Exhausted ==> added(old(input)@, final(input)@).len() == usize::MAX,
        flow is Refused ==> final(out).refused(),
        old(input)@.is_prefix_of(final(input)@),
        old(out)@.is_prefix_of(final(out)@),
        flow !is Refused ==> halts_on_error(added(old(input)@, final(input)@), flow),
        flow is Refused ==> stops_at_error(added(old(input)@, final(input)@)),
        passed_on(added(old(input)@, final(input)@), added(old(out)@, final(out)@), flow),
{
    let ghost in0 = input@;
    let ghost out0 = out@;
    let ghost mut got: Seq<PipelineResult<T>> = Seq::empty();
    let mut n: usize = 0;
    while n < usize::MAX
        invariant
            got.len() == n,
            input@ == in0 + got,
            out@ == out0 + got,
            all_ok(got),
            in0 == old(input)@,
            out0 == old(out)@,
        decreases usize::MAX - n,
    {
        match input.take() {
            None => {
                proof { lemma_added(in0, got); lemma_added(out0, got); }
                return Flow::Drained;
            },
            Some(m) => {
                let stop = m.is_err();
                let ghost prev = got;
                proof { got = got.push(m); }
                assert(got.drop_last() == prev);
                if !out.send(m) {
                    proof { lemma_added(in0, got); lemma_added(out0, got.drop_last()); }
                    return Flow::Refused;
                }
                if stop {
                    proof { lemma_added(in0, got); lemma_added(out0, got); }
                    return Flow::Halted;
                }
            },
        }
        n = n + 1;
    }
    proof { lemma_added(in0, got); lemma_added(out0, got); }
    Flow::Exhausted
}

/// Passes on every message of `input` to `out`, each value marked as a left
/// one, until `input` drains, or after passing on an error.
fn forward_left<L, R>(input: &mut Pipeline<L>, out: &mut Outlet<PipelineResult<Either<L, R>>>) -> (flow: Flow)
    ensures
        flow is Drained ==> final(input).hung_up(),
        flow is Exhausted ==> added(old(input)@, final(input)@).len() == usize::MAX,
        flow is Refused ==> final(out).refused(),
        old(input)@.is_prefix_of(final(input)@),
        old(out)@.is_prefix_of(final(out)@),
        flow !is Refused ==> halts_on_error(added(old(input)@, final(input)@), flow),
        flow is Refused ==> stops_at_error(added(old(input)@, final(input)@)),
        passed_on(wrap_left::<L, R>(added(old(input)@, final(input)@)), added(old(out)@, final(out)@), flow),
{
    let ghost in0 = input@;
    let ghost out0 = out@;
    let ghost mut got: Seq<PipelineResult<L>> = Seq::empty();
    let mut n: usize = 0;
    while n < usize::MAX
        invariant
            got.len() == n,
            input@ == in0 + got,
            out@ == out0 + wrap_left::<L, R>(got),
            all_ok(got),
            in0 == old(input)@,
            out0 == old(out)@,
        decreases usize::MAX - n,
    {
        match input.take() {
            None => {
                proof { lemma_added(in0, got); lemma_added(out0, wrap_left::<L, R>(got)); }
                return Flow::Drained;
            },
            Some(m) => {
                let ghost prev = got;
                proof { got = got.push(m); }
                assert(got.drop_last() == prev);
                assert(wrap_left::<L, R>(got) == wrap_left::<L, R>(prev).push(as_left::<L, R>(m)));
                let (msg, stop) = match m {
                    Ok(v) => (Ok(Either::Left(v)), false),
                    Err(e) => (Err(e), true),
                };
                if !out.send(msg) {
                    proof {
                        lemma_added(in0, got);
                        lemma_added(out0, wrap_left::<L, R>(prev));
                        assert(wrap_left::<L, R>(got).drop_last() == wrap_left::<L, R>(prev));
                    }
                    return Flow::Refused;
                }
                if stop {
                    proof { lemma_added(in0, got); lemma_added(out0, wrap_left::<L, R>(got)); }
                    return Flow::Halted;
                }
            },
        }
        n = n + 1;
    }
    proof { lemma_added(in0, got); lemma_added(out0, wrap_left::<L, R>(got)); }
    Flow::Exhausted
}

/// Passes on every message of `input` to `out`, each value marked as a right
/// one, until `input` drains, or after passing on an error.
fn forward_right<L, R>(input: &mut Pipeline<R>, out: &mut Outlet<PipelineResult<Either<L, R>>>) -> (flow: Flow)
    ensures
        flow is Drained ==> final(input).hung_up(),
        flow is Exhausted ==> added(old(input)@, final(input)@).len() == usize::MAX,
        flow is Refused ==> final(out).refused(),
        old(input)@.is_prefix_of(final(input)@),
        old(out)@.is_prefix_of(final(out)@),
        flow !is Refused ==> halts_on_error(added(old(input)@, final(input)@), flow),
        flow is Refused ==> stops_at_error(added(old(input)@, final(input)@)),
        passed_on(wrap_right::<L, R>(added(old(input)@, final(input)@)), added(old(out)@, final(out)@), flow),
{
    let ghost in0 = input@;
    let ghost out0 = out@;
    let ghost mut got: Seq<PipelineResult<R>> = Seq::empty();
    let mut n: usize = 0;
    while n < usize::MAX
        invariant
            got.len() == n,
            input@ == in0 + got,
            out@ == out0 + wrap_right::<L, R>(got),
            all_ok(got),
            in0 == old(input)@,
            out0 == old(out)@,
        decreases usize::MAX - n,
    {
        match input.take() {
            None => {
                proof { lemma_added(in0, got); lemma_added(out0, wrap_right::<L, R>(got)); }
                return Flow::Drained;
            },
            Some(m) => {
                let ghost prev = got;
                proof { got = got.push(m); }
                assert(got.drop_last() == prev);
                assert(wrap_right::<L, R>(got) == wrap_right::<L, R>(prev).push(as_right::<L, R>(m)));
                let (msg, stop) = match m {
                    Ok(v) => (Ok(Either::Right(v)), false),
                    Err(e) => (Err(e), true),
                };
                if !out.send(msg) {
                    proof {
                        lemma_added(in0, got);
                        lemma_added(out0, wrap_right::<L, R>(prev));
                        assert(wrap_right::<L, R>(got).drop_last() == wrap_right::<L, R>(prev));
                    }
                    return Flow::Refused;
                }
                if stop {
                    proof { lemma_added(in0, got); lemma_added(out0, wrap_right::<L, R>(got)); }
                    return Flow::Halted;
                }
            },
        }
        n = n + 1;
    }
    proof { lemma_added(in0, got); lemma_added(out0, wrap_right::<L, R>(got)); }
    Flow::Exhausted
}

/// What a split delivers for `s` depends only on the decisions for the
/// messages of `s`.
proof fn lemma_picked_agree<T>(s: Seq<PipelineResult<T>>, p1: Seq<bool>, p2: Seq<bool>, side: bool)
    requires
        p1.len() >= s.len(),
        p2.len() >= s.len(),
        forall|i: int| 0 <= i < s.len() ==> p1[i] == p2[i],
    ensures
        picked(s, p1, side) == picked(s, p2, side),
    decreases s.len(),
{
    if s.len() > 0 {
        lemma_picked_agree(s.drop_last(), p1, p2, side);
    }
}

/// What a split has delivered for `s` does not change when a decision is
/// added for a later message.
proof fn lemma_picked_prefix<T>(s: Seq<PipelineResult<T>>, picks: Seq<bool>, pick: bool, side: bool)
    requires
        picks.len() == s.len(),
    ensures
        picked(s, picks.push(pick), side) == picked(s, picks, side),
{
    lemma_picked_agree(s, picks.push(pick), picks, side);
}

proof fn lemma_added<M>(before: Seq<M>, extra: Seq<M>)
    ensures
        added(before, before + extra) == extra,
        before.is_prefix_of(before + extra),
{
    assert(added(before, before + extra) =~= extra);
    assert((before + extra).subrange(0, before.len() as int) =~= before);
}

} // verus!
