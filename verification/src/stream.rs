//! What a pipeline stage makes of the stream of messages it receives: the
//! definitions in terms of which the stages' contracts are stated, and the
//! laws that relate them.
use crate::either::Either;
use crate::error::{Error, PipelineResult};
use vstd::prelude::*;

verus! {

/// Every value of `values`, each wrapped as a successful message.
pub open spec fn wrap_ok<T>(values: Seq<T>) -> Seq<PipelineResult<T>> {
    values.map_values(|v: T| Ok::<T, Error>(v))
}

/// No message of `s` is an error, except perhaps the last one: the stream
/// that a stage has read when it stops at the first error.
pub open spec fn stops_at_error<T>(s: Seq<PipelineResult<T>>) -> bool {
    forall|i: int| 0 <= i < s.len() - 1 ==> (#[trigger] s[i]) is Ok
}

/// No message of `s` is an error.
pub open spec fn all_ok<T>(s: Seq<PipelineResult<T>>) -> bool {
    forall|i: int| 0 <= i < s.len() ==> (#[trigger] s[i]) is Ok
}

/// The values of the successful messages of `s`, in order.
pub open spec fn ok_values<T>(s: Seq<PipelineResult<T>>) -> Seq<T>
    decreases s.len(),
{
    if s.len() == 0 {
        Seq::empty()
    } else {
        let rest = ok_values(s.drop_last());
        match s.last() {
            Ok(v) => rest.push(v),
            Err(_) => rest,
        }
    }
}

/// The errors among the messages of `s`, in order.
pub open spec fn err_values<T>(s: Seq<PipelineResult<T>>) -> Seq<Error>
    decreases s.len(),
{
    if s.len() == 0 {
        Seq::empty()
    } else {
        let rest = err_values(s.drop_last());
        match s.last() {
            Ok(_) => rest,
            Err(e) => rest.push(e),
        }
    }
}

/// A message of the left input of a merge, as the merged stream carries it.
pub open spec fn as_left<L, R>(m: PipelineResult<L>) -> PipelineResult<Either<L, R>> {
    match m {
        Ok(v) => Ok(Either::Left(v)),
        Err(e) => Err(e),
    }
}

/// A message of the right input of a merge, as the merged stream carries it.
pub open spec fn as_right<L, R>(m: PipelineResult<R>) -> PipelineResult<Either<L, R>> {
    match m {
        Ok(v) => Ok(Either::Right(v)),
        Err(e) => Err(e),
    }
}

/// The stream `s` with every value marked as a left one.
pub open spec fn wrap_left<L, R>(s: Seq<PipelineResult<L>>) -> Seq<PipelineResult<Either<L, R>>> {
    s.map_values(|m: PipelineResult<L>| as_left::<L, R>(m))
}

/// The stream `s` with every value marked as a right one.
pub open spec fn wrap_right<L, R>(s: Seq<PipelineResult<R>>) -> Seq<PipelineResult<Either<L, R>>> {
    s.map_values(|m: PipelineResult<R>| as_right::<L, R>(m))
}

/// What the left output of a split by side receives from `s`: the left
/// values, and every error.
pub open spec fn left_side<L, R>(s: Seq<PipelineResult<Either<L, R>>>) -> Seq<PipelineResult<L>>
    decreases s.len(),
{
    if s.len() == 0 {
        Seq::empty()
    } else {
        let rest = left_side(s.drop_last());
        match s.last() {
            Ok(Either::Left(v)) => rest.push(Ok(v)),
            Ok(Either::Right(_)) => rest,
            Err(e) => rest.push(Err(e)),
        }
    }
}

/// What the right output of a split by side receives from `s`: the right
/// values, and every error.
pub open spec fn right_side<L, R>(s: Seq<PipelineResult<Either<L, R>>>) -> Seq<PipelineResult<R>>
    decreases s.len(),
{
    if s.len() == 0 {
        Seq::empty()
    } else {
        let rest = right_side(s.drop_last());
        match s.last() {
            Ok(Either::Left(_)) => rest,
            Ok(Either::Right(v)) => rest.push(Ok(v)),
            Err(e) => rest.push(Err(e)),
        }
    }
}

/// What the output on side `side` of a split by predicate receives from `s`,
/// where `picks[i]` is what the predicate said of the value of `s[i]`: the
/// values on which it said `side`, and every error.
pub open spec fn picked<T>(s: Seq<PipelineResult<T>>, picks: Seq<bool>, side: bool) -> Seq<PipelineResult<T>>
    decreases s.len(),
{
    if s.len() == 0 {
        Seq::empty()
    } else {
        let rest = picked(s.drop_last(), picks, side);
        match s.last() {
            Ok(v) => if picks[s.len() - 1] == side { rest.push(Ok(v)) } else { rest },
            Err(e) => rest.push(Err(e)),
        }
    }
}

} // verus!

verus! {

/// Every message of a stream is either a success or an error: collecting the
/// values and collecting the errors of a stream together account for all of
/// its messages.
pub proof fn lemma_ok_err_partition<T>(s: Seq<PipelineResult<T>>)
    ensures
        ok_values(s).len() + err_values(s).len() == s.len(),
    decreases s.len(),
{
    if s.len() > 0 {
        lemma_ok_err_partition(s.drop_last());
    }
}

/// A stream made of values gives back exactly those values, and no error.
pub proof fn lemma_values_round_trip<T>(values: Seq<T>)
    ensures
        ok_values(wrap_ok(values)) == values,
        err_values(wrap_ok(values)) == Seq::<Error>::empty(),
    decreases values.len(),
{
    if values.len() > 0 {
        lemma_values_round_trip(values.drop_last());
        assert(wrap_ok(values).drop_last() == wrap_ok(values.drop_last()));
        assert(values.drop_last().push(values.last()) == values);
    }
}

/// The messages marked right, none of them an error, add nothing to the left
/// side of a stream.
proof fn lemma_left_side_skips_right<L, R>(x: Seq<PipelineResult<Either<L, R>>>, b: Seq<PipelineResult<R>>)
    requires
        all_ok(b),
    ensures
        left_side(x + wrap_right::<L, R>(b)) == left_side(x),
    decreases b.len(),
{
    if b.len() == 0 {
        assert(x + wrap_right::<L, R>(b) =~= x);
    } else {
        let bb = b.drop_last();
        assert(all_ok(bb)) by {
            assert forall|i: int| 0 <= i < bb.len() implies (#[trigger] bb[i]) is Ok by {
                assert(bb[i] == b[i]);
            }
        }
        lemma_left_side_skips_right(x, bb);
        assert((x + wrap_right::<L, R>(b)).drop_last() =~= x + wrap_right::<L, R>(bb));
        assert(b[b.len() - 1] is Ok);
    }
}

/// The left side of a stream of messages marked left is that stream.
proof fn lemma_left_side_of_left<L, R>(a: Seq<PipelineResult<L>>)
    ensures
        left_side(wrap_left::<L, R>(a)) == a,
    decreases a.len(),
{
    if a.len() > 0 {
        lemma_left_side_of_left::<L, R>(a.drop_last());
        assert(wrap_left::<L, R>(a).drop_last() =~= wrap_left::<L, R>(a.drop_last()));
        assert(a.drop_last().push(a.last()) =~= a);
    }
}

/// Messages marked left, none of them an error, add nothing to the right
/// side of a stream.
proof fn lemma_right_side_skips_left<L, R>(a: Seq<PipelineResult<L>>)
    requires
        all_ok(a),
    ensures
        right_side(wrap_left::<L, R>(a)) == Seq::<PipelineResult<R>>::empty(),
    decreases a.len(),
{
    if a.len() > 0 {
        let aa = a.drop_last();
        assert(all_ok(aa)) by {
            assert forall|i: int| 0 <= i < aa.len() implies (#[trigger] aa[i]) is Ok by {
                assert(aa[i] == a[i]);
            }
        }
        lemma_right_side_skips_left::<L, R>(aa);
        assert(wrap_left::<L, R>(a).drop_last() =~= wrap_left::<L, R>(aa));
        assert(a[a.len() - 1] is Ok);
    }
}

/// The right side of a stream followed by messages marked right is the right
/// side of the stream followed by those messages.
proof fn lemma_right_side_of_right<L, R>(x: Seq<PipelineResult<Either<L, R>>>, b: Seq<PipelineResult<R>>)
    ensures
        right_side(x + wrap_right::<L, R>(b)) == right_side(x) + b,
    decreases b.len(),
{
    if b.len() == 0 {
        assert(x + wrap_right::<L, R>(b) =~= x);
        assert(right_side(x) + b =~= right_side(x));
    } else {
        let bb = b.drop_last();
        lemma_right_side_of_right(x, bb);
        assert((x + wrap_right::<L, R>(b)).drop_last() =~= x + wrap_right::<L, R>(bb));
        assert((right_side(x) + bb).push(b.last()) =~= right_side(x) + b);
    }
}

/// Splitting by side undoes merging with sides marked: when neither stream
/// holds an error, the left side of the merged stream is the first stream and
/// its right side is the second.
pub proof fn lemma_split_undoes_merge<L, R>(a: Seq<PipelineResult<L>>, b: Seq<PipelineResult<R>>)
    requires
        all_ok(a),
        all_ok(b),
    ensures
        left_side(wrap_left::<L, R>(a) + wrap_right::<L, R>(b)) == a,
        right_side(wrap_left::<L, R>(a) + wrap_right::<L, R>(b)) == b,
{
    lemma_left_side_skips_right(wrap_left::<L, R>(a), b);
    lemma_left_side_of_left::<L, R>(a);
    lemma_right_side_of_right(wrap_left::<L, R>(a), b);
    lemma_right_side_skips_left::<L, R>(a);
    assert(Seq::<PipelineResult<R>>::empty() + b =~= b);
}

/// Splitting by a predicate loses no value and copies none: each value of
/// the stream goes to exactly one side, so the two sides together hold as
/// many values as the stream; every error goes to both sides.
pub proof fn lemma_split_partitions<T>(s: Seq<PipelineResult<T>>, picks: Seq<bool>)
    requires
        picks.len() >= s.len(),
    ensures
        ok_values(picked(s, picks, true)).len() + ok_values(picked(s, picks, false)).len()
            == ok_values(s).len(),
        err_values(picked(s, picks, true)) == err_values(s),
        err_values(picked(s, picks, false)) == err_values(s),
    decreases s.len(),
{
    if s.len() > 0 {
        let rest = s.drop_last();
        lemma_split_partitions(rest, picks);
        let lt = picked(rest, picks, true);
        let rt = picked(rest, picks, false);
        match s.last() {
            Ok(v) => {
                assert(lt.push(Ok(v)).drop_last() == lt);
                assert(rt.push(Ok(v)).drop_last() == rt);
            },
            Err(e) => {
                assert(lt.push(Err(e)).drop_last() == lt);
                assert(rt.push(Err(e)).drop_last() == rt);
            },
        }
    }
}

/// Merging keeps each stream's order: the values of two streams one after the
/// other are the values of the first followed by those of the second, and so
/// are the errors.
pub proof fn lemma_merge_keeps_order<T>(a: Seq<PipelineResult<T>>, b: Seq<PipelineResult<T>>)
    ensures
        ok_values(a + b) == ok_values(a) + ok_values(b),
        err_values(a + b) == err_values(a) + err_values(b),
    decreases b.len(),
{
    if b.len() == 0 {
        assert(a + b =~= a);
        assert(ok_values(a) + ok_values(b) =~= ok_values(a));
        assert(err_values(a) + err_values(b) =~= err_values(a));
    } else {
        lemma_merge_keeps_order(a, b.drop_last());
        assert((a + b).drop_last() =~= a + b.drop_last());
        assert((ok_values(a) + ok_values(b.drop_last())).push(b.last()->Ok_0)
            =~= ok_values(a) + ok_values(b.drop_last()).push(b.last()->Ok_0));
        assert((err_values(a) + err_values(b.drop_last())).push(b.last()->Err_0)
            =~= err_values(a) + err_values(b.drop_last()).push(b.last()->Err_0));
    }
}

/// An Either holds exactly one of its two sides.
pub proof fn lemma_one_side<L, R>(e: Either<L, R>)
    ensures
        (e is Left) != (e is Right),
{
}

/// Collecting values works message by message: the values of two streams
/// one after the other are the values of the first followed by those of the
/// second; a success gives its value, unchanged, and an error gives nothing.
/// So an error in the middle of a stream drops no value after it.
pub proof fn lemma_ok_values_laws<T>(s: Seq<PipelineResult<T>>, t: Seq<PipelineResult<T>>, v: T, e: Error)
    ensures
        ok_values(s + t) == ok_values(s) + ok_values(t),
        ok_values(seq![Ok::<T, Error>(v)]) == seq![v],
        ok_values(seq![Err::<T, Error>(e)]) == Seq::<T>::empty(),
        ok_values(Seq::<PipelineResult<T>>::empty()) == Seq::<T>::empty(),
{
    lemma_merge_keeps_order(s, t);
    let e0 = Seq::<PipelineResult<T>>::empty();
    let one_ok = seq![Ok::<T, Error>(v)];
    let one_err = seq![Err::<T, Error>(e)];
    assert(one_ok.drop_last() =~= e0);
    assert(one_err.drop_last() =~= e0);
    assert(one_ok.last() == Ok::<T, Error>(v));
    assert(one_err.last() == Err::<T, Error>(e));
    assert(ok_values(e0) == Seq::<T>::empty());
    assert(ok_values(one_ok) == ok_values(e0).push(v));
    assert(ok_values(one_err) == ok_values(e0));
    assert(Seq::<T>::empty().push(v) =~= seq![v]);
}

/// Collecting errors works message by message: the errors of two streams one
/// after the other are the errors of the first followed by those of the
/// second; an error gives itself, unchanged, and a success gives nothing. So
/// a value in the middle of a stream drops no error after it.
pub proof fn lemma_err_values_laws<T>(s: Seq<PipelineResult<T>>, t: Seq<PipelineResult<T>>, v: T, e: Error)
    ensures
        err_values(s + t) == err_values(s) + err_values(t),
        err_values(seq![Err::<T, Error>(e)]) == seq![e],
        err_values(seq![Ok::<T, Error>(v)]) == Seq::<Error>::empty(),
        err_values(Seq::<PipelineResult<T>>::empty()) == Seq::<Error>::empty(),
{
    lemma_merge_keeps_order(s, t);
    let e0 = Seq::<PipelineResult<T>>::empty();
    let one_ok = seq![Ok::<T, Error>(v)];
    let one_err = seq![Err::<T, Error>(e)];
    assert(one_ok.drop_last() =~= e0);
    assert(one_err.drop_last() =~= e0);
    assert(one_ok.last() == Ok::<T, Error>(v));
    assert(one_err.last() == Err::<T, Error>(e));
    assert(err_values(e0) == Seq::<Error>::empty());
    assert(err_values(one_err) == err_values(e0).push(e));
    assert(err_values(one_ok) == err_values(e0));
    assert(Seq::<Error>::empty().push(e) =~= seq![e]);
}

proof fn lemma_sides_concat<L, R>(s: Seq<PipelineResult<Either<L, R>>>, t: Seq<PipelineResult<Either<L, R>>>)
    ensures
        left_side(s + t) == left_side(s) + left_side(t),
        right_side(s + t) == right_side(s) + right_side(t),
    decreases t.len(),
{
    if t.len() == 0 {
        assert(s + t =~= s);
        assert(left_side(s) + left_side(t) =~= left_side(s));
        assert(right_side(s) + right_side(t) =~= right_side(s));
    } else {
        let tt = t.drop_last();
        lemma_sides_concat(s, tt);
        assert((s + t).drop_last() =~= s + tt);
        assert((s + t).last() == t.last());
        match t.last() {
            Ok(Either::Left(v)) => {
                assert((left_side(s) + left_side(tt)).push(Ok(v)) =~= left_side(s) + left_side(tt).push(Ok(v)));
            },
            Ok(Either::Right(v)) => {
                assert((right_side(s) + right_side(tt)).push(Ok(v)) =~= right_side(s) + right_side(tt).push(Ok(v)));
            },
            Err(e) => {
                assert((left_side(s) + left_side(tt)).push(Err(e)) =~= left_side(s) + left_side(tt).push(Err(e)));
                assert((right_side(s) + right_side(tt)).push(Err(e)) =~= right_side(s) + right_side(tt).push(Err(e)));
            },
        }
    }
}

/// Splitting by side works message by message, whatever came before: the
/// sides of two streams one after the other are the sides of the first
/// followed by those of the second; a left value goes to the left side only,
/// a right value to the right side only, each unchanged, and an error goes to
/// both.
pub proof fn lemma_sides_laws<L, R>(
    s: Seq<PipelineResult<Either<L, R>>>,
    t: Seq<PipelineResult<Either<L, R>>>,
    l: L,
    r: R,
    e: Error,
)
    ensures
        left_side(s + t) == left_side(s) + left_side(t),
        right_side(s + t) == right_side(s) + right_side(t),
        left_side(seq![Ok::<Either<L, R>, Error>(Either::Left(l))]) == seq![Ok::<L, Error>(l)],
        right_side(seq![Ok::<Either<L, R>, Error>(Either::Left(l))]) == Seq::<PipelineResult<R>>::empty(),
        left_side(seq![Ok::<Either<L, R>, Error>(Either::Right(r))]) == Seq::<PipelineResult<L>>::empty(),
        right_side(seq![Ok::<Either<L, R>, Error>(Either::Right(r))]) == seq![Ok::<R, Error>(r)],
        left_side(seq![Err::<Either<L, R>, Error>(e)]) == seq![Err::<L, Error>(e)],
        right_side(seq![Err::<Either<L, R>, Error>(e)]) == seq![Err::<R, Error>(e)],
{
    lemma_sides_concat(s, t);
    let e0 = Seq::<PipelineResult<Either<L, R>>>::empty();
    let xl = seq![Ok::<Either<L, R>, Error>(Either::Left(l))];
    let xr = seq![Ok::<Either<L, R>, Error>(Either::Right(r))];
    let xe = seq![Err::<Either<L, R>, Error>(e)];
    assert(xl.drop_last() =~= e0);
    assert(xr.drop_last() =~= e0);
    assert(xe.drop_last() =~= e0);
    assert(xl.last() == Ok::<Either<L, R>, Error>(Either::Left(l)));
    assert(xr.last() == Ok::<Either<L, R>, Error>(Either::Right(r)));
    assert(xe.last() == Err::<Either<L, R>, Error>(e));
    assert(left_side(e0) == Seq::<PipelineResult<L>>::empty());
    assert(right_side(e0) == Seq::<PipelineResult<R>>::empty());
    assert(left_side(xl) == left_side(e0).push(Ok(l)));
    assert(right_side(xl) == right_side(e0));
    assert(left_side(xr) == left_side(e0));
    assert(right_side(xr) == right_side(e0).push(Ok(r)));
    assert(left_side(xe) == left_side(e0).push(Err(e)));
    assert(right_side(xe) == right_side(e0).push(Err(e)));
    assert(Seq::<PipelineResult<L>>::empty().push(Ok(l)) =~= seq![Ok::<L, Error>(l)]);
    assert(Seq::<PipelineResult<R>>::empty().push(Ok(r)) =~= seq![Ok::<R, Error>(r)]);
    assert(Seq::<PipelineResult<L>>::empty().push(Err(e)) =~= seq![Err::<L, Error>(e)]);
    assert(Seq::<PipelineResult<R>>::empty().push(Err(e)) =~= seq![Err::<R, Error>(e)]);
}

proof fn lemma_picked_concat<T>(s: Seq<PipelineResult<T>>, t: Seq<PipelineResult<T>>, picks: Seq<bool>, side: bool)
    requires
        picks.len() >= s.len() + t.len(),
    ensures
        picked(s + t, picks, side) == picked(s, picks, side) + picked(t, picks.skip(s.len() as int), side),
    decreases t.len(),
{
    let rest = picks.skip(s.len() as int);
    if t.len() == 0 {
        assert(s + t =~= s);
        assert(picked(s, picks, side) + picked(t, rest, side) =~= picked(s, picks, side));
    } else {
        let tt = t.drop_last();
        lemma_picked_concat(s, tt, picks, side);
        assert((s + t).drop_last() =~= s + tt);
        assert((s + t).last() == t.last());
        assert(picks[(s + t).len() - 1] == rest[t.len() - 1]);
        match t.last() {
            Ok(v) => {
                assert((picked(s, picks, side) + picked(tt, rest, side)).push(Ok(v))
                    =~= picked(s, picks, side) + picked(tt, rest, side).push(Ok(v)));
            },
            Err(e) => {
                assert((picked(s, picks, side) + picked(tt, rest, side)).push(Err(e))
                    =~= picked(s, picks, side) + picked(tt, rest, side).push(Err(e)));
            },
        }
    }
}

/// Splitting by a predicate works message by message, whatever came before:
/// what a side receives from two streams one after the other is what it
/// receives from the first followed by what it receives from the second (its
/// decisions following on); a value goes, unchanged, to the side that its
/// decision names and to that side only; an error goes to both sides.
pub proof fn lemma_picked_laws<T>(
    s: Seq<PipelineResult<T>>,
    t: Seq<PipelineResult<T>>,
    picks: Seq<bool>,
    v: T,
    pick: bool,
    e: Error,
)
    requires
        picks.len() >= s.len() + t.len(),
    ensures
        picked(s + t, picks, true) == picked(s, picks, true) + picked(t, picks.skip(s.len() as int), true),
        picked(s + t, picks, false) == picked(s, picks, false) + picked(t, picks.skip(s.len() as int), false),
        picked(seq![Ok::<T, Error>(v)], seq![pick], pick) == seq![Ok::<T, Error>(v)],
        picked(seq![Ok::<T, Error>(v)], seq![pick], !pick) == Seq::<PipelineResult<T>>::empty(),
        picked(seq![Err::<T, Error>(e)], seq![pick], true) == seq![Err::<T, Error>(e)],
        picked(seq![Err::<T, Error>(e)], seq![pick], false) == seq![Err::<T, Error>(e)],
{
    lemma_picked_concat(s, t, picks, true);
    lemma_picked_concat(s, t, picks, false);
    let e0 = Seq::<PipelineResult<T>>::empty();
    let xo = seq![Ok::<T, Error>(v)];
    let xe = seq![Err::<T, Error>(e)];
    let p1 = seq![pick];
    assert(xo.drop_last() =~= e0);
    assert(xe.drop_last() =~= e0);
    assert(xo.last() == Ok::<T, Error>(v));
    assert(xe.last() == Err::<T, Error>(e));
    assert(p1[0] == pick);
    assert(picked(e0, p1, pick) == e0);
    assert(picked(e0, p1, !pick) == e0);
    assert(picked(e0, p1, true) == e0);
    assert(picked(e0, p1, false) == e0);
    assert(picked(xo, p1, pick) == picked(e0, p1, pick).push(Ok(v)));
    assert(picked(xo, p1, !pick) == picked(e0, p1, !pick));
    assert(picked(xe, p1, true) == picked(e0, p1, true).push(Err(e)));
    assert(picked(xe, p1, false) == picked(e0, p1, false).push(Err(e)));
    assert(e0.push(Ok(v)) =~= seq![Ok::<T, Error>(v)]);
    assert(e0.push(Err(e)) =~= seq![Err::<T, Error>(e)]);
}

} // verus!
