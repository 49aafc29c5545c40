use std::sync::mpsc::channel;

use pipeline::{
    keep_err, keep_ok, run_from_receiver, send_values, Either, Error, ErrorKind, Flow, Inlet, Outlet,
    Pipeline, PipelineResult,
};

fn err(desc: &'static str) -> Error {
    Error { kind: ErrorKind::Other, desc }
}

fn all_of<T>(p: &Pipeline<T>) -> Vec<PipelineResult<T>> {
    let mut v = Vec::new();
    while let Ok(m) = p.try_recv() {
        v.push(m);
    }
    v
}

#[test]
fn either_sides() {
    let l: Either<i64, &str> = Either::Left(7);
    let r: Either<i64, &str> = Either::Right("x");
    assert!(l.is_left() && !l.is_right());
    assert!(r.is_right() && !r.is_left());
    assert_eq!(Either::<i64, &str>::Left(7).left(), Some(7));
    assert_eq!(Either::<i64, &str>::Left(7).right(), None);
    assert_eq!(Either::<i64, &str>::Right("x").right(), Some("x"));
    assert_eq!(Either::<i64, &str>::Right("x").left(), None);
}

#[test]
fn error_description() {
    assert_eq!(err("broken").description(), "broken");
}

#[test]
fn map_halts_at_input_error_and_reads_no_further() {
    let (i, mut input) = Pipeline::<i64>::new();
    let (o, output) = Pipeline::new();
    let mut out = Outlet::new(o);
    let mut op = |x: i64| -> PipelineResult<i64> { Ok(x * 10) };
    i.send(Ok(1)).unwrap();
    i.send(Err(err("bad input"))).unwrap();
    i.send(Ok(5)).unwrap();
    drop(i);
    assert_eq!(input.run_map(&mut op, &mut out), Flow::Halted);
    assert_eq!(all_of(&output), vec![Ok(10), Err(err("bad input"))]);
    // The message after the error was left unread
    assert_eq!(input.recv().unwrap(), Ok(5));
}

#[test]
fn map_halts_when_op_fails() {
    let (i, mut input) = Pipeline::<i64>::new();
    let (o, output) = Pipeline::new();
    let mut out = Outlet::new(o);
    let mut op = |x: i64| -> PipelineResult<i64> {
        if x == 2 { Err(err("two")) } else { Ok(x) }
    };
    for x in [1, 2, 3] {
        i.send(Ok(x)).unwrap();
    }
    drop(i);
    assert_eq!(input.run_map(&mut op, &mut out), Flow::Halted);
    assert_eq!(all_of(&output), vec![Ok(1), Err(err("two"))]);
    assert_eq!(input.recv().unwrap(), Ok(3));
}

#[test]
fn map_refused_when_output_hung_up() {
    let (i, mut input) = Pipeline::<i64>::new();
    let (o, output) = Pipeline::<i64>::new();
    drop(output);
    let mut out = Outlet::new(o);
    let mut op = |x: i64| -> PipelineResult<i64> { Ok(x) };
    i.send(Ok(1)).unwrap();
    i.send(Ok(2)).unwrap();
    drop(i);
    assert_eq!(input.run_map(&mut op, &mut out), Flow::Refused);
    // Only the first message was read
    assert_eq!(input.recv().unwrap(), Ok(2));
}

#[test]
fn map_with_ctx_threads_context() {
    let (i, mut input) = Pipeline::<i64>::new();
    let (o, output) = Pipeline::new();
    let mut out = Outlet::new(o);
    let mut total = 0i64;
    let mut op = |x: i64, acc: &mut i64| -> PipelineResult<i64> {
        *acc += x;
        Ok(*acc)
    };
    for x in [1, 2, 3] {
        i.send(Ok(x)).unwrap();
    }
    drop(i);
    assert_eq!(input.run_map_with_ctx(&mut op, &mut total, &mut out), Flow::Drained);
    assert_eq!(all_of(&output), vec![Ok(1), Ok(3), Ok(6)]);
    assert_eq!(total, 6);
}

#[test]
fn merge_continues_with_second_after_first_error() {
    let (i1, mut a) = Pipeline::<i64>::new();
    let (i2, mut b) = Pipeline::<i64>::new();
    let (o, merged) = Pipeline::new();
    let mut out = Outlet::new(o);
    i1.send(Ok(1)).unwrap();
    i1.send(Err(err("first"))).unwrap();
    i1.send(Ok(9)).unwrap();
    i2.send(Ok(3)).unwrap();
    drop(i1);
    drop(i2);
    assert_eq!(a.run_merge(&mut b, &mut out), Flow::Drained);
    assert_eq!(all_of(&merged), vec![Ok(1), Err(err("first")), Ok(3)]);
    assert_eq!(a.recv().unwrap(), Ok(9));
}

#[test]
fn split_by_either_undoes_merge_either() {
    let (i1, mut a) = Pipeline::<i64>::new();
    let (i2, mut b) = Pipeline::<&'static str>::new();
    let (o, merged) = Pipeline::new();
    let mut out = Outlet::new(o);
    i1.send(Ok(1)).unwrap();
    i1.send(Ok(2)).unwrap();
    i2.send(Ok("x")).unwrap();
    drop(i1);
    drop(i2);
    a.run_merge_either(&mut b, &mut out);
    drop(out);
    let mut merged = merged;
    let (lo, left) = Pipeline::new();
    let (ro, right) = Pipeline::new();
    let mut left_out = Outlet::new(lo);
    let mut right_out = Outlet::new(ro);
    assert_eq!(merged.run_split_by_either(&mut left_out, &mut right_out), Flow::Drained);
    assert_eq!(all_of(&left), vec![Ok(1), Ok(2)]);
    assert_eq!(all_of(&right), vec![Ok("x")]);
}

#[test]
fn split_by_sends_error_to_both_sides_and_halts() {
    let (i, mut input) = Pipeline::<i64>::new();
    let (lo, left) = Pipeline::new();
    let (ro, right) = Pipeline::new();
    let mut left_out = Outlet::new(lo);
    let mut right_out = Outlet::new(ro);
    let mut pred = |x: &i64| *x % 2 == 0;
    for x in [1, 2, 3, 4] {
        i.send(Ok(x)).unwrap();
    }
    i.send(Err(err("stop"))).unwrap();
    i.send(Ok(6)).unwrap();
    drop(i);
    assert_eq!(input.run_split_by(&mut pred, &mut left_out, &mut right_out), Flow::Halted);
    assert_eq!(all_of(&left), vec![Ok(2), Ok(4), Err(err("stop"))]);
    assert_eq!(all_of(&right), vec![Ok(1), Ok(3), Err(err("stop"))]);
}

#[test]
fn duplicate_copies_everything_up_to_the_error() {
    let (i, mut input) = Pipeline::<String>::new();
    let (o1, p1) = Pipeline::new();
    let (o2, p2) = Pipeline::new();
    let mut out1 = Outlet::new(o1);
    let mut out2 = Outlet::new(o2);
    i.send(Ok("a".to_string())).unwrap();
    i.send(Err(err("e"))).unwrap();
    i.send(Ok("b".to_string())).unwrap();
    drop(i);
    assert_eq!(input.run_duplicate(&mut out1, &mut out2), Flow::Halted);
    let expected: Vec<PipelineResult<String>> = vec![Ok("a".to_string()), Err(err("e"))];
    assert_eq!(all_of(&p1), expected);
    assert_eq!(all_of(&p2), expected);
}

#[test]
fn filters_partition_the_stream() {
    let msgs: Vec<PipelineResult<i64>> = vec![Ok(1), Err(err("a")), Ok(2), Err(err("b")), Ok(3)];
    let (i, mut input) = Pipeline::<i64>::new();
    for m in msgs.iter() {
        i.send(*m).unwrap();
    }
    drop(i);
    let (o, values) = channel();
    let mut out = Outlet::new(o);
    assert_eq!(input.run_filter_ok(&mut out), Flow::Drained);
    let got: Vec<i64> = values.try_iter().collect();
    assert_eq!(got, vec![1, 2, 3]);

    let (i, mut input) = Pipeline::<i64>::new();
    for m in msgs.iter() {
        i.send(*m).unwrap();
    }
    drop(i);
    let (o, errors) = channel();
    let mut out = Outlet::new(o);
    assert_eq!(input.run_filter_err(&mut out), Flow::Drained);
    let got: Vec<Error> = errors.try_iter().collect();
    assert_eq!(got, vec![err("a"), err("b")]);

    assert_eq!(keep_ok(msgs.clone()).len() + keep_err(msgs.clone()).len(), msgs.len());
}

#[test]
fn keep_ok_and_keep_err() {
    let msgs: Vec<PipelineResult<i64>> = vec![Err(err("x")), Ok(4), Ok(5), Err(err("y"))];
    assert_eq!(keep_ok(msgs.clone()), vec![4, 5]);
    assert_eq!(keep_err(msgs), vec![err("x"), err("y")]);
    assert_eq!(keep_ok(Vec::<PipelineResult<i64>>::new()), Vec::<i64>::new());
}

#[test]
fn values_round_trip_through_a_pipeline() {
    let p = Pipeline::<i64>::from_vec_sync(vec![5, 6, 7]);
    assert_eq!(p.collect_ok(), vec![5, 6, 7]);
    let p = Pipeline::<i64>::from_vec_sync(vec![5, 6, 7]);
    assert_eq!(p.collect_err(), Vec::<Error>::new());
}

#[test]
fn send_values_refused_when_receiver_gone() {
    let (i, o) = Pipeline::<i64>::new();
    drop(o);
    let mut out = Outlet::new(i);
    assert!(!send_values(vec![1, 2], &mut out));
    let (i, o) = Pipeline::<i64>::new();
    let mut out = Outlet::new(i);
    assert!(send_values(Vec::new(), &mut out));
    drop(out);
    assert_eq!(o.collect_ok(), Vec::<i64>::new());
}

#[test]
fn from_receiver_wraps_values() {
    let (tx, rx) = channel::<i64>();
    tx.send(8).unwrap();
    tx.send(9).unwrap();
    drop(tx);
    let mut inlet = Inlet::new(rx);
    let (o, p) = Pipeline::new();
    let mut out = Outlet::new(o);
    assert_eq!(run_from_receiver(&mut inlet, &mut out), Flow::Drained);
    assert_eq!(all_of(&p), vec![Ok(8), Ok(9)]);
}

#[test]
fn each_sees_errors_too() {
    let (i, mut input) = Pipeline::<i64>::new();
    let mut seen: Vec<PipelineResult<i64>> = Vec::new();
    i.send(Ok(1)).unwrap();
    i.send(Err(err("z"))).unwrap();
    i.send(Ok(2)).unwrap();
    drop(i);
    {
        let mut cb = |m: PipelineResult<i64>| seen.push(m);
        assert_eq!(input.run_each(&mut cb), Flow::Drained);
    }
    assert_eq!(seen, vec![Ok(1), Err(err("z")), Ok(2)]);
}

#[test]
fn each_with_ctx_counts() {
    let (i, mut input) = Pipeline::<i64>::new();
    let mut count = 0usize;
    let mut cb = |_m: PipelineResult<i64>, c: &mut usize| *c += 1;
    i.send(Ok(1)).unwrap();
    i.send(Err(err("z"))).unwrap();
    drop(i);
    assert_eq!(input.run_each_with_ctx(&mut cb, &mut count), Flow::Drained);
    assert_eq!(count, 2);
}

#[test]
fn drain_respects_budget_and_reports_closing() {
    let (i, mut p) = Pipeline::<i64>::new();
    for x in 0..5 {
        i.send(Ok(x)).unwrap();
    }
    drop(i);
    let (first, closed) = p.drain(2);
    assert_eq!(first, vec![Ok(0), Ok(1)]);
    assert!(!closed);
    let (rest, closed) = p.drain(10);
    assert_eq!(rest, vec![Ok(2), Ok(3), Ok(4)]);
    assert!(closed);
}

#[test]
fn take_ends_when_senders_hang_up() {
    let (i, mut p) = Pipeline::<i64>::new();
    i.send(Ok(1)).unwrap();
    drop(i);
    assert_eq!(p.take(), Some(Ok(1)));
    assert_eq!(p.take(), None);
}

#[test]
fn outlet_send_reports_delivery() {
    let (tx, rx) = channel::<i64>();
    let mut out = Outlet::new(tx);
    assert!(out.send(1));
    drop(rx);
    assert!(!out.send(2));
}

#[test]
fn error_message_text() {
    assert_eq!(err("Test").message(), "Pipeline error of kind Other: Test");
}

#[test]
fn collect_in_place_reads_to_the_end() {
    let (i, mut p) = Pipeline::<i64>::new();
    i.send(Ok(1)).unwrap();
    i.send(Err(err("a"))).unwrap();
    i.send(Ok(2)).unwrap();
    drop(i);
    assert_eq!(p.collect_ok_in_place(), vec![1, 2]);
    assert_eq!(p.take(), None);

    let (i, mut p) = Pipeline::<i64>::new();
    i.send(Ok(1)).unwrap();
    i.send(Err(err("a"))).unwrap();
    drop(i);
    assert_eq!(p.collect_err_in_place(), vec![err("a")]);
}

#[test]
fn from_value_then_collect() {
    assert_eq!(Pipeline::<i64>::from_value(4).collect_ok(), vec![4]);
}

#[test]
fn identity_map_passes_everything_on() {
    let (i, mut input) = Pipeline::<i64>::new();
    let (o, output) = Pipeline::new();
    let mut out = Outlet::new(o);
    let mut op = |x: i64| -> PipelineResult<i64> { Ok(x) };
    for x in [4, 5, 6] {
        i.send(Ok(x)).unwrap();
    }
    drop(i);
    assert_eq!(input.run_map(&mut op, &mut out), Flow::Drained);
    assert_eq!(all_of(&output), vec![Ok(4), Ok(5), Ok(6)]);

    let (i, mut input) = Pipeline::<i64>::new();
    let (o, output) = Pipeline::new();
    let mut out = Outlet::new(o);
    let mut ctx = 9i64;
    let mut op = |x: i64, _c: &mut i64| -> PipelineResult<i64> { Ok(x) };
    for x in [4, 5, 6] {
        i.send(Ok(x)).unwrap();
    }
    drop(i);
    assert_eq!(input.run_map_with_ctx(&mut op, &mut ctx, &mut out), Flow::Drained);
    assert_eq!(all_of(&output), vec![Ok(4), Ok(5), Ok(6)]);
    assert_eq!(ctx, 9);
}
