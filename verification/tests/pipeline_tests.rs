use std::sync::mpsc::{channel, TryRecvError};

use pipeline::{Either, Error, ErrorKind, Flow, Inlet, Outlet, Pipeline, PipelineResult};

fn test_error() -> Error {
    Error { kind: ErrorKind::Other, desc: "Test" }
}

// Tests the from_value function
#[test]
fn test_from_value() {
    let o = Pipeline::<i64>::from_value(3);

    // The output channel should contain the object that from_value was called with
    assert_eq!(o.recv().unwrap().unwrap(), 3);
}

// Tests the work of the from_vec function (what its worker thread runs)
#[test]
fn test_from_vec() {
    let (i, o) = Pipeline::<i64>::new();
    let mut out = Outlet::new(i);
    assert!(pipeline::send_values(vec![3, 4], &mut out));

    // The output channel should contain all elements in the Vec, in order
    assert_eq!(o.recv().unwrap().unwrap(), 3);
    assert_eq!(o.recv().unwrap().unwrap(), 4);
}

// Tests the from_vec_sync function
#[test]
fn test_from_vec_sync() {
    let o = Pipeline::<i64>::from_vec_sync(vec![3, 4]);

    // The output channel should contain all elements in the Vec that from_vec_sync was called with
    assert_eq!(o.recv().unwrap().unwrap(), 3);
    assert_eq!(o.recv().unwrap().unwrap(), 4);
}

// Tests the work of the map function
#[test]
fn test_map() {
    let (i, mut pipeline) = Pipeline::new();
    let (o, recv) = Pipeline::new();
    let mut out = Outlet::new(o);
    let mut op = |x: i64| -> PipelineResult<i64> { Ok(x + 1) };

    i.send(Ok(3)).unwrap();

    drop(i);

    assert_eq!(pipeline.run_map(&mut op, &mut out), Flow::Drained);

    // The output channel should contain a message that consists of the
    // original input transformed by the given closure (increased by one).
    assert_eq!(recv.recv().unwrap().unwrap(), 4);
}

// Tests the work of the map_with_ctx function
#[test]
fn test_map_with_ctx() {
    let (i, mut pipeline) = Pipeline::<i64>::new();
    let (o, recv) = Pipeline::new();
    let mut out = Outlet::new(o);
    let mut ctx = 0;
    let mut op = |val: i64, ctx: &mut i64| -> PipelineResult<i64> {
        *ctx += 1;
        Ok(val + 1)
    };

    i.send(Ok(2)).unwrap();

    drop(i);

    pipeline.run_map_with_ctx(&mut op, &mut ctx, &mut out);

    // The output channel must receive input incremented by 1
    assert_eq!(recv.recv().unwrap().unwrap(), 3);
    // The shared context must contain the amount of values that has
    // passed through the pipeline
    assert_eq!(ctx, 1);
}

// Tests the work of the each function
#[test]
fn test_each() {
    let (i1, mut pipeline1) = Pipeline::<i64>::new();
    let (i2, pipeline2) = Pipeline::<i64>::new();

    let mut callback = move |value: PipelineResult<i64>| {
        i2.send(value).unwrap();
    };

    i1.send(Ok(3)).unwrap();

    drop(i1);

    assert_eq!(pipeline1.run_each(&mut callback), Flow::Drained);

    // The testing output channel must receive all pipeline input
    assert_eq!(pipeline2.recv().unwrap(), Ok(3));
}

// Tests the work of the each_with_ctx function
#[test]
fn test_each_with_ctx() {
    let (i1, mut pipeline1) = Pipeline::<i64>::new();
    let (i2, pipeline2) = Pipeline::<i64>::new();
    let mut ctx = 0;

    let mut callback = move |val: PipelineResult<i64>, ctx: &mut i64| {
        *ctx += 1;
        i2.send(val).unwrap();
    };

    i1.send(Ok(2)).unwrap();

    drop(i1);

    pipeline1.run_each_with_ctx(&mut callback, &mut ctx);

    // The testing output channel must receive all pipeline input
    assert_eq!(pipeline2.recv().unwrap(), Ok(2));
    // The shared context must contain the amount of values that has
    // passed through the pipeline
    assert_eq!(ctx, 1);
}

// Tests the work of the merge function
#[test]
fn test_merge() {
    let (i1, mut pipeline1) = Pipeline::new();
    let (i2, mut pipeline2) = Pipeline::new();
    let (o, merged) = Pipeline::new();
    let mut out = Outlet::new(o);

    i1.send(Ok(3)).unwrap();
    i2.send(Ok(4)).unwrap();

    drop(i1);
    drop(i2);

    pipeline1.run_merge(&mut pipeline2, &mut out);
    drop(out);

    let (o2, pipeline) = Pipeline::new();
    let mut out2 = Outlet::new(o2);
    let mut op = |x: i64| -> PipelineResult<i64> { Ok(x + 1) };
    let mut merged = merged;
    merged.run_map(&mut op, &mut out2);

    // The output channel should receive the message that was sent to
    // the first input channel.
    assert_eq!(pipeline.recv().unwrap().unwrap(), 4);
    // The output channel should receive the message that was sent to
    // the second input channel.
    assert_eq!(pipeline.recv().unwrap().unwrap(), 5);
}

// Tests the work of the merge_either function
#[test]
fn test_merge_either() {
    let (i1, mut pipeline1) = Pipeline::<i64>::new();
    let (i2, mut pipeline2) = Pipeline::<i64>::new();
    let (o, p) = Pipeline::new();
    let mut out = Outlet::new(o);

    i1.send(Ok(3)).unwrap();
    i2.send(Ok(4)).unwrap();

    drop(i1);
    drop(i2);

    pipeline1.run_merge_either(&mut pipeline2, &mut out);

    // The output channel should receive the message that was sent to
    // the first input channel, wrapped in a Left
    assert_eq!(p.recv().unwrap().unwrap().left().unwrap(), 3);
    // The output channel should receive the message that was sent to
    // the second input channel, wrapped in a Right
    assert_eq!(p.recv().unwrap().unwrap().right().unwrap(), 4);
}

// Tests the work of the duplicate function
#[test]
fn test_duplicate() {
    let (i, mut pipeline) = Pipeline::<i64>::new();
    let (o1, p1) = Pipeline::new();
    let (o2, p2) = Pipeline::new();
    let mut out1 = Outlet::new(o1);
    let mut out2 = Outlet::new(o2);

    i.send(Ok(2)).unwrap();

    drop(i);

    pipeline.run_duplicate(&mut out1, &mut out2);

    // Both output channels should receive the message that was sent to
    // the input channel
    assert_eq!(p1.recv().unwrap().unwrap(), 2);
    assert_eq!(p2.recv().unwrap().unwrap(), 2);
}

// Tests the work of the split_by function
#[test]
fn test_split_by() {
    let (i, mut pipeline) = Pipeline::new();
    let (lo, left) = Pipeline::new();
    let (ro, right) = Pipeline::new();
    let mut left_out = Outlet::new(lo);
    let mut right_out = Outlet::new(ro);
    let mut pred = |x: &i64| -> bool { *x > 3 };

    i.send(Ok(2)).unwrap();
    i.send(Ok(4)).unwrap();

    drop(i);

    pipeline.run_split_by(&mut pred, &mut left_out, &mut right_out);

    // The left output channel should contain the sent message
    // that did fulfill the predicate criteria (> 3)
    assert_eq!(left.recv().unwrap().unwrap(), 4);
    // The right output channel should contain the sent message
    // that did not fulfill the predicate criteria (!(> 3))
    assert_eq!(right.recv().unwrap().unwrap(), 2);
}

// Tests the work of the split_by_either function
#[test]
fn test_split_by_either_stage() {
    let (i, mut pipeline) = Pipeline::<Either<i64, i64>>::new();
    let (lo, left) = Pipeline::new();
    let (ro, right) = Pipeline::new();
    let mut left_out = Outlet::new(lo);
    let mut right_out = Outlet::new(ro);

    i.send(Ok(Either::Left(3))).unwrap();
    i.send(Ok(Either::Right(4))).unwrap();

    drop(i);

    pipeline.run_split_by_either(&mut left_out, &mut right_out);

    // The left output channel should contain the sent message
    // that is wrapped in a Left
    assert_eq!(left.recv().unwrap().unwrap(), 3);
    // The right output channel should contain the sent message
    // that is wrapped in a Right
    assert_eq!(right.recv().unwrap().unwrap(), 4);
}

// Tests the work of the filter_ok function
#[test]
fn test_filter_ok() {
    let (i, mut pipeline) = Pipeline::<i64>::new();
    let (o, recv) = channel();
    let mut out = Outlet::new(o);

    i.send(Ok(3)).unwrap();
    i.send(Err(Error { kind: ErrorKind::Other, desc: "Test" })).unwrap();
    drop(i);

    pipeline.run_filter_ok(&mut out);

    assert_eq!(recv.recv().unwrap(), 3);
    assert!(recv.try_recv().is_err());
    assert_eq!(recv.try_recv().err().unwrap(), TryRecvError::Empty);
}

// Tests the work of the filter_err function
#[test]
fn test_filter_err() {
    let (i, mut pipeline) = Pipeline::<i64>::new();
    let (o, recv) = channel();
    let mut out = Outlet::new(o);

    i.send(Ok(3)).unwrap();
    i.send(Err(Error { kind: ErrorKind::Other, desc: "Test" })).unwrap();
    drop(i);

    pipeline.run_filter_err(&mut out);

    assert_eq!(recv.recv().unwrap(), Error { kind: ErrorKind::Other, desc: "Test" });
    assert!(recv.try_recv().is_err());
    assert_eq!(recv.try_recv().err().unwrap(), TryRecvError::Empty);
}

// Tests the collect_ok function
#[test]
fn test_collect_ok() {
    let (i, pipeline) = Pipeline::<i64>::new();

    i.send(Ok(3)).unwrap();
    i.send(Err(Error { kind: ErrorKind::Other, desc: "Test" })).unwrap();

    drop(i);

    let vec = pipeline.collect_ok();

    assert_eq!(vec, vec![3]);
}

// Tests the collect_err function
#[test]
fn test_collect_err() {
    let (i, pipeline) = Pipeline::<i64>::new();

    i.send(Ok(3)).unwrap();
    i.send(Err(Error { kind: ErrorKind::Other, desc: "Test" })).unwrap();

    drop(i);

    let vec = pipeline.collect_err();

    assert_eq!(vec, vec![Error { kind: ErrorKind::Other, desc: "Test" }]);
}
