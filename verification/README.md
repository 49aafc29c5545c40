# pipeline

Dataflow pipelines over std channels. A `Pipeline<T>` is the receiving end of a
channel of `Result<T, Error>` messages; stages read one or two pipelines and
deliver what they make of the messages to new channels, each stage on a worker
thread of its own.

Layout:

- `src/` is the library, verified with Verus:
  - `either.rs`, `error.rs`: the `Either` and `Error` types;
  - `channel.rs`: the two ends of a std channel, each with a record of the
    messages that passed through it (`Outlet`, `Inlet`), over three trusted
    calls into `std::sync::mpsc`;
  - `stream.rs`: what a stage makes of a stream of messages, in the terms the
    stage contracts use, and laws over those terms (partitions, round trips,
    split undoing merge). A stage's contract speaks of what it read and what it
    delivered; that the next stage reads what the previous one delivered is
    the channel's doing, which the library records but does not claim;
  - `pipeline.rs`: `Pipeline`, its constructors and collectors;
  - `stages.rs`: the work of every stage, with contracts that relate what the
    stage read to what it delivered.
- `app/` spawns the worker threads: `from_vec`, `from_receiver` and the
  `Stages`, `Duplicate` and `SplitByEither` traits, whose methods return the
  output pipelines at once.
- `tests/` runs the stages on concrete channels.
