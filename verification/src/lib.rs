//! # The pipeline crate
//! This crate contains all functions for pipeline construction
//!
//! Pipelines allow dataflow design through a program. A pipeline is the
//! receiving end of a channel of values or errors; each stage reads from one
//! or two pipelines and delivers what it makes of their messages to one or two
//! new channels. Within each stage, reading ends at the first error, which is
//! passed on. The work of every stage is a function of this crate, which a
//! worker thread runs; the contracts of those functions relate what a stage
//! has read to what it has delivered.
pub mod either;
pub mod error;
pub mod channel;
pub mod stream;
pub mod pipeline;
pub mod stages;

pub use channel::{Inlet, Outlet};
pub use either::Either;
pub use error::{Error, ErrorKind, PipelineResult};
pub use pipeline::{keep_err, keep_ok, send_values, Pipeline};
pub use stages::{run_from_receiver, Flow};
