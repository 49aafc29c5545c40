//! The error type that travels through a pipeline.
use vstd::prelude::*;

verus! {

/// Represents a type of error for the pipeline error type
#[derive(Copy, Clone, Debug, PartialEq, Eq)]
pub enum ErrorKind {
    Other,
}

/// Represents an error that occurred in the pipeline
#[derive(Copy, Clone, Debug, PartialEq, Eq)]
pub struct Error {
    /// An enum that represents the kind of error this is
    pub kind: ErrorKind,
    /// A human-readable description of the error
    pub desc: &'static str,
}

/// The name of an error kind, as the error's message shows it.
pub open spec fn kind_name(kind: ErrorKind) -> Seq<char> {
    match kind {
        ErrorKind::Other => "Other"@,
    }
}

impl Error {
    /// The error's message: "Pipeline error of kind <kind>: <description>".
    pub fn message(&self) -> (m: String)
        ensures
            m@ == "Pipeline error of kind "@ + kind_name(self.kind) + ": "@ + self.desc@,
    {
        let mut m = "Pipeline error of kind ".to_owned();
        match self.kind {
            ErrorKind::Other => m.append("Other"),
        }
        m.append(": ");
        m.append(self.desc);
        m
    }

    /// The human-readable description of the error
    pub fn description(&self) -> (d: &'static str)
        ensures
            d == self.desc,
    {
        self.desc
    }
}

/// Represents either a value or an error in the pipeline
pub type PipelineResult<T> = Result<T, Error>;

} // verus!
