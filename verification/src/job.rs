//! The plain parts of a job: its number, its status and a direction.

use vstd::prelude::*;

verus! {

/// The number of a job.
#[derive(Debug, Clone, Copy, PartialEq, Eq, Hash, Structural)]
pub struct JobId(u64);

impl JobId {
    /// The job number `value`.
    pub fn new(value: u64) -> (id: Self)
        ensures
            id.value() == value,
    {
        JobId(value)
    }

    /// The number itself.
    pub closed spec fn value(self) -> u64 {
        self.0
    }

    /// The number itself.
    pub fn get(&self) -> (value: u64)
        ensures
            value == self.value(),
    {
        self.0
    }
}

/// How far a job has come.
#[derive(Debug, Clone, Copy, PartialEq, Eq, Structural)]
pub enum JobStatus {
    Pending,
    InProgress,
    Paused,
    Done,
    Failed,
}

/// One of the six directions along the axes.
#[derive(Debug, Clone, Copy)]
pub enum Direction3 {
    PosX,
    NegX,
    PosY,
    NegY,
    PosZ,
    NegZ,
}

} // verus!
