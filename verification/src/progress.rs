//! What a running command says of how far it is.

use crate::requests::Work;
use vstd::prelude::*;

verus! {

/// How far a command is: the stage and what it does there, how long it has run,
/// and how much of the stage is done where that can be counted.
#[derive(Clone, Copy, Debug, PartialEq, Eq)]
pub struct Progress {
    pub stage: &'static str,
    pub message: &'static str,
    pub elapsed_seconds: u64,
    pub current: Option<u64>,
    pub total: Option<u64>,
    pub percent: Option<u64>,
}

/// How much of a total is done, in percent and no more than all of it. Of
/// nothing at all everything is done.
pub open spec fn share_done(current: u64, total: u64) -> int {
    if current >= total {
        100
    } else {
        current as int * 100 / total as int
    }
}

fn count_share(current: u64, total: u64) -> (percent: u64)
    ensures
        percent == share_done(current, total),
{
    if current >= total {
        return 100;
    }
    let share: u128 = current as u128 * 100 / total as u128;
    assert(share <= 100) by (nonlinear_arith)
        requires
            share == current as int * 100 / total as int,
            0 <= current < total,
    ;
    share as u64
}

impl Progress {
    /// How far a command is in a stage that cannot be counted.
    pub fn at(stage: &'static str, message: &'static str, elapsed_seconds: u64) -> (progress: Self)
        ensures
            progress == (Progress {
                stage,
                message,
                elapsed_seconds,
                current: None,
                total: None,
                percent: None,
            }),
    {
        Progress { stage, message, elapsed_seconds, current: None, total: None, percent: None }
    }

    /// How far a command is in a stage of which `current` of `total` are done.
    pub fn counted(self, current: u64, total: u64) -> (progress: Self)
        ensures
            progress.stage == self.stage,
            progress.message == self.message,
            progress.elapsed_seconds == self.elapsed_seconds,
            progress.current == Some(current),
            progress.total == Some(total),
            progress.percent matches Some(percent) && percent == share_done(current, total),
    {
        Progress {
            stage: self.stage,
            message: self.message,
            elapsed_seconds: self.elapsed_seconds,
            current: Some(current),
            total: Some(total),
            percent: Some(count_share(current, total)),
        }
    }
}

/// The stage that a piece of work belongs to, and what it does.
pub open spec fn stage_text(work: Work) -> (Seq<char>, Seq<char>) {
    match work {
        Work::Begin => ("request"@, "Reading the request"@),
        Work::ReadCache => ("library"@, "Reading the cached library"@),
        Work::ReadDatabase => ("library"@, "Reading the library"@),
        Work::ReadInventory => ("inventory"@, "Reading the local inventory"@),
        Work::ReadMatrix => ("matrix"@, "Reading the learned matrix"@),
        Work::ReadEvidence => ("evidence"@, "Reading the evidence"@),
        Work::ResolveSources => ("sources"@, "Finding the source tracks"@),
        Work::Done => ("search"@, "Searching"@),
    }
}

/// Names the stage that a piece of work belongs to, and says what it does.
pub fn stage_of(work: Work) -> (stage: (&'static str, &'static str))
    ensures
        (stage.0@, stage.1@) == stage_text(work),
{
    match work {
        Work::Begin => ("request", "Reading the request"),
        Work::ReadCache => ("library", "Reading the cached library"),
        Work::ReadDatabase => ("library", "Reading the library"),
        Work::ReadInventory => ("inventory", "Reading the local inventory"),
        Work::ReadMatrix => ("matrix", "Reading the learned matrix"),
        Work::ReadEvidence => ("evidence", "Reading the evidence"),
        Work::ResolveSources => ("sources", "Finding the source tracks"),
        Work::Done => ("search", "Searching"),
    }
}

} // verus!
