//! Messages of the channel-handoff pool variant: a coordinator pushes
//! each worker its next batch of ranges, receives progress updates,
//! and announces termination.

use vstd::prelude::*;
use crate::task::Tasks;

verus! {

/// One message between the coordinator and a worker.
pub enum Message {
    /// A fresh batch of ranges for the worker; an empty batch signals
    /// that no work is left.
    NewTask(Tasks),
    /// The worker reports this many units as consumed.
    UpdateTask(u64),
    /// The worker is done.
    Stop,
}

} // verus!
