//! Per-worker bookkeeping of the channel-handoff pool variant.

use vstd::prelude::*;
use crate::task::Tasks;

verus! {

/// Declares `crossbeam_channel::Sender` so a worker record can hold
/// its outbound channel handle; the library itself never sends on it.
#[verifier::external_type_specification]
#[verifier::external_body]
#[verifier::reject_recursive_types(T)]
pub struct ExSender<T>(crossbeam_channel::Sender<T>);

/// One worker's record, owned by the pool coordinator: its private
/// channel of range batches, how many units it still has to do, how
/// many it has claimed but not yet finished, and its outstanding
/// ranges.
pub struct Worker {
    pub tx_task: crossbeam_channel::Sender<Tasks>,
    pub remain: u64,
    pub occupy: u64,
    pub tasks: Tasks,
}

} // verus!
