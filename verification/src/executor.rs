//! The work scheduler's executor surface: typed executors identified by
//! addresses, scheduled by effective priority. The thread pool, channels
//! and reference-counted address keepers live outside the library; here
//! stand the decisions they are driven by.

use vstd::prelude::*;

verus! {

/// Whether an executor's first call wants one common init packet.
#[derive(Clone, Copy, PartialEq, Eq, Structural, Debug)]
pub enum ExecutorType {
    SimplePacketsProcessing,
    NeedsInitPacket,
}

/// The routing tag of one executor instance: its type and a process-wide
/// monotonic id.
#[derive(Clone, Copy, PartialEq, Eq, Structural, Debug)]
pub struct ExecutorAddress {
    pub executor_type_id: u64,
    pub executor_internal_id: u64,
}

/// The process-wide id counter behind address generation.
pub struct AddressFactory {
    pub next_id: u64,
}

impl AddressFactory {
    pub fn new() -> (r: Self)
        ensures
            r.next_id == 0,
    {
        AddressFactory { next_id: 0 }
    }

    /// Hands out a fresh address: ids are monotonic, so two addresses from
    /// one factory never collide.
    pub fn generate_new_address(&mut self, executor_type_id: u64) -> (r: ExecutorAddress)
        requires
            old(self).next_id < u64::MAX,
        ensures
            r.executor_type_id == executor_type_id,
            r.executor_internal_id == old(self).next_id,
            final(self).next_id == old(self).next_id + 1,
    {
        let id = self.next_id;
        self.next_id = self.next_id + 1;
        ExecutorAddress { executor_type_id, executor_internal_id: id }
    }
}

/// Ready tasks are ordered by `base + multiplier * queued_packets`,
/// saturating at the top of the range.
pub fn effective_priority(base: u64, multiplier: u64, queued_packets: u64) -> (r: u64)
    ensures
        r as int == if base + multiplier * queued_packets <= u64::MAX {
            base + multiplier * queued_packets
        } else {
            u64::MAX as int
        },
{
    proof {
        assert((multiplier as int) * (queued_packets as int) <= 0xffffffffffffffff
            * 0xffffffffffffffff) by (nonlinear_arith)
            requires
                multiplier <= 0xffffffffffffffffu64,
                queued_packets <= 0xffffffffffffffffu64,
        {}
    }
    let m: u128 = (multiplier as u128) * (queued_packets as u128);
    let sum: u128 = (base as u128) + m;
    if sum > u64::MAX as u128 {
        u64::MAX
    } else {
        sum as u64
    }
}

/// A pool-managed object: how a pool makes one and how it is wiped before
/// reuse.
pub trait PoolObjectTrait: Sized {
    fn allocate_new() -> Self;

    fn reset(&mut self);
}

/// An executor: a typed unit of work that turns input packets into output
/// packets addressed to downstream executors. Implementations declare
/// their scheduling parameters and process one input at a time; sends are
/// returned rather than pushed, so a caller owns the routing.
pub trait Executor: Sized {
    type InputPacket;
    type OutputPacket;

    fn executor_type(&self) -> ExecutorType;

    fn base_priority(&self) -> u64;

    fn packet_priority_multiplier(&self) -> u64;

    fn is_finished(&self) -> bool;

    fn get_total_memory(&self) -> u64;

    fn execute(&mut self, input: Self::InputPacket) -> Vec<(ExecutorAddress, Self::OutputPacket)>;
}

} // verus!
