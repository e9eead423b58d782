//! Time-based unique id generation: a thin, typed layer over the snowflake
//! worker of the `rs-snowflake` crate, with three interchangeable collision
//! strategies.
//!
//! The worker composes a millisecond timestamp, the machine and node ids,
//! and a per-millisecond sequence counter into one 64-bit value. Its results
//! depend on the clock, so nothing is assumed about them here; what the
//! library guarantees is proved downstream of the raw seed.

use vstd::prelude::*;
use core::marker::PhantomData;
use crate::MachineNode;

verus! {

/// The worker of the `rs-snowflake` crate, held opaquely: the crate's own
/// generator types share their names with the worker's, so the worker is
/// wrapped rather than declared, and each method the library calls gets a
/// trusted wrapper.
#[verifier::external_body]
pub struct Worker {
    inner: snowflake::SnowflakeIdGenerator,
}

impl Worker {
    /// Relies on `snowflake::SnowflakeIdGenerator::new`: a worker for the
    /// given machine and node ids, anchored at the Unix epoch.
    #[verifier::external_body]
    pub fn new(machine_id: i32, node_id: i32) -> Worker {
        Worker { inner: snowflake::SnowflakeIdGenerator::new(machine_id, node_id) }
    }

    /// Relies on `snowflake::SnowflakeIdGenerator::real_time_generate`: the
    /// next raw id, spinning until the clock advances when the current
    /// millisecond's sequence numbers are exhausted. The value depends on
    /// the clock, so nothing is assumed of it.
    #[verifier::external_body]
    pub fn real_time_generate(&mut self) -> i64 {
        self.inner.real_time_generate()
    }

    /// Relies on `snowflake::SnowflakeIdGenerator::generate`: the next raw
    /// id, consulting the clock only once per sequence-counter wrap. The
    /// value depends on the clock, so nothing is assumed of it.
    #[verifier::external_body]
    pub fn generate(&mut self) -> i64 {
        self.inner.generate()
    }

    /// Relies on `snowflake::SnowflakeIdGenerator::lazy_generate`: the next
    /// raw id, advancing the stored timestamp instead of consulting the
    /// clock. The value depends on the worker's history, so nothing is
    /// assumed of it.
    #[verifier::external_body]
    pub fn lazy_generate(&mut self) -> i64 {
        self.inner.lazy_generate()
    }
}

/// A raw 64-bit snowflake seed.
#[derive(Debug, Default, Copy, Clone, PartialEq, Eq, PartialOrd, Ord, Hash, Structural)]
pub struct Id(i64);

impl Id {
    /// The seed as an integer.
    pub closed spec fn spec_num(&self) -> int {
        self.0 as int
    }

    /// The raw 64-bit value of the id.
    pub fn num(&self) -> (r: i64)
        ensures
            r as int == self.spec_num(),
    {
        self.0
    }
}

impl From<i64> for Id {
    /// The id wrapping a raw value.
    fn from(id: i64) -> (r: Self)
        ensures
            r.spec_num() == id as int,
    {
        Id(id)
    }
}

impl vstd::std_specs::convert::FromSpecImpl<i64> for Id {
    open spec fn obeys_from_spec() -> bool {
        true
    }

    closed spec fn from_spec(id: i64) -> Self {
        Id(id)
    }
}

/// One of the three collision-handling strategies: how the next raw seed is
/// drawn from the worker.
pub trait IdGenerator: Sized {
    /// The next raw seed under this strategy.
    fn next_id(worker: &mut Worker) -> Id;
}

/// Blocks (spins) until the clock advances when a millisecond's sequence
/// numbers run out, so emitted seeds are in true non-decreasing time order.
#[derive(Debug, Default, Copy, Clone)]
pub struct RealTimeGenerator;

/// Advances a monotonically increasing counter per call without necessarily
/// reflecting wall-clock order at sub-millisecond resolution; never blocks.
#[derive(Debug, Default, Copy, Clone)]
pub struct Generator;

/// Reuses the last timestamp with an incrementing sequence, advancing the
/// timestamp component only when the counter wraps; for batch issuance.
#[derive(Debug, Default, Copy, Clone)]
pub struct LazyGenerator;

impl IdGenerator for RealTimeGenerator {
    fn next_id(worker: &mut Worker) -> Id {
        Id(worker.real_time_generate())
    }
}

impl IdGenerator for Generator {
    fn next_id(worker: &mut Worker) -> Id {
        Id(worker.generate())
    }
}

impl IdGenerator for LazyGenerator {
    fn next_id(worker: &mut Worker) -> Id {
        Id(worker.lazy_generate())
    }
}

/// Generates time-based unique ids. Each node should have a different
/// worker id, so construction goes through a [`MachineNode`].
pub struct SnowflakeIdGenerator<G> {
    machine_node: MachineNode,
    worker: Worker,
    marker: PhantomData<G>,
}

impl<G> SnowflakeIdGenerator<G> {
    /// The machine/node pair this generator was built for.
    pub closed spec fn spec_machine_node(&self) -> MachineNode {
        self.machine_node
    }

    /// A generator for the default machine/node pair.
    pub fn single_node() -> (r: Self)
        ensures
            r.spec_machine_node() == (MachineNode { machine_id: 1, node_id: 1 }),
    {
        Self::distributed(MachineNode::default())
    }

    /// A generator for the given machine/node pair.
    pub fn distributed(machine_node: MachineNode) -> (r: Self)
        ensures
            r.spec_machine_node() == machine_node,
    {
        let worker = Worker::new(machine_node.machine_id, machine_node.node_id);
        SnowflakeIdGenerator { machine_node, worker, marker: PhantomData }
    }
}

impl<G: IdGenerator> SnowflakeIdGenerator<G> {
    /// The next raw seed under this generator's strategy. The value depends
    /// on the clock and the worker's history; the machine/node pair is
    /// unchanged.
    pub fn next_id(&mut self) -> (r: Id)
        ensures
            final(self).spec_machine_node() == old(self).spec_machine_node(),
    {
        G::next_id(&mut self.worker)
    }
}

impl<G> Default for SnowflakeIdGenerator<G> {
    /// A generator for the default machine/node pair.
    fn default() -> (r: Self)
        ensures
            r.spec_machine_node() == (MachineNode { machine_id: 1, node_id: 1 }),
    {
        Self::distributed(MachineNode::default())
    }
}

} // verus!
