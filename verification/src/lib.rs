//! Distributed-unique, time-ordered 64-bit identifiers, rendered as
//! fixed-length, checksum-protected, human-readable strings that parse back
//! to the exact originating number.

mod label;
mod labeling;
pub mod generator;
pub mod pretty;
pub mod snowflake;

pub use label::Label;
pub use labeling::{summon, CustomLabeling, Labeling, MakeLabeling, NoLabeling};
pub use pretty::{Alphabet, AlphabetCodec, Codec, ConversionError, Id, IdPrettifier,
    PrettyIdGenerator};
pub use snowflake::{Generator, IdGenerator, LazyGenerator, RealTimeGenerator,
    SnowflakeIdGenerator};

use vstd::prelude::*;

verus! {

/// A generator of labeled identifiers with the real-time strategy and the
/// default codec.
pub type LabeledRealtimeIdGenerator<T> = PrettyIdGenerator<
    T,
    <T as Label>::Labeler,
    RealTimeGenerator,
    AlphabetCodec,
>;

/// A generator of labeled identifiers with the basic strategy and the
/// default codec.
pub type LabeledBasicIdGenerator<T> = PrettyIdGenerator<
    T,
    <T as Label>::Labeler,
    Generator,
    AlphabetCodec,
>;

/// A generator of labeled identifiers with the lazy strategy and the
/// default codec.
pub type LabeledLazyIdGenerator<T> = PrettyIdGenerator<
    T,
    <T as Label>::Labeler,
    LazyGenerator,
    AlphabetCodec,
>;

/// Largest value allowed for either half of a [`MachineNode`].
pub const MACHINE_NODE_MAX: i32 = 31;

/// Error returned when a [`MachineNode`] is constructed from values outside
/// the permitted range; it carries the rejected pair.
#[derive(Debug, Clone, PartialEq, Eq, Structural)]
pub struct MachineNodeError {
    pub machine_id: i32,
    pub node_id: i32,
}

/// Supplements the sectionalization attribute of the Snowflake algorithm in a
/// distributed environment. The `machine_id` and `node_id` are combined to
/// form a unique worker id; this pair must be unique for a target identifier
/// space, otherwise identifier collisions can easily occur even in a light
/// concurrent environment.
#[derive(Debug, Copy, Clone, PartialEq, Eq, Hash, Structural)]
pub struct MachineNode {
    /// The largest granularity of uniqueness; e.g., a physical machine or a
    /// cluster identifier.
    pub machine_id: i32,

    /// The node within the machine's identifier space.
    pub node_id: i32,
}

impl MachineNode {
    /// Both halves lie in the inclusive range `[0, MACHINE_NODE_MAX]`.
    pub open spec fn wf(&self) -> bool {
        0 <= self.machine_id <= MACHINE_NODE_MAX && 0 <= self.node_id <= MACHINE_NODE_MAX
    }

    /// Validating constructor: succeeds exactly when both values are in range,
    /// and never yields a partially-valid node.
    pub fn new(machine_id: i32, node_id: i32) -> (result: Result<Self, MachineNodeError>)
        ensures
            result is Ok <==> (0 <= machine_id <= MACHINE_NODE_MAX
                && 0 <= node_id <= MACHINE_NODE_MAX),
            result matches Ok(node) ==> node == (MachineNode { machine_id, node_id })
                && node.wf(),
            result matches Err(e) ==> e == (MachineNodeError { machine_id, node_id }),
    {
        if 0 <= machine_id && machine_id <= MACHINE_NODE_MAX && 0 <= node_id
            && node_id <= MACHINE_NODE_MAX {
            Ok(MachineNode { machine_id, node_id })
        } else {
            Err(MachineNodeError { machine_id, node_id })
        }
    }
}

impl Default for MachineNode {
    /// The conventional single-node configuration `(1, 1)`.
    fn default() -> (result: Self)
        ensures
            result == (MachineNode { machine_id: 1, node_id: 1 }),
            result.wf(),
    {
        MachineNode { machine_id: 1, node_id: 1 }
    }
}

} // verus!
