use vstd::prelude::*;
use crate::entity::TypeId;

verus! {

/// What can go wrong while a schedule is built, while the world is accessed,
/// or while a tick runs.
#[derive(Debug, PartialEq, Eq)]
pub enum EcsError {
    /// A store or a resource was accessed before its type was registered.
    UnregisteredType { type_id: TypeId },
    /// The ordering constraints contain a cycle; `systems` names the systems
    /// that lie on one, in declaration order.
    CyclicDependency { systems: Vec<String> },
    /// A system declares `type_id` both read and written.
    AmbiguousAccess { system: String, type_id: TypeId },
    /// A system failed during a tick.  `batch` is the batch that was running
    /// and `completed` counts the systems that had finished before the
    /// failure; their changes stay in the world.
    SystemFailure { system: String, batch: usize, completed: usize, reason: String },
    /// `system` is declared to run after `dependency`, which no system is
    /// named.
    UnknownSystem { system: String, dependency: String },
    /// A system of this name is registered already.
    DuplicateSystem { system: String },
    /// A system asked for a type that its access descriptor does not cover.
    UndeclaredAccess { type_id: TypeId },
    /// The allocator has no entity identifier left to give out.
    EntitiesExhausted,
}

} // verus!
