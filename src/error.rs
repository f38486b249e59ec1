use vstd::prelude::*;

verus! {

/// The recoverable failures of the store's operations.
#[derive(Debug, Clone, Copy, PartialEq, Eq, Structural)]
pub enum EcsError {
    /// The handle's generation does not match a live slot.
    StaleEntity,
    /// The entity does not hold the requested component type.
    MissingComponent,
    /// `spawn_at` targeted a handle whose slot is already live.
    DuplicateEntity,
    /// A slot or row count would exceed what can be represented.
    CapacityOverflow,
    /// A store being duplicated holds a component type that the
    /// duplication registry does not know.
    Unregistered,
}

} // verus!
