//! The error kinds a store reports. Every fallible operation returns one of
//! these explicitly; the verified functions themselves never panic.

use vstd::prelude::*;

use crate::components::Component;

verus! {

/// What went wrong with a store operation.
#[derive(Debug, Clone, PartialEq)]
pub enum BbEcsError {
    /// Registration would need more membership bits than the mask word has.
    TooManyComponentTypes(String),
    /// Registration under a name that already has a column, one of the
    /// reserved names included.
    ComponentAlreadyRegistered(String),
    /// A membership bit was requested for a name that was never registered.
    BitMapInsertBeforeRegister,
    /// A column write was requested for a name that was never registered.
    NeedToRegister,
    /// A query asked for a name that has no column.
    ComponentNotFound(String),
    /// A component write was aimed at an entity that is not live: none was
    /// spawned yet, or no live entity holds the targeted id.
    InsertBeforeSpawn,
    /// No resource is stored under the requested name.
    ResourceNotFound(String),
    /// A tagged value was read back as the wrong payload kind.
    CastingComponents { from: Component, to: Component },
}

} // verus!
