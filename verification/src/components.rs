//! The closed set of payload kinds a store can hold, and the tagged value
//! container that carries one payload in an entity's column slot.

use vstd::prelude::*;

use crate::errors::BbEcsError;

verus! {

/// The tag of each supported payload kind. `Blank` is the sentinel that marks
/// an unused column slot.
#[derive(Debug, Clone, Copy, PartialEq, Eq, Structural)]
pub enum Component {
    U32,
    U64,
    Usize,
    Bool,
    Marker,
    Blank,
}

/// A tagged component value: one payload out of the closed set of kinds.
/// Column slots that no entity uses hold `Blank`.
#[derive(Debug, Clone, PartialEq)]
pub enum ComponentData {
    U32(u32),
    U64(u64),
    Usize(usize),
    Bool(bool),
    Marker(String),
    Blank,
}

impl ComponentData {
    /// The tag of this value's kind.
    pub fn kind(&self) -> (r: Component)
        ensures
            r == self.spec_kind(),
    {
        match self {
            ComponentData::U32(_) => Component::U32,
            ComponentData::U64(_) => Component::U64,
            ComponentData::Usize(_) => Component::Usize,
            ComponentData::Bool(_) => Component::Bool,
            ComponentData::Marker(_) => Component::Marker,
            ComponentData::Blank => Component::Blank,
        }
    }

    pub open spec fn spec_kind(&self) -> Component {
        match self {
            ComponentData::U32(_) => Component::U32,
            ComponentData::U64(_) => Component::U64,
            ComponentData::Usize(_) => Component::Usize,
            ComponentData::Bool(_) => Component::Bool,
            ComponentData::Marker(_) => Component::Marker,
            ComponentData::Blank => Component::Blank,
        }
    }
}

/// Wrapping one payload kind into the tagged container and narrowing it back
/// out. Narrowing a value that holds another kind is an error naming both
/// kinds; the value itself is never touched.
pub trait CastComponents<T>: Sized {
    /// The container value that carries `data`.
    spec fn spec_wrap(data: T) -> Self;

    /// The tag of the payload kind this implementation narrows to.
    spec fn spec_tag() -> Component;

    /// The tag of the kind a container value currently holds.
    spec fn spec_held_tag(&self) -> Component;

    /// Wrap `data` into the tagged container.
    fn from_raw_data(data: T) -> (r: Self)
        ensures
            r == Self::spec_wrap(data),
    ;

    /// Narrow the container back to the payload it carries, or report which
    /// kind it holds instead.
    fn cast(&self) -> (r: Result<&T, BbEcsError>)
        ensures
            match r {
                Ok(v) => *self == Self::spec_wrap(*v),
                Err(e) => (forall|d: T| *self != Self::spec_wrap(d)) && e
                    == (BbEcsError::CastingComponents {
                    from: self.spec_held_tag(),
                    to: Self::spec_tag(),
                }),
            },
    ;
}

impl CastComponents<u32> for ComponentData {
    open spec fn spec_wrap(data: u32) -> ComponentData {
        ComponentData::U32(data)
    }

    open spec fn spec_tag() -> Component {
        Component::U32
    }

    open spec fn spec_held_tag(&self) -> Component {
        self.spec_kind()
    }

    fn from_raw_data(data: u32) -> (r: ComponentData) {
        ComponentData::U32(data)
    }

    fn cast(&self) -> (r: Result<&u32, BbEcsError>) {
        match self {
            ComponentData::U32(v) => Ok(v),
            _ => Err(
                BbEcsError::CastingComponents { from: self.kind(), to: Component::U32 },
            ),
        }
    }
}

impl CastComponents<u64> for ComponentData {
    open spec fn spec_wrap(data: u64) -> ComponentData {
        ComponentData::U64(data)
    }

    open spec fn spec_tag() -> Component {
        Component::U64
    }

    open spec fn spec_held_tag(&self) -> Component {
        self.spec_kind()
    }

    fn from_raw_data(data: u64) -> (r: ComponentData) {
        ComponentData::U64(data)
    }

    fn cast(&self) -> (r: Result<&u64, BbEcsError>) {
        match self {
            ComponentData::U64(v) => Ok(v),
            _ => Err(
                BbEcsError::CastingComponents { from: self.kind(), to: Component::U64 },
            ),
        }
    }
}

impl CastComponents<usize> for ComponentData {
    open spec fn spec_wrap(data: usize) -> ComponentData {
        ComponentData::Usize(data)
    }

    open spec fn spec_tag() -> Component {
        Component::Usize
    }

    open spec fn spec_held_tag(&self) -> Component {
        self.spec_kind()
    }

    fn from_raw_data(data: usize) -> (r: ComponentData) {
        ComponentData::Usize(data)
    }

    fn cast(&self) -> (r: Result<&usize, BbEcsError>) {
        match self {
            ComponentData::Usize(v) => Ok(v),
            _ => Err(
                BbEcsError::CastingComponents { from: self.kind(), to: Component::Usize },
            ),
        }
    }
}

impl CastComponents<bool> for ComponentData {
    open spec fn spec_wrap(data: bool) -> ComponentData {
        ComponentData::Bool(data)
    }

    open spec fn spec_tag() -> Component {
        Component::Bool
    }

    open spec fn spec_held_tag(&self) -> Component {
        self.spec_kind()
    }

    fn from_raw_data(data: bool) -> (r: ComponentData) {
        ComponentData::Bool(data)
    }

    fn cast(&self) -> (r: Result<&bool, BbEcsError>) {
        match self {
            ComponentData::Bool(v) => Ok(v),
            _ => Err(
                BbEcsError::CastingComponents { from: self.kind(), to: Component::Bool },
            ),
        }
    }
}

impl CastComponents<String> for ComponentData {
    open spec fn spec_wrap(data: String) -> ComponentData {
        ComponentData::Marker(data)
    }

    open spec fn spec_tag() -> Component {
        Component::Marker
    }

    open spec fn spec_held_tag(&self) -> Component {
        self.spec_kind()
    }

    fn from_raw_data(data: String) -> (r: ComponentData) {
        ComponentData::Marker(data)
    }

    fn cast(&self) -> (r: Result<&String, BbEcsError>) {
        match self {
            ComponentData::Marker(v) => Ok(v),
            _ => Err(
                BbEcsError::CastingComponents { from: self.kind(), to: Component::Marker },
            ),
        }
    }
}

} // verus!
