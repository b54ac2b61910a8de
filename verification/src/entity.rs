use vstd::prelude::*;

verus! {

/// Identifies a kind of component or a kind of resource.
pub type TypeId = u64;

/// An opaque handle that keys component data.
///
/// The `id` names a slot; the `generation` tells apart the successive
/// entities that occupy the same slot over time.  An entity carries no
/// data of its own.
#[derive(Clone, Copy, Debug, PartialEq, Eq, Structural, Hash)]
pub struct Entity {
    pub id: u32,
    pub generation: i32,
}

} // verus!
