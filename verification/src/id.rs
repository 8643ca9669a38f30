//! Vertex identifiers.

use vstd::prelude::*;

verus! {

/// The identifier of a vertex: its index among the graph's vertices.
#[derive(Clone, Copy, Debug, PartialEq, Eq, Structural, Hash, PartialOrd, Ord)]
pub struct Id(pub usize);

impl From<usize> for Id {
    fn from(value: usize) -> (r: Id) {
        Id(value)
    }
}

impl vstd::std_specs::convert::FromSpecImpl<usize> for Id {
    open spec fn obeys_from_spec() -> bool {
        true
    }

    open spec fn from_spec(v: usize) -> Id {
        Id(v)
    }
}

impl From<Id> for usize {
    fn from(val: Id) -> (r: usize) {
        val.0
    }
}

impl vstd::std_specs::convert::FromSpecImpl<Id> for usize {
    open spec fn obeys_from_spec() -> bool {
        true
    }

    open spec fn from_spec(v: Id) -> usize {
        v.0
    }
}

/// Converting an index to an identifier and back gives the index, and
/// converting an identifier to an index and back gives the identifier.
pub proof fn law_id_round_trip(x: usize, id: Id)
    ensures
        <usize as vstd::std_specs::convert::FromSpec<Id>>::from_spec(
            <Id as vstd::std_specs::convert::FromSpec<usize>>::from_spec(x),
        ) == x,
        <Id as vstd::std_specs::convert::FromSpec<usize>>::from_spec(
            <usize as vstd::std_specs::convert::FromSpec<Id>>::from_spec(id),
        ) == id,
{
}

} // verus!
