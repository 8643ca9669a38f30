//! What the library needs of a key type's order.

use vstd::prelude::*;
use vstd::std_specs::cmp::PartialOrdSpec;

verus! {

/// The comparisons of `T` follow `T`'s specified order, so that the
/// contracts can say which way each comparison went.
pub open spec fn keys_ordered<T: PartialOrd>() -> bool {
    T::obeys_partial_cmp_spec()
}

} // verus!
