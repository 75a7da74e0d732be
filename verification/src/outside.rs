//! Declarations of the types of std and of outside crates that the library
//! carries through its logic without looking inside them.

use vstd::prelude::*;
use slab::Slab;

verus! {

/// The slab allocator of the `slab` crate: a map from small integer keys,
/// chosen by the slab, to stored values.
#[verifier::external_type_specification]
#[verifier::external_body]
#[verifier::reject_recursive_types(T)]
pub struct ExSlab<T>(Slab<T>);

/// A shared, mutable cell of std; what it holds is not tracked.
#[verifier::external_type_specification]
#[verifier::external_body]
#[verifier::reject_recursive_types(T)]
pub struct ExCell<T: ?Sized>(std::cell::Cell<T>);

/// An error reported by the operating system; the library only carries it.
#[verifier::external_type_specification]
#[verifier::external_body]
pub struct ExIoError(std::io::Error);

} // verus!
