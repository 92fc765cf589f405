//! Types of other crates that values of this library carry.

use vstd::prelude::*;

verus! {

/// The standard library's I/O error, carried as it is and never looked into.
#[verifier::external_type_specification]
#[verifier::external_body]
pub struct ExIoError(std::io::Error);

} // verus!
