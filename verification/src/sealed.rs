//! The closed set of types that can give a variable name.

use vstd::prelude::*;

verus! {

/// Implemented only here, so that no other crate can add a name source whose
/// conversion breaks its stated contract.
pub trait Sealed {
}

impl<'a> Sealed for &'a str {
}

impl Sealed for String {
}

impl<'a> Sealed for &'a String {
}

} // verus!
