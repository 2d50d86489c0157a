//! The supertrait that seals `TheTrait`.

use vstd::prelude::*;

verus! {

/// Implemented for exactly the types this crate gives `TheTrait` to, and no
/// others.
pub trait Sealed {

}

impl Sealed for usize {

}

} // verus!
