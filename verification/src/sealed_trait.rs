//! A sealed trait.  The private `Sealed` supertrait cannot be named by
//! downstream crates, so implementations of `TheTrait` exist only in this
//! crate: methods can be added in a non-breaking release, and undocumented
//! method signatures can change freely.

use vstd::prelude::*;

mod private;

verus! {

/// This trait is sealed and cannot be implemented for types outside this
/// crate.
pub trait TheTrait: private::Sealed {
    /// Echo a value back to the caller.
    fn some_pub_function(some_value: usize) -> (r: usize)
        ensures
            r == some_value,
    ;

    /// Not part of the public surface; reports that it ran.
    fn some_hidden_function() -> (r: bool)
        ensures
            r,
    ;
}

impl TheTrait for usize {
    fn some_pub_function(some_value: usize) -> (r: usize) {
        some_value
    }

    fn some_hidden_function() -> (r: bool) {
        true
    }
}

} // verus!
