use vstd::prelude::*;

verus! {

/// Why an operation of the library gave up.
#[derive(Clone, Copy, Debug, PartialEq, Eq, Structural)]
pub enum Error {
    /// A part, build or bill of materials that the operation needs does not exist.
    NotFound,
    /// An input breaks a rule of the data model (a completed build, a bad quantity).
    InvalidInput,
    /// A computed quantity or amount does not fit the type that stores it.
    Overflow,
}

} // verus!
