use vstd::prelude::*;

verus! {

/// Errors reported by the library. Filter-specification and codec mistakes
/// are value errors, out-of-range accessors are index errors, and an
/// unrecognised id-set argument is a type error.
#[derive(Clone, Copy, PartialEq, Eq, Structural, Debug)]
pub enum Error {
    ValueError,
    IndexError,
    TypeError,
}

impl Error {
    /// A short description of the error kind.
    pub fn text(&self) -> (r: String)
        ensures
            self is ValueError ==> r@ == "value error"@,
            self is IndexError ==> r@ == "index error"@,
            self is TypeError ==> r@ == "type error"@,
    {
        match self {
            Error::ValueError => String::from_str("value error"),
            Error::IndexError => String::from_str("index error"),
            Error::TypeError => String::from_str("type error"),
        }
    }
}

} // verus!
