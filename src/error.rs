use vstd::prelude::*;

verus! {

/// Why a rectangular grid could not be built.
#[derive(Clone, Debug, PartialEq, Eq)]
pub enum Error {
    /// The grid would have no rows or no columns.
    NoData(String),
    /// `rows * cols` overflows, exceeds `isize::MAX`, or does not match the data given.
    TooManyElements(usize, usize),
}

pub type Result<T, E = Error> = core::result::Result<T, E>;

} // verus!
