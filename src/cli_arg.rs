use vstd::prelude::*;

verus! {

/// Whether the first command-line argument is the program's name, which the platform
/// may or may not supply.
#[derive(Clone, Copy, Debug, PartialEq, Eq, Hash, PartialOrd, Ord, Structural)]
pub enum CliArg {
    NoProgramNameArg,
    HasProgramNameArg,
}

impl CliArg {
    /// How many leading arguments stand before the program's own: one when the
    /// program's name is supplied.
    pub fn into(self) -> (r: usize)
        ensures
            r == match self {
                CliArg::NoProgramNameArg => 0usize,
                CliArg::HasProgramNameArg => 1usize,
            },
    {
        match self {
            CliArg::NoProgramNameArg => 0,
            CliArg::HasProgramNameArg => 1,
        }
    }
}

} // verus!
