use vstd::prelude::*;

verus! {

/// How many arguments the program takes.
pub const EXPECTED_ARG_COUNT: usize = 1;

/// Why the command-line arguments were refused.
#[derive(Clone, Debug, PartialEq, Eq)]
pub enum ArgError {
    /// So many arguments were given, where `EXPECTED_ARG_COUNT` were expected.
    BadArgCount(usize, usize),
}

/// The program's command-line arguments.
#[derive(Clone, Debug, PartialEq, Eq)]
pub struct Args {
    pub sample_arg: String,
}

impl Args {
    /// Reads the arguments, the program's name left out: exactly `EXPECTED_ARG_COUNT`
    /// of them, or `BadArgCount` with the number given.
    pub fn from_args(args: Vec<String>) -> (r: Result<Args, ArgError>)
        ensures
            args@.len() == EXPECTED_ARG_COUNT ==> r is Ok && r->Ok_0.sample_arg == args@[0],
            args@.len() != EXPECTED_ARG_COUNT ==> r == Err::<Args, ArgError>(
                ArgError::BadArgCount(args@.len() as usize, EXPECTED_ARG_COUNT),
            ),
    {
        let mut args = args;
        let count = args.len();
        if count != EXPECTED_ARG_COUNT {
            return Err(ArgError::BadArgCount(count, EXPECTED_ARG_COUNT));
        }
        match args.pop() {
            Some(sample_arg) => Ok(Args { sample_arg }),
            None => Err(ArgError::BadArgCount(count, EXPECTED_ARG_COUNT)),
        }
    }
}

} // verus!
