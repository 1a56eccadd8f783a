//! What the checker's entry point takes from its command line.
use vstd::prelude::*;

verus! {

/// The files to check, given the command line with the program's name first.
/// Exactly one file must be named; otherwise there are none, and the entry
/// point prints its usage and exits with a failure.
pub fn input_files(args: Vec<String>) -> (r: Option<Vec<String>>)
    ensures
        r is Some <==> args@.len() == 2,
        r matches Some(files) ==> files@ == args@.subrange(1, args@.len() as int),
{
    if args.len() != 2 {
        return None;
    }
    let mut files = args;
    files.remove(0);
    proof {
        assert(files@ =~= args@.subrange(1, args@.len() as int));
    }
    Some(files)
}

} // verus!
