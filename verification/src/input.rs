//! Choosing the text of the candidate from the command line's arguments.

use vstd::prelude::*;

verus! {

/// The text of the number to test: the first argument after the program's
/// name, or `"31"` where there is none.
pub fn get_input(args: Vec<String>) -> (input: String)
    ensures
        input@ == (if args@.len() < 2 {
            "31"@
        } else {
            args@[1]@
        }),
{
    if args.len() < 2 {
        "31".to_owned()
    } else {
        args[1].clone()
    }
}

} // verus!
