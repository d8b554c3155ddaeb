use vstd::prelude::*;
use vstd::string::StringExecFns;

verus! {

/// Whether the arguments ask for the version alone: the name of the
/// program, and then `-v` or `--version`.
pub open spec fn asks_for_version(args: Seq<String>) -> bool {
    args.len() == 2 && (args[1]@ == "-v"@ || args[1]@ == "--version"@)
}

/// Whether the arguments `args` of the program ask for the version alone.
pub fn wants_version(args: &Vec<String>) -> (r: bool)
    ensures
        r == asks_for_version(args@),
{
    if args.len() != 2 {
        return false;
    }
    let short = String::from_str("-v");
    let long = String::from_str("--version");
    args[1] == short || args[1] == long
}

} // verus!
