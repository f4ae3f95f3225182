//! `cat`: where it reads from.

use vstd::prelude::*;
use crate::text::text_eq;

verus! {

broadcast use vstd::string::group_string_axioms;

/// Whether `cat` copies its input (it has no argument, or one of its arguments
/// is `-`) rather than the files its arguments name.
pub open spec fn reads_input_spec(args: Seq<String>) -> bool {
    args.len() == 0 || exists|i: int| 0 <= i < args.len() && args[i]@ == "-"@
}

/// Whether `cat` copies its input rather than the files its arguments name.
pub fn reads_input(args: &[String]) -> (b: bool)
    ensures
        b == reads_input_spec(args@),
{
    if args.len() == 0 {
        return true;
    }
    let mut i: usize = 0;
    while i < args.len()
        invariant
            i <= args.len(),
            forall|j: int| 0 <= j < i ==> args@[j]@ != "-"@,
        decreases args.len() - i,
    {
        if text_eq(args[i].as_str(), "-") {
            return true;
        }
        i += 1;
    }
    false
}

/// An argument `-`, wherever it stands among the arguments, makes `cat` copy
/// its input.
pub proof fn law_dash_anywhere_reads_input(args: Seq<String>, k: int)
    requires
        0 <= k < args.len(),
        args[k]@ == "-"@,
    ensures
        reads_input_spec(args),
{
}

/// Without arguments `cat` copies its input; with arguments none of which is
/// `-`, it copies the files they name instead.
pub proof fn law_files_without_dash(args: Seq<String>)
    ensures
        args.len() == 0 ==> reads_input_spec(args),
        args.len() > 0 && (forall|i: int| 0 <= i < args.len() ==> #[trigger] args[i]@ != "-"@)
            ==> !reads_input_spec(args),
{
}

} // verus!
