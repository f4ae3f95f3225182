//! The builtin commands: what each one decides from its arguments. Reading
//! and writing files and directories is left to the caller, which hands the
//! outcomes back as plain values.

pub mod cat;
pub mod cd;
pub mod cp;
pub mod echo;
pub mod help;
pub mod ls;
pub mod mkdir;
pub mod mv;
pub mod rm;

use vstd::prelude::*;
use crate::text::push_str;

verus! {

broadcast use vstd::string::group_string_axioms;

/// The message `<cmd>: <path>: <error>` that the builtins give when an
/// operation on a path fails.
pub fn report(cmd: &str, path: &str, err: &str) -> (m: String)
    ensures
        m@ == cmd@ + ": "@ + path@ + ": "@ + err@,
{
    let mut m = String::new();
    proof {
        reveal_strlit(": ");
    }
    push_str(&mut m, cmd);
    push_str(&mut m, ": ");
    push_str(&mut m, path);
    push_str(&mut m, ": ");
    push_str(&mut m, err);
    m
}

} // verus!
