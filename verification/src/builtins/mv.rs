//! `mv`: which file goes where, and what to do when renaming fails.

use vstd::prelude::*;
use crate::builtins::cp::{plan, steps_view, transfer_plan};
use crate::text::views;

verus! {

broadcast use vstd::string::group_string_axioms;

/// `mv SRC... DEST`: the moves to make, in order, as `(source, target)` pairs;
/// `dest_is_dir` tells whether the last argument names a directory.
pub fn run(args: &[String], dest_is_dir: bool) -> (r: Result<Vec<(String, Option<String>)>, String>)
    ensures
        match transfer_plan(
            views(args@),
            dest_is_dir,
            "mv: expected SRC DEST"@,
            "mv: last argument must be a directory when moving multiple files"@,
            "mv: bad source name"@,
        ) {
            Ok(steps) => r matches Ok(v) && steps_view(v@) == steps,
            Err(m) => r matches Err(e) && e@ == m,
        },
{
    plan(
        args,
        dest_is_dir,
        "mv: expected SRC DEST",
        "mv: last argument must be a directory when moving multiple files",
        "mv: bad source name",
    )
}

/// What is left to do for one move once renaming `src` to `dst` has been
/// tried: nothing when it worked, else the arguments of a `cp` of `src` to
/// `dst` followed by those of an `rm` of `src`.
pub fn move_one(src: &String, dst: &String, renamed: bool) -> (r: Option<(Vec<String>, Vec<String>)>)
    ensures
        renamed ==> r is None,
        !renamed ==> (r matches Some((cp_args, rm_args)) && views(cp_args@) == seq![src@, dst@]
            && views(rm_args@) == seq![src@]),
{
    if renamed {
        return None;
    }
    let mut cp_args: Vec<String> = Vec::new();
    cp_args.push(src.clone());
    cp_args.push(dst.clone());
    let mut rm_args: Vec<String> = Vec::new();
    rm_args.push(src.clone());
    assert(views(cp_args@) =~= seq![src@, dst@]);
    assert(views(rm_args@) =~= seq![src@]);
    Some((cp_args, rm_args))
}

} // verus!
