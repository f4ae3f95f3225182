//! `cp`: which file goes where. Also used by `mv`, whose arguments follow the
//! same pattern.

use vstd::prelude::*;
use crate::fs_utils::{
    file_name, join, join_path, law_file_name_is_plain, law_join_then_file_name, path_file_name,
};
use crate::text::{push_str, views};

verus! {

broadcast use vstd::string::group_string_axioms;

/// Where a source goes inside the directory `dest`: under its own name, or
/// nowhere when it has none.
pub open spec fn into_dir(src: Seq<char>, dest: Seq<char>) -> Option<Seq<char>> {
    match file_name(src) {
        Some(n) => Some(join(dest, n)),
        None => None,
    }
}

/// The transfers that `SRC... DEST` asks for, in order, as `(source, target)`
/// pairs. With several sources `dest` must be a directory, and each source goes
/// into it under its own name (no target when the source has no name). With
/// one source, it goes into `dest` when that is a directory, else to `dest`.
pub open spec fn transfer_plan(
    args: Seq<Seq<char>>,
    dest_is_dir: bool,
    usage: Seq<char>,
    not_dir: Seq<char>,
    bad_name: Seq<char>,
) -> Result<Seq<(Seq<char>, Option<Seq<char>>)>, Seq<char>> {
    if args.len() < 2 {
        Err(usage)
    } else {
        let srcs = args.drop_last();
        let dest = args.last();
        if srcs.len() > 1 {
            if !dest_is_dir {
                Err(not_dir)
            } else {
                Ok(srcs.map_values(|s: Seq<char>| (s, into_dir(s, dest))))
            }
        } else if dest_is_dir {
            match file_name(srcs[0]) {
                Some(n) => Ok(seq![(srcs[0], Some(join(dest, n)))]),
                None => Err(bad_name),
            }
        } else {
            Ok(seq![(srcs[0], Some(dest))])
        }
    }
}

/// The abstract value of a list of transfers.
pub open spec fn steps_view(v: Seq<(String, Option<String>)>) -> Seq<(Seq<char>, Option<Seq<char>>)> {
    v.map_values(
        |p: (String, Option<String>)|
            (
                p.0@,
                match p.1 {
                    Some(t) => Some(t@),
                    None => None,
                },
            ),
    )
}

fn into_dir_exec(src: &String, dest: &String) -> (r: Option<String>)
    ensures
        match into_dir(src@, dest@) {
            Some(t) => r matches Some(s) && s@ == t,
            None => r is None,
        },
{
    match path_file_name(src.as_str()) {
        Some(n) => Some(join_path(dest.as_str(), n.as_str())),
        None => None,
    }
}

fn message(text: &str) -> (m: String)
    ensures
        m@ == text@,
{
    let mut m = String::new();
    push_str(&mut m, text);
    m
}

/// The transfers that `SRC... DEST` asks for; `dest_is_dir` tells whether the
/// last argument names a directory. The three messages are the errors for too
/// few arguments, for several sources and a `dest` that is no directory, and
/// for a single source without a name going into a directory.
pub fn plan(args: &[String], dest_is_dir: bool, usage: &str, not_dir: &str, bad_name: &str) -> (r: Result<Vec<(String, Option<String>)>, String>)
    ensures
        match transfer_plan(views(args@), dest_is_dir, usage@, not_dir@, bad_name@) {
            Ok(steps) => r matches Ok(v) && steps_view(v@) == steps,
            Err(m) => r matches Err(e) && e@ == m,
        },
{
    let n = args.len();
    if n < 2 {
        return Err(message(usage));
    }
    let ghost a = views(args@);
    let dest = &args[n - 1];
    assert(a.last() == dest@);
    if n - 1 > 1 {
        if !dest_is_dir {
            return Err(message(not_dir));
        }
        let mut steps: Vec<(String, Option<String>)> = Vec::new();
        let mut i: usize = 0;
        while i < n - 1
            invariant
                n == args.len(),
                i <= n - 1,
                dest@ == a.last(),
                a == views(args@),
                steps_view(steps@) == a.drop_last().take(i as int).map_values(
                    |s: Seq<char>| (s, into_dir(s, a.last())),
                ),
            decreases n - 1 - i,
        {
            let t = into_dir_exec(&args[i], dest);
            let ghost before = steps_view(steps@);
            let ghost tv = match &t {
                Some(x) => Some(x@),
                None => None,
            };
            assert(tv == into_dir(args@[i as int]@, a.last()));
            steps.push((args[i].clone(), t));
            assert(a.drop_last()[i as int] == args@[i as int]@);
            assert(steps_view(steps@) =~= before.push((args@[i as int]@, tv)));
            assert(a.drop_last().take(i + 1) =~= a.drop_last().take(i as int).push(args@[i as int]@));
            assert(steps_view(steps@) =~= a.drop_last().take(i + 1).map_values(
                |s: Seq<char>| (s, into_dir(s, a.last())),
            ));
            i += 1;
        }
        assert(a.drop_last().take((n - 1) as int) =~= a.drop_last());
        return Ok(steps);
    }
    let src = &args[0];
    assert(a.drop_last()[0] == src@);
    if dest_is_dir {
        match path_file_name(src.as_str()) {
            Some(name) => {
                let t = join_path(dest.as_str(), name.as_str());
                let mut steps: Vec<(String, Option<String>)> = Vec::new();
                steps.push((src.clone(), Some(t)));
                assert(steps_view(steps@) =~= seq![(src@, Some(t@))]);
                Ok(steps)
            },
            None => Err(message(bad_name)),
        }
    } else {
        let mut steps: Vec<(String, Option<String>)> = Vec::new();
        steps.push((src.clone(), Some(dest.clone())));
        assert(steps_view(steps@) =~= seq![(src@, Some(dest@))]);
        Ok(steps)
    }
}

/// `cp SRC... DEST`: the copies to make, in order, as `(source, target)`
/// pairs; `dest_is_dir` tells whether the last argument names a directory.
pub fn run(args: &[String], dest_is_dir: bool) -> (r: Result<Vec<(String, Option<String>)>, String>)
    ensures
        match transfer_plan(
            views(args@),
            dest_is_dir,
            "cp: expected SRC DEST"@,
            "cp: last argument must be a directory when copying multiple files"@,
            "cp: invalid source name"@,
        ) {
            Ok(steps) => r matches Ok(v) && steps_view(v@) == steps,
            Err(m) => r matches Err(e) && e@ == m,
        },
{
    plan(
        args,
        dest_is_dir,
        "cp: expected SRC DEST",
        "cp: last argument must be a directory when copying multiple files",
        "cp: invalid source name",
    )
}

/// A source copied or moved into a directory keeps its name there.
pub proof fn law_into_dir_keeps_name(src: Seq<char>, dest: Seq<char>)
    ensures
        into_dir(src, dest) matches Some(t) ==> file_name(t) == file_name(src),
{
    law_file_name_is_plain(src);
    if let Some(n) = file_name(src) {
        law_join_then_file_name(dest, n);
    }
}

} // verus!
