//! `rm`: which paths to remove and how.

use vstd::prelude::*;
use crate::text::{push_str, text_eq, views};

verus! {

broadcast use vstd::string::group_string_axioms;

/// The arguments of `rm` read in order: whether `-r` or `-R` occurs, and the
/// other arguments, the paths.
pub open spec fn rm_options(args: Seq<Seq<char>>) -> (bool, Seq<Seq<char>>)
    decreases args.len(),
{
    if args.len() == 0 {
        (false, Seq::<Seq<char>>::empty())
    } else {
        let (recursive, paths) = rm_options(args.drop_last());
        if args.last() == "-r"@ || args.last() == "-R"@ {
            (true, paths)
        } else {
            (recursive, paths.push(args.last()))
        }
    }
}

/// What `rm` is asked to do: `(recursive, paths)`, or "rm: missing operand"
/// when no path is given.
pub open spec fn rm_plan(args: Seq<Seq<char>>) -> Result<(bool, Seq<Seq<char>>), Seq<char>> {
    let (recursive, paths) = rm_options(args);
    if paths.len() == 0 {
        Err("rm: missing operand"@)
    } else {
        Ok((recursive, paths))
    }
}

/// `rm [-r] PATH...`: whether to remove directories, and the paths, in order.
pub fn run(args: &[String]) -> (r: Result<(bool, Vec<String>), String>)
    ensures
        match rm_plan(views(args@)) {
            Ok((recursive, paths)) => r matches Ok((b, v)) && b == recursive && views(v@) == paths,
            Err(m) => r matches Err(e) && e@ == m,
        },
{
    let mut recursive = false;
    let mut paths: Vec<String> = Vec::new();
    let mut i: usize = 0;
    assert(views(args@).take(0) =~= Seq::<Seq<char>>::empty());
    assert(views(paths@) =~= Seq::<Seq<char>>::empty());
    while i < args.len()
        invariant
            i <= args.len(),
            rm_options(views(args@).take(i as int)) == (recursive, views(paths@)),
        decreases args.len() - i,
    {
        let ghost w = views(args@).take(i + 1);
        assert(w.drop_last() =~= views(args@).take(i as int));
        assert(w.last() == args@[i as int]@);
        if text_eq(args[i].as_str(), "-r") || text_eq(args[i].as_str(), "-R") {
            recursive = true;
        } else {
            let ghost before = views(paths@);
            paths.push(args[i].clone());
            assert(views(paths@) =~= before.push(args@[i as int]@));
        }
        i += 1;
    }
    assert(views(args@).take(args.len() as int) =~= views(args@));
    if paths.len() == 0 {
        let mut m = String::new();
        push_str(&mut m, "rm: missing operand");
        return Err(m);
    }
    Ok((recursive, paths))
}

/// How `rm` removes `path` once it knows whether it is a directory:
/// `Ok(true)` removes a whole directory tree, `Ok(false)` a single file, and a
/// directory without `-r` is refused.
pub fn action(path: &str, is_dir: bool, recursive: bool) -> (r: Result<bool, String>)
    ensures
        is_dir && !recursive ==> (r matches Err(e) && e@ == "rm: "@ + path@
            + ": is a directory (use -r)"@),
        !(is_dir && !recursive) ==> r == Ok::<bool, String>(is_dir),
{
    if is_dir && !recursive {
        let mut m = String::new();
        proof {
            reveal_strlit("rm: ");
        }
        push_str(&mut m, "rm: ");
        push_str(&mut m, path);
        push_str(&mut m, ": is a directory (use -r)");
        return Err(m);
    }
    Ok(is_dir)
}

} // verus!
