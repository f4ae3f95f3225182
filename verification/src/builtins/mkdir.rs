//! `mkdir`: which directories to create and how.

use vstd::prelude::*;
use crate::text::{push_str, text_eq, views};

verus! {

broadcast use vstd::string::group_string_axioms;

/// The arguments of `mkdir` read in order: whether `-p` occurs, and the other
/// arguments, the names.
pub open spec fn mkdir_options(args: Seq<Seq<char>>) -> (bool, Seq<Seq<char>>)
    decreases args.len(),
{
    if args.len() == 0 {
        (false, Seq::<Seq<char>>::empty())
    } else {
        let (parents, names) = mkdir_options(args.drop_last());
        if args.last() == "-p"@ {
            (true, names)
        } else {
            (parents, names.push(args.last()))
        }
    }
}

/// What `mkdir` is asked to do: `(create parents too, names)`, or
/// "mkdir: missing operand" when it has no argument at all.
pub open spec fn mkdir_plan(args: Seq<Seq<char>>) -> Result<(bool, Seq<Seq<char>>), Seq<char>> {
    if args.len() == 0 {
        Err("mkdir: missing operand"@)
    } else {
        Ok(mkdir_options(args))
    }
}

/// `mkdir [-p] PATH...`: whether to create missing parents, and the
/// directories to create, in order.
pub fn run(args: &[String]) -> (r: Result<(bool, Vec<String>), String>)
    ensures
        match mkdir_plan(views(args@)) {
            Ok((parents, names)) => r matches Ok((b, v)) && b == parents && views(v@) == names,
            Err(m) => r matches Err(e) && e@ == m,
        },
{
    if args.len() == 0 {
        let mut m = String::new();
        push_str(&mut m, "mkdir: missing operand");
        return Err(m);
    }
    let mut parents = false;
    let mut names: Vec<String> = Vec::new();
    let mut i: usize = 0;
    assert(views(args@).take(0) =~= Seq::<Seq<char>>::empty());
    assert(views(names@) =~= Seq::<Seq<char>>::empty());
    while i < args.len()
        invariant
            i <= args.len(),
            mkdir_options(views(args@).take(i as int)) == (parents, views(names@)),
        decreases args.len() - i,
    {
        let ghost w = views(args@).take(i + 1);
        assert(w.drop_last() =~= views(args@).take(i as int));
        assert(w.last() == args@[i as int]@);
        if text_eq(args[i].as_str(), "-p") {
            parents = true;
        } else {
            let ghost before = views(names@);
            names.push(args[i].clone());
            assert(views(names@) =~= before.push(args@[i as int]@));
        }
        i += 1;
    }
    assert(views(args@).take(args.len() as int) =~= views(args@));
    Ok((parents, names))
}

} // verus!
