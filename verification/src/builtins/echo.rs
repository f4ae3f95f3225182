//! `echo`: the arguments separated by single spaces, then a newline.

use vstd::prelude::*;
use crate::text::{joined, push_char, push_str, views};

verus! {

broadcast use vstd::string::group_string_axioms;

/// What `echo` writes: the arguments separated by spaces, and a newline.
pub fn run(args: &[String]) -> (out: String)
    ensures
        out@ == joined(views(args@), ' ') + seq!['\n'],
{
    let mut out = String::new();
    let mut i: usize = 0;
    assert(views(args@).take(0) =~= Seq::<Seq<char>>::empty());
    while i < args.len()
        invariant
            i <= args.len(),
            out@ == joined(views(args@).take(i as int), ' '),
        decreases args.len() - i,
    {
        let ghost w = views(args@).take(i + 1);
        assert(w.drop_last() =~= views(args@).take(i as int));
        assert(w.last() == args@[i as int]@);
        if i > 0 {
            push_char(&mut out, ' ');
        } else {
            assert(views(args@).take(0) =~= Seq::<Seq<char>>::empty());
        }
        push_str(&mut out, args[i].as_str());
        if i == 0 {
            assert(out@ =~= w[0]);
        }
        i += 1;
    }
    assert(views(args@).take(args.len() as int) =~= views(args@));
    push_char(&mut out, '\n');
    out
}

} // verus!
