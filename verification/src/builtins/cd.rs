//! `cd`: which directory to change to.

use vstd::prelude::*;
use crate::shell::Shell;
use crate::text::{push_str, text_eq};

verus! {

broadcast use vstd::string::group_string_axioms;

/// The directory `cd` changes to, `None` when it does nothing: with no
/// argument the home directory (`/` when `HOME` is unset), with `-` the
/// previous directory (nothing when there is none), else its first argument.
pub open spec fn cd_target(args: Seq<Seq<char>>, home: Option<Seq<char>>, prev: Option<Seq<char>>) -> Option<Seq<char>> {
    if args.len() == 0 {
        match home {
            Some(h) => Some(h),
            None => Some(seq!['/']),
        }
    } else if args[0] == seq!['-'] {
        prev
    } else {
        Some(args[0])
    }
}

/// The directory `cd` changes to, `None` when it does nothing.
pub fn run(sh: &Shell, args: &[String], home: Option<String>) -> (r: Option<String>)
    ensures
        match cd_target(
            args@.map_values(|a: String| a@),
            match home {
                Some(h) => Some(h@),
                None => None,
            },
            sh.prev_view(),
        ) {
            Some(t) => r matches Some(s) && s@ == t,
            None => r is None,
        },
{
    if args.len() == 0 {
        match home {
            Some(h) => Some(h),
            None => {
                let mut s = String::new();
                proof {
                    reveal_strlit("/");
                }
                push_str(&mut s, "/");
                assert(s@ =~= seq!['/']);
                Some(s)
            },
        }
    } else {
        proof {
            reveal_strlit("-");
        }
        assert("-"@ =~= seq!['-']);
        if text_eq(args[0].as_str(), "-") {
            sh.prev_dir()
        } else {
            Some(args[0].clone())
        }
    }
}

} // verus!
