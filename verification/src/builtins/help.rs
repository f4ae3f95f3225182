//! `help`: the list of builtins.

use vstd::prelude::*;
use crate::text::push_str;

verus! {

broadcast use vstd::string::group_string_axioms;

/// The text that `help` prints.
pub open spec fn help_text() -> Seq<char> {
    "0-shell builtins:
    echo [args...]             - print arguments
    cd [dir] | cd -            - change directory (to HOME if no dir)
    pwd                        - print current directory
    ls [-l] [-a] [-F] [path]   - list files
    cat [files...] | cat -     - print files/stdin
    cp SRC... DEST             - copy files
    mv SRC... DEST             - move/rename files
    rm [-r] PATH...            - remove files or directories
    mkdir [-p] PATH...         - make directories
    history                    - show command history
    help                       - this help

Features: env vars ($HOME), ~ expansion, command chaining (;), pipelines (|),
redirection (<, >), Ctrl+C friendly, colored ls -F, prompt shows current directory."@
}

/// The text that `help` prints (on a line of its own).
pub fn run() -> (r: String)
    ensures
        r@ == help_text(),
{
    let mut r = String::new();
    push_str(&mut r, "0-shell builtins:
    echo [args...]             - print arguments
    cd [dir] | cd -            - change directory (to HOME if no dir)
    pwd                        - print current directory
    ls [-l] [-a] [-F] [path]   - list files
    cat [files...] | cat -     - print files/stdin
    cp SRC... DEST             - copy files
    mv SRC... DEST             - move/rename files
    rm [-r] PATH...            - remove files or directories
    mkdir [-p] PATH...         - make directories
    history                    - show command history
    help                       - this help

Features: env vars ($HOME), ~ expansion, command chaining (;), pipelines (|),
redirection (<, >), Ctrl+C friendly, colored ls -F, prompt shows current directory.");
    r
}

} // verus!
