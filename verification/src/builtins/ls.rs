//! `ls`: reading the flags, which entries to show and how each is printed.

use vstd::prelude::*;
use crate::fs_utils::{
    classify_suffix, join, join_path, long_entry_marked, long_line_marked, name_for_display,
    names_sorted, read_dir_sorted, shown_name, suffix_of, EntryInfo,
};
use crate::shell::opt_view;
use crate::text::{chars_of, push_char, push_str, views};

verus! {

broadcast use vstd::string::group_string_axioms;

/// The flags of `ls`: `-a` (show hidden entries), `-l` (long lines) and `-F`
/// (mark the type of each entry).
#[derive(Debug, Clone, Copy, PartialEq, Eq)]
pub struct LsOpts {
    pub all: bool,
    pub long: bool,
    pub classify: bool,
}

/// What `ls` is asked to list, and how.
pub struct LsPlan {
    pub opts: LsOpts,
    pub paths: Vec<String>,
}

/// Reading the letters of one flag argument, in order: `a`, `l` and `F` turn
/// their option on; any other letter is refused.
pub open spec fn flags_from(o: LsOpts, letters: Seq<char>) -> Result<LsOpts, char>
    decreases letters.len(),
{
    if letters.len() == 0 {
        Ok(o)
    } else {
        match flags_from(o, letters.drop_last()) {
            Err(c) => Err(c),
            Ok(p) => {
                let c = letters.last();
                if c == 'a' {
                    Ok(LsOpts { all: true, ..p })
                } else if c == 'l' {
                    Ok(LsOpts { long: true, ..p })
                } else if c == 'F' {
                    Ok(LsOpts { classify: true, ..p })
                } else {
                    Err(c)
                }
            },
        }
    }
}

/// Reading the arguments of `ls` in order: an argument that starts with `-`
/// gives flags, any other names a path. The first unknown letter stops it.
pub open spec fn ls_options(args: Seq<Seq<char>>) -> Result<(LsOpts, Seq<Seq<char>>), char>
    decreases args.len(),
{
    if args.len() == 0 {
        Ok((LsOpts { all: false, long: false, classify: false }, Seq::<Seq<char>>::empty()))
    } else {
        match ls_options(args.drop_last()) {
            Err(c) => Err(c),
            Ok((o, paths)) => {
                let a = args.last();
                if a.len() > 0 && a[0] == '-' {
                    match flags_from(o, a.drop_first()) {
                        Ok(p) => Ok((p, paths)),
                        Err(c) => Err(c),
                    }
                } else {
                    Ok((o, paths.push(a)))
                }
            },
        }
    }
}

/// What `ls` is asked to do: its flags and paths (`.` when none is given), or
/// "ls: unknown flag -<letter>".
pub open spec fn ls_plan(args: Seq<Seq<char>>) -> Result<(LsOpts, Seq<Seq<char>>), Seq<char>> {
    match ls_options(args) {
        Err(c) => Err("ls: unknown flag -"@ + seq![c]),
        Ok((o, paths)) => Ok((o, if paths.len() == 0 { seq![seq!['.']] } else { paths })),
    }
}

/// Whether `c` occurs in `s`, looked at through the last character.
proof fn lemma_contains_push(d: Seq<char>, c: char, x: char)
    ensures
        d.push(c).contains(x) == (d.contains(x) || c == x),
{
    let l = d.push(c);
    if d.contains(x) {
        let i = choose|i: int| 0 <= i < d.len() && d[i] == x;
        assert(l[i] == x);
    }
    if c == x {
        assert(l[d.len() as int] == x);
    }
    if l.contains(x) {
        let i = choose|i: int| 0 <= i < l.len() && l[i] == x;
        if i < d.len() {
            assert(d[i] == x);
        }
    }
}

/// Each flag letter turns on its own option and no other: reading letters
/// that are all `a`, `l` or `F` turns on exactly the options whose letters
/// occur, and leaves the other options as they were.
pub proof fn law_flags_turn_on_their_own_option(o: LsOpts, letters: Seq<char>)
    requires
        forall|i: int|
            0 <= i < letters.len() ==> #[trigger] letters[i] == 'a' || letters[i] == 'l' || letters[i]
                == 'F',
    ensures
        flags_from(o, letters) == Ok::<LsOpts, char>(
            LsOpts {
                all: o.all || letters.contains('a'),
                long: o.long || letters.contains('l'),
                classify: o.classify || letters.contains('F'),
            },
        ),
    decreases letters.len(),
{
    if letters.len() == 0 {
        assert(!letters.contains('a') && !letters.contains('l') && !letters.contains('F'));
        assert(o == LsOpts { all: o.all, long: o.long, classify: o.classify });
    } else {
        let d = letters.drop_last();
        let c = letters.last();
        assert forall|i: int| 0 <= i < d.len() implies #[trigger] d[i] == 'a' || d[i] == 'l' || d[i]
            == 'F' by {
            assert(d[i] == letters[i]);
        }
        law_flags_turn_on_their_own_option(o, d);
        assert(d.push(c) =~= letters);
        lemma_contains_push(d, c, 'a');
        lemma_contains_push(d, c, 'l');
        lemma_contains_push(d, c, 'F');
        assert(c == letters[letters.len() - 1]);
    }
}

/// `ls -<letters>` with only `a`, `l` and `F` letters lists `.` with exactly
/// the options those letters name; in particular `ls -l` leaves hidden
/// entries out and marks nothing.
pub proof fn law_ls_flag_argument(letters: Seq<char>)
    requires
        forall|i: int|
            0 <= i < letters.len() ==> #[trigger] letters[i] == 'a' || letters[i] == 'l' || letters[i]
                == 'F',
    ensures
        ls_plan(seq![seq!['-'] + letters]) == Ok::<(LsOpts, Seq<Seq<char>>), Seq<char>>(
            (
                LsOpts {
                    all: letters.contains('a'),
                    long: letters.contains('l'),
                    classify: letters.contains('F'),
                },
                seq![seq!['.']],
            ),
        ),
{
    let o = LsOpts { all: false, long: false, classify: false };
    let a = seq!['-'] + letters;
    let args = seq![a];
    assert(args.drop_last() =~= Seq::<Seq<char>>::empty());
    assert(args.last() == a);
    assert(a[0] == '-');
    assert(a.drop_first() =~= letters);
    law_flags_turn_on_their_own_option(o, letters);
    let e = Seq::<Seq<char>>::empty();
    assert(ls_options(e) == Ok::<(LsOpts, Seq<Seq<char>>), char>((o, e)));
    let p = LsOpts {
        all: letters.contains('a'),
        long: letters.contains('l'),
        classify: letters.contains('F'),
    };
    assert(ls_options(args) == Ok::<(LsOpts, Seq<Seq<char>>), char>((p, e)));
}

fn apply_flags(o: LsOpts, arg: &String) -> (r: Result<LsOpts, char>)
    requires
        arg@.len() > 0,
    ensures
        r == flags_from(o, arg@.drop_first()),
{
    let cs = chars_of(arg.as_str());
    let mut p = o;
    let mut i: usize = 1;
    assert(cs@.drop_first().take(0) =~= Seq::<char>::empty());
    while i < cs.len()
        invariant
            1 <= i <= cs.len(),
            cs@ == arg@,
            flags_from(o, cs@.drop_first().take(i - 1)) == Ok::<LsOpts, char>(p),
        decreases cs.len() - i,
    {
        let ghost l = cs@.drop_first().take(i as int);
        assert(l.drop_last() =~= cs@.drop_first().take(i - 1));
        assert(l.last() == cs@[i as int]);
        let c = cs[i];
        if c == 'a' {
            p = LsOpts { all: true, ..p };
        } else if c == 'l' {
            p = LsOpts { long: true, ..p };
        } else if c == 'F' {
            p = LsOpts { classify: true, ..p };
        } else {
            proof {
                lemma_flags_stop(o, cs@.drop_first(), i as int);
            }
            return Err(c);
        }
        i += 1;
    }
    assert(cs@.drop_first().take(cs.len() - 1) =~= cs@.drop_first());
    Ok(p)
}

/// Once a letter is refused, the letters after it do not matter.
proof fn lemma_flags_stop(o: LsOpts, letters: Seq<char>, i: int)
    requires
        1 <= i <= letters.len(),
        flags_from(o, letters.take(i)) is Err,
    ensures
        flags_from(o, letters) == flags_from(o, letters.take(i)),
    decreases letters.len() - i,
{
    if i < letters.len() {
        assert(letters.take(i + 1).drop_last() =~= letters.take(i));
        lemma_flags_stop(o, letters, i + 1);
    } else {
        assert(letters.take(i) =~= letters);
    }
}

/// Once an argument is refused, the arguments after it do not matter.
proof fn lemma_options_stop(args: Seq<Seq<char>>, i: int)
    requires
        1 <= i <= args.len(),
        ls_options(args.take(i)) is Err,
    ensures
        ls_options(args) == ls_options(args.take(i)),
    decreases args.len() - i,
{
    if i < args.len() {
        assert(args.take(i + 1).drop_last() =~= args.take(i));
        lemma_options_stop(args, i + 1);
    } else {
        assert(args.take(i) =~= args);
    }
}

/// `ls [-l] [-a] [-F] [PATH...]`: the flags and the paths to list.
pub fn run(args: &[String]) -> (r: Result<LsPlan, String>)
    ensures
        match ls_plan(views(args@)) {
            Ok((o, paths)) => r matches Ok(p) && p.opts == o && views(p.paths@) == paths,
            Err(m) => r matches Err(e) && e@ == m,
        },
{
    let mut o = LsOpts { all: false, long: false, classify: false };
    let mut paths: Vec<String> = Vec::new();
    let mut i: usize = 0;
    assert(views(args@).take(0) =~= Seq::<Seq<char>>::empty());
    assert(views(paths@) =~= Seq::<Seq<char>>::empty());
    while i < args.len()
        invariant
            i <= args.len(),
            ls_options(views(args@).take(i as int)) == Ok::<(LsOpts, Seq<Seq<char>>), char>(
                (o, views(paths@)),
            ),
        decreases args.len() - i,
    {
        let ghost w = views(args@).take(i + 1);
        assert(w.drop_last() =~= views(args@).take(i as int));
        assert(w.last() == args@[i as int]@);
        let cs = chars_of(args[i].as_str());
        if cs.len() > 0 && cs[0] == '-' {
            match apply_flags(o, &args[i]) {
                Ok(p) => {
                    o = p;
                },
                Err(c) => {
                    proof {
                        lemma_options_stop(views(args@), i + 1);
                    }
                    let mut m = String::new();
                    proof {
                        reveal_strlit("ls: unknown flag -");
                    }
                    push_str(&mut m, "ls: unknown flag -");
                    push_char(&mut m, c);
                    return Err(m);
                },
            }
        } else {
            let ghost before = views(paths@);
            paths.push(args[i].clone());
            assert(views(paths@) =~= before.push(args@[i as int]@));
        }
        i += 1;
    }
    assert(views(args@).take(args.len() as int) =~= views(args@));
    if paths.len() == 0 {
        let mut dot = String::new();
        push_char(&mut dot, '.');
        paths.push(dot);
        assert(views(paths@) =~= seq![seq!['.']]);
    }
    Ok(LsPlan { opts: o, paths })
}

/// Whether `ls` shows a directory entry called `name`: hidden entries (whose
/// name starts with `.`) only with `-a`.
pub open spec fn is_shown(name: Seq<char>, opts: LsOpts) -> bool {
    opts.all || !(name.len() > 0 && name[0] == '.')
}

/// Whether `ls` shows a directory entry called `name`.
pub fn shown(name: &str, opts: &LsOpts) -> (b: bool)
    ensures
        b == is_shown(name@, *opts),
{
    if opts.all {
        return true;
    }
    let cs = chars_of(name);
    !(cs.len() > 0 && cs[0] == '.')
}

/// The mark `-F` puts after the name in a long line: the type mark of the
/// entry (`/`, `*` or `@`), or nothing.
pub open spec fn long_mark(info: EntryInfo, opts: LsOpts) -> Seq<char> {
    if opts.classify && suffix_of(info) != ' ' {
        seq![suffix_of(info)]
    } else {
        Seq::<char>::empty()
    }
}

/// The text `ls` prints for an entry (a line): with `-l` the long line, in
/// which `-F` adds the type mark right after the name (`/` for a directory,
/// `*` for an executable, `@` for a link); with `-F` alone the name coloured
/// and marked by its type (blue and `/`, green and `*`, cyan and `@`); else
/// the name.
pub open spec fn entry_text(path: Seq<char>, info: EntryInfo, opts: LsOpts) -> Seq<char> {
    let name = shown_name(path);
    (if opts.long {
        long_line_marked(path, info, long_mark(info, opts))
    } else if opts.classify {
        if suffix_of(info) == '/' {
            "\x1b[34m"@ + name + "\x1b[0m/"@
        } else if suffix_of(info) == '*' {
            "\x1b[32m"@ + name + "\x1b[0m*"@
        } else if suffix_of(info) == '@' {
            "\x1b[36m"@ + name + "\x1b[0m@"@
        } else {
            name
        }
    } else {
        name
    }) + seq!['\n']
}

/// The line `ls` prints for an entry.
pub fn entry_line(path: &str, info: &EntryInfo, opts: &LsOpts) -> (r: String)
    ensures
        r@ == entry_text(path@, *info, *opts),
{
    let mut r = if opts.long {
        let mark = if opts.classify {
            let suffix = classify_suffix(info);
            if suffix != ' ' {
                Some(suffix)
            } else {
                None
            }
        } else {
            None
        };
        long_entry_marked(path, info, mark)
    } else {
        let name = name_for_display(path);
        if opts.classify {
            let suffix = classify_suffix(info);
            proof {
                reveal_strlit("\x1b[34m");
                reveal_strlit("\x1b[32m");
                reveal_strlit("\x1b[36m");
                reveal_strlit("\x1b[0m/");
                reveal_strlit("\x1b[0m*");
                reveal_strlit("\x1b[0m@");
            }
            if suffix == '/' {
                let mut s = String::new();
                push_str(&mut s, "\x1b[34m");
                push_str(&mut s, name.as_str());
                push_str(&mut s, "\x1b[0m/");
                s
            } else if suffix == '*' {
                let mut s = String::new();
                push_str(&mut s, "\x1b[32m");
                push_str(&mut s, name.as_str());
                push_str(&mut s, "\x1b[0m*");
                s
            } else if suffix == '@' {
                let mut s = String::new();
                push_str(&mut s, "\x1b[36m");
                push_str(&mut s, name.as_str());
                push_str(&mut s, "\x1b[0m@");
                s
            } else {
                name
            }
        } else {
            name
        }
    };
    push_char(&mut r, '\n');
    r
}

/// The names that `ls` shows, in the order given.
pub open spec fn visible_names(names: Seq<String>, opts: LsOpts) -> Seq<String>
    decreases names.len(),
{
    if names.len() == 0 {
        Seq::<String>::empty()
    } else {
        let r = visible_names(names.drop_last(), opts);
        if is_shown(names.last()@, opts) {
            r.push(names.last())
        } else {
            r
        }
    }
}

/// Leaving names out never makes one occur more often.
proof fn lemma_visible_counts(names: Seq<String>, opts: LsOpts, x: String)
    ensures
        visible_names(names, opts).to_multiset().count(x) <= names.to_multiset().count(x),
    decreases names.len(),
{
    broadcast use vstd::seq_lib::to_multiset_build;
    broadcast use vstd::multiset::group_multiset_axioms;

    if names.len() > 0 {
        lemma_visible_counts(names.drop_last(), opts, x);
        assert(names.drop_last().push(names.last()) =~= names);
    } else {
        assert(visible_names(names, opts) =~= names);
    }
}

/// The names of a directory's entries that `ls` shows, in the order it shows
/// them: hidden ones left out unless `-a` is given, the others sorted by name,
/// each kept as often as it was given (so each shown once when the directory
/// gave each name once).
pub fn visible_sorted(names: Vec<String>, opts: &LsOpts) -> (r: Vec<String>)
    ensures
        names_sorted(r@),
        r@.to_multiset() == visible_names(names@, *opts).to_multiset(),
        names@.no_duplicates() ==> r@.no_duplicates(),
{
    let mut kept: Vec<String> = Vec::new();
    let mut i: usize = 0;
    assert(names@.take(0) =~= Seq::<String>::empty());
    while i < names.len()
        invariant
            i <= names.len(),
            kept@ == visible_names(names@.take(i as int), *opts),
        decreases names.len() - i,
    {
        assert(names@.take(i + 1).drop_last() =~= names@.take(i as int));
        assert(names@.take(i + 1).last() == names@[i as int]);
        if shown(names[i].as_str(), opts) {
            kept.push(names[i].clone());
        }
        i += 1;
    }
    assert(names@.take(names.len() as int) =~= names@);
    let r = read_dir_sorted(kept);
    proof {
        if names@.no_duplicates() {
            names@.lemma_multiset_has_no_duplicates();
            assert forall|x: String| r@.to_multiset().contains(x) implies r@.to_multiset().count(x)
                == 1 by {
                lemma_visible_counts(names@, *opts, x);
            }
            r@.lemma_multiset_has_no_duplicates_conv();
        }
    }
    r
}

/// What reading an entry's metadata gave, as plain values.
pub open spec fn entry_view(e: (String, Result<EntryInfo, String>)) -> (
    Seq<char>,
    Result<EntryInfo, Seq<char>>,
) {
    (
        e.0@,
        match e.1 {
            Ok(i) => Ok(i),
            Err(m) => Err(m@),
        },
    )
}

/// The listing of the directory `dir`, given for each shown name, in order,
/// what reading the metadata of `dir` joined with that name gave: the line of
/// each entry, up to the first one whose metadata could not be read; that
/// error ends the listing.
pub open spec fn listing(
    dir: Seq<char>,
    entries: Seq<(Seq<char>, Result<EntryInfo, Seq<char>>)>,
    opts: LsOpts,
) -> (Seq<char>, Option<Seq<char>>)
    decreases entries.len(),
{
    if entries.len() == 0 {
        (Seq::<char>::empty(), None)
    } else {
        let (t, e) = listing(dir, entries.drop_last(), opts);
        match e {
            Some(m) => (t, Some(m)),
            None => match entries.last().1 {
                Err(m) => (t, Some(m)),
                Ok(info) => (t + entry_text(join(dir, entries.last().0), info, opts), None),
            },
        }
    }
}

/// Once an entry fails, the entries after it do not matter.
proof fn lemma_listing_stop(
    dir: Seq<char>,
    entries: Seq<(Seq<char>, Result<EntryInfo, Seq<char>>)>,
    opts: LsOpts,
    i: int,
)
    requires
        1 <= i <= entries.len(),
        listing(dir, entries.take(i), opts).1 is Some,
    ensures
        listing(dir, entries, opts) == listing(dir, entries.take(i), opts),
    decreases entries.len() - i,
{
    if i < entries.len() {
        assert(entries.take(i + 1).drop_last() =~= entries.take(i));
        lemma_listing_stop(dir, entries, opts, i + 1);
    } else {
        assert(entries.take(i) =~= entries);
    }
}

/// The text of the listing of directory `dir` and the error that ends it, if any.
pub fn listing_text(dir: &str, entries: &Vec<(String, Result<EntryInfo, String>)>, opts: &LsOpts) -> (r: (
    String,
    Option<String>,
))
    ensures
        r.0@ == listing(dir@, entries@.map_values(|e| entry_view(e)), *opts).0,
        opt_view(r.1) == listing(dir@, entries@.map_values(|e| entry_view(e)), *opts).1,
{
    let ghost ev = entries@.map_values(|e: (String, Result<EntryInfo, String>)| entry_view(e));
    let mut t = String::new();
    let mut i: usize = 0;
    assert(ev.take(0) =~= Seq::<(Seq<char>, Result<EntryInfo, Seq<char>>)>::empty());
    while i < entries.len()
        invariant
            i <= entries.len(),
            ev == entries@.map_values(|e: (String, Result<EntryInfo, String>)| entry_view(e)),
            listing(dir@, ev.take(i as int), *opts) == (t@, None::<Seq<char>>),
        decreases entries.len() - i,
    {
        assert(ev.take(i + 1).drop_last() =~= ev.take(i as int));
        assert(ev.take(i + 1).last() == entry_view(entries@[i as int]));
        match &entries[i].1 {
            Err(m) => {
                proof {
                    lemma_listing_stop(dir@, ev, *opts, i + 1);
                }
                return (t, Some(m.clone()));
            },
            Ok(info) => {
                let path = join_path(dir, entries[i].0.as_str());
                let line = entry_line(path.as_str(), info, opts);
                push_str(&mut t, line.as_str());
            },
        }
        i += 1;
    }
    assert(ev.take(entries.len() as int) =~= ev);
    (t, None)
}

impl LsPlan {
    /// What `ls` prints for the `i`-th path when it is a directory, and the
    /// error that ends it, if any. `entries` is what reading the directory
    /// gave: for each shown name, in the order shown, what reading its
    /// metadata gave. The heading comes first (see `dir_header`); a failed
    /// read of the directory ends there with its error; otherwise the listing
    /// follows, and, when it ends without error, the empty line of `gap_after`.
    pub fn dir_text(&self, i: usize, entries: Result<Vec<(String, Result<EntryInfo, String>)>, String>) -> (r: (
        String,
        Option<String>,
    ))
        requires
            i < self.paths.len(),
        ensures
            ({
                let head = if self.paths.len() > 1 {
                    self.paths@[i as int]@ + seq![':', '\n']
                } else {
                    Seq::<char>::empty()
                };
                match entries {
                    Err(e) => r.0@ == head && opt_view(r.1) == Some(e@),
                    Ok(es) => {
                        let (t, err) = listing(
                            self.paths@[i as int]@,
                            es@.map_values(|e| entry_view(e)),
                            self.opts,
                        );
                        &&& opt_view(r.1) == err
                        &&& r.0@ == if err is None && i + 1 < self.paths.len() {
                            head + t + seq!['\n']
                        } else {
                            head + t
                        }
                    },
                }
            }),
    {
        let mut r = match self.dir_header(i) {
            Some(h) => h,
            None => String::new(),
        };
        match entries {
            Err(e) => (r, Some(e)),
            Ok(es) => {
                let (t, err) = listing_text(self.paths[i].as_str(), &es, &self.opts);
                push_str(&mut r, t.as_str());
                if err.is_none() && self.gap_after(i) {
                    push_char(&mut r, '\n');
                }
                (r, err)
            },
        }
    }

    /// The heading printed before the listing of the `i`-th path when it is a
    /// directory: `<path>:` on a line of its own, only when several paths are listed.
    pub fn dir_header(&self, i: usize) -> (r: Option<String>)
        requires
            i < self.paths.len(),
        ensures
            self.paths.len() > 1 ==> (r matches Some(s) && s@ == self.paths@[i as int]@ + seq![':', '\n']),
            self.paths.len() <= 1 ==> r is None,
    {
        if self.paths.len() > 1 {
            let mut s = self.paths[i].clone();
            push_char(&mut s, ':');
            push_char(&mut s, '\n');
            Some(s)
        } else {
            None
        }
    }

    /// Whether an empty line follows the listing of the `i`-th path when it is
    /// a directory: only when another path comes after it.
    pub fn gap_after(&self, i: usize) -> (b: bool)
        requires
            i < self.paths.len(),
        ensures
            b == (i + 1 < self.paths.len()),
    {
        i + 1 < self.paths.len()
    }
}

} // verus!
