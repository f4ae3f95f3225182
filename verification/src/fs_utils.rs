//! Paths and directory entries: the final component of a path, joining a
//! directory and a name, the `ls -l` permission string and long line, the
//! `ls -F` suffix, and the sorted order of directory entries.

use vstd::prelude::*;
use crate::text::{
    chars_of, decimal, decimal_padded, lemma_split_on_extend, lemma_split_on_nonempty,
    lemma_split_on_pieces, pad_left, push_char, push_decimal, push_str, split_on,
    string_of,
};

verus! {

broadcast use vstd::string::group_string_axioms;

/// What a path's piece between slashes contributes as the last component:
/// empty pieces and `.` pieces after the first one are skipped; everything
/// else (including a leading `.`, the current directory) is a component.
pub open spec fn last_component(ps: Seq<Seq<char>>) -> Option<Seq<char>>
    decreases ps.len(),
{
    if ps.len() == 0 {
        None
    } else if ps.last().len() == 0 || (ps.last() == seq!['.'] && ps.len() > 1) {
        last_component(ps.drop_last())
    } else {
        Some(ps.last())
    }
}

/// The final component of a path, when it is a name (what `Path::file_name`
/// gives on Unix): `None` for a path that is empty, the root, or that ends in
/// `.` or `..` once trailing slashes and `.` components are ignored.
pub open spec fn file_name(path: Seq<char>) -> Option<Seq<char>> {
    match last_component(split_on(path, '/')) {
        Some(c) => if c == seq!['.'] || c == seq!['.', '.'] {
            None
        } else {
            Some(c)
        },
        None => None,
    }
}

/// `dir` followed by `name`, with a `/` between them unless `dir` is empty or
/// already ends in one (what `Path::join` gives for a relative name).
pub open spec fn join(dir: Seq<char>, name: Seq<char>) -> Seq<char> {
    if dir.len() > 0 && dir.last() != '/' {
        dir + seq!['/'] + name
    } else {
        dir + name
    }
}

/// The final component of a path, when it is a name.
pub fn path_file_name(path: &str) -> (r: Option<String>)
    ensures
        match file_name(path@) {
            Some(n) => r matches Some(s) && s@ == n,
            None => r is None,
        },
{
    let cs = chars_of(path);
    // `last` is the last component among the finished pieces, as a range.
    let mut last: Option<(usize, usize)> = None;
    let mut start: usize = 0;
    let mut i: usize = 0;
    let mut count: usize = 0;
    assert(cs@.subrange(0, 0) =~= Seq::<char>::empty());
    while i < cs.len()
        invariant
            start <= i <= cs.len(),
            count <= i,
            split_on(cs@.subrange(0, i as int), '/').len() >= 1,
            count == split_on(cs@.subrange(0, i as int), '/').len() - 1,
            split_on(cs@.subrange(0, i as int), '/').last() == cs@.subrange(start as int, i as int),
            match last {
                Some((a, b)) => a <= b <= i && last_component(
                    split_on(cs@.subrange(0, i as int), '/').drop_last(),
                ) == Some(cs@.subrange(a as int, b as int)),
                None => last_component(split_on(cs@.subrange(0, i as int), '/').drop_last()) is None,
            },
        decreases cs.len() - i,
    {
        let ghost s = cs@.subrange(0, i as int);
        let ghost p = split_on(s, '/');
        let ghost s1 = cs@.subrange(0, i + 1);
        assert(s1.drop_last() =~= s);
        assert(s1.last() == cs@[i as int]);
        if cs[i] == '/' {
            assert(split_on(s1, '/') == p.push(Seq::<char>::empty()));
            assert(split_on(s1, '/').drop_last() =~= p);
            assert(p.drop_last().push(p.last()) =~= p);
            let empty = start == i;
            let dot = i - start == 1 && cs[start] == '.';
            assert(dot == (cs@.subrange(start as int, i as int) == seq!['.'])) by {
                if dot {
                    assert(cs@.subrange(start as int, i as int) =~= seq!['.']);
                }
                if cs@.subrange(start as int, i as int) == seq!['.'] {
                    assert(cs@.subrange(start as int, i as int).len() == 1);
                    assert(cs@.subrange(start as int, i as int)[0] == cs@[start as int]);
                }
            }
            if !(empty || (dot && count > 0)) {
                last = Some((start, i));
            }
            start = i + 1;
            count += 1;
            assert(cs@.subrange(start as int, i + 1) =~= Seq::<char>::empty());
        } else {
            assert(split_on(s1, '/') == p.update(p.len() - 1, p.last().push(cs@[i as int])));
            assert(split_on(s1, '/').drop_last() =~= p.drop_last());
            assert(cs@.subrange(start as int, i + 1) =~= cs@.subrange(start as int, i as int).push(
                cs@[i as int],
            ));
        }
        i += 1;
    }
    assert(cs@.subrange(0, cs.len() as int) =~= cs@);
    let ghost p = split_on(cs@, '/');
    assert(p.drop_last().push(p.last()) =~= p);
    let empty = start == cs.len();
    let dot = cs.len() - start == 1 && cs[start] == '.';
    assert(dot == (cs@.subrange(start as int, cs.len() as int) == seq!['.'])) by {
        if dot {
            assert(cs@.subrange(start as int, cs.len() as int) =~= seq!['.']);
        }
        if cs@.subrange(start as int, cs.len() as int) == seq!['.'] {
            assert(cs@.subrange(start as int, cs.len() as int).len() == 1);
            assert(cs@.subrange(start as int, cs.len() as int)[0] == cs@[start as int]);
        }
    }
    if !(empty || (dot && count > 0)) {
        last = Some((start, cs.len()));
    }
    match last {
        None => None,
        Some((a, b)) => {
            let single_dot = b - a == 1 && cs[a] == '.';
            let double_dot = b - a == 2 && cs[a] == '.' && cs[a + 1] == '.';
            let ghost c = cs@.subrange(a as int, b as int);
            assert(single_dot == (c == seq!['.'])) by {
                if single_dot {
                    assert(c =~= seq!['.']);
                }
                if c == seq!['.'] {
                    assert(c.len() == 1);
                    assert(c[0] == cs@[a as int]);
                }
            }
            assert(double_dot == (c == seq!['.', '.'])) by {
                if double_dot {
                    assert(c =~= seq!['.', '.']);
                }
                if c == seq!['.', '.'] {
                    assert(c.len() == 2);
                    assert(c[0] == cs@[a as int]);
                    assert(c[1] == cs@[a + 1]);
                }
            }
            if single_dot || double_dot {
                None
            } else {
                Some(string_of(&cs, a, b))
            }
        },
    }
}

/// Joins a directory and a relative name.
pub fn join_path(dir: &str, name: &str) -> (r: String)
    ensures
        r@ == join(dir@, name@),
{
    let d = chars_of(dir);
    let mut r = string_of(&d, 0, d.len());
    assert(d@.subrange(0, d@.len() as int) =~= d@);
    if d.len() > 0 && d[d.len() - 1] != '/' {
        push_char(&mut r, '/');
    }
    push_str(&mut r, name);
    r
}

/// The type of a directory entry, as `symlink_metadata` reports it.
#[derive(Debug, Clone, Copy, PartialEq, Eq)]
pub enum FileKind {
    Dir,
    Symlink,
    CharDevice,
    BlockDevice,
    Fifo,
    Socket,
    File,
}

/// What `ls` shows of an entry: its type, permission bits, size and
/// modification time in seconds since the Unix epoch.
#[derive(Debug, Clone, Copy, PartialEq, Eq)]
pub struct EntryInfo {
    pub kind: FileKind,
    pub mode: u32,
    pub size: u64,
    pub modified: u64,
}

/// The letter that starts the permission string of an entry of kind `k`.
pub open spec fn kind_letter(k: FileKind) -> char {
    match k {
        FileKind::Dir => 'd',
        FileKind::Symlink => 'l',
        FileKind::CharDevice => 'c',
        FileKind::BlockDevice => 'b',
        FileKind::Fifo => 'p',
        FileKind::Socket => 's',
        FileKind::File => '-',
    }
}

/// `c` when the permission bit `bit` is set in `mode`, `-` otherwise.
pub open spec fn perm_letter(mode: u32, bit: u32, c: char) -> char {
    if mode & bit != 0 {
        c
    } else {
        '-'
    }
}

/// The ten-character permission string: the type letter, then read, write and
/// execute for owner, group and others.
pub open spec fn mode_text(k: FileKind, mode: u32) -> Seq<char> {
    seq![
        kind_letter(k),
        perm_letter(mode, 0o400, 'r'),
        perm_letter(mode, 0o200, 'w'),
        perm_letter(mode, 0o100, 'x'),
        perm_letter(mode, 0o040, 'r'),
        perm_letter(mode, 0o020, 'w'),
        perm_letter(mode, 0o010, 'x'),
        perm_letter(mode, 0o004, 'r'),
        perm_letter(mode, 0o002, 'w'),
        perm_letter(mode, 0o001, 'x'),
    ]
}

fn perm(mode: u32, bit: u32, c: char) -> (r: char)
    ensures
        r == perm_letter(mode, bit, c),
{
    if mode & bit != 0 {
        c
    } else {
        '-'
    }
}

/// The permission string shown by `ls -l`.
pub fn mode_to_string(kind: FileKind, mode: u32) -> (r: String)
    ensures
        r@ == mode_text(kind, mode),
{
    let mut r = String::new();
    let k = match kind {
        FileKind::Dir => 'd',
        FileKind::Symlink => 'l',
        FileKind::CharDevice => 'c',
        FileKind::BlockDevice => 'b',
        FileKind::Fifo => 'p',
        FileKind::Socket => 's',
        FileKind::File => '-',
    };
    push_char(&mut r, k);
    push_char(&mut r, perm(mode, 0o400, 'r'));
    push_char(&mut r, perm(mode, 0o200, 'w'));
    push_char(&mut r, perm(mode, 0o100, 'x'));
    push_char(&mut r, perm(mode, 0o040, 'r'));
    push_char(&mut r, perm(mode, 0o020, 'w'));
    push_char(&mut r, perm(mode, 0o010, 'x'));
    push_char(&mut r, perm(mode, 0o004, 'r'));
    push_char(&mut r, perm(mode, 0o002, 'w'));
    push_char(&mut r, perm(mode, 0o001, 'x'));
    assert(r@ =~= mode_text(kind, mode));
    r
}

/// Whether any execute bit is set in `mode`.
pub open spec fn executable(mode: u32) -> bool {
    mode & 0o111 != 0
}

/// Whether any execute bit is set in `mode`.
pub fn is_executable(mode: u32) -> (b: bool)
    ensures
        b == executable(mode),
{
    mode & 0o111 != 0
}

/// The character `ls -F` appends to an entry: `/` for a directory, `@` for a
/// symbolic link, `*` for an executable, a space otherwise.
pub open spec fn suffix_of(info: EntryInfo) -> char {
    match info.kind {
        FileKind::Dir => '/',
        FileKind::Symlink => '@',
        _ => if executable(info.mode) {
            '*'
        } else {
            ' '
        },
    }
}

/// The character `ls -F` appends to an entry.
pub fn classify_suffix(info: &EntryInfo) -> (c: char)
    ensures
        c == suffix_of(*info),
{
    match info.kind {
        FileKind::Dir => '/',
        FileKind::Symlink => '@',
        _ => if is_executable(info.mode) {
            '*'
        } else {
            ' '
        },
    }
}

/// The name `ls` shows for a path: its final component, or nothing.
pub open spec fn shown_name(path: Seq<char>) -> Seq<char> {
    match file_name(path) {
        Some(n) => n,
        None => Seq::<char>::empty(),
    }
}

/// The line `ls -l` prints for an entry: permissions, a link count field that
/// always shows 0 in eight columns, the size in ten columns, the name, and the
/// modification time in seconds.
pub open spec fn long_line(path: Seq<char>, info: EntryInfo) -> Seq<char> {
    long_line_marked(path, info, Seq::<char>::empty())
}

/// The long line with `mark` written right after the name.
pub open spec fn long_line_marked(path: Seq<char>, info: EntryInfo, mark: Seq<char>) -> Seq<char> {
    mode_text(info.kind, info.mode) + seq![' '] + pad_left(decimal(0), 8) + seq![' ']
        + pad_left(decimal(info.size as nat), 10) + seq![' '] + shown_name(path) + mark + seq![
        ' ',
        ' ',
    ] + decimal(info.modified as nat)
}

/// The name `ls` shows for a path.
pub fn name_for_display(path: &str) -> (r: String)
    ensures
        r@ == shown_name(path@),
{
    match path_file_name(path) {
        Some(n) => n,
        None => String::new(),
    }
}

/// The line `ls -l` prints for an entry.
pub fn long_entry(path: &str, info: &EntryInfo) -> (r: String)
    ensures
        r@ == long_line(path@, *info),
{
    long_entry_marked(path, info, None)
}

/// The long line for an entry, with the character `mark`, if any, right after the name.
pub fn long_entry_marked(path: &str, info: &EntryInfo, mark: Option<char>) -> (r: String)
    ensures
        r@ == long_line_marked(
            path@,
            *info,
            match mark {
                Some(c) => seq![c],
                None => Seq::<char>::empty(),
            },
        ),
{
    let mut r = mode_to_string(info.kind, info.mode);
    push_char(&mut r, ' ');
    let links = decimal_padded(0, 8);
    push_str(&mut r, links.as_str());
    push_char(&mut r, ' ');
    let size = decimal_padded(info.size, 10);
    push_str(&mut r, size.as_str());
    push_char(&mut r, ' ');
    let name = name_for_display(path);
    push_str(&mut r, name.as_str());
    match mark {
        Some(c) => push_char(&mut r, c),
        None => {},
    }
    push_char(&mut r, ' ');
    push_char(&mut r, ' ');
    push_decimal(&mut r, info.modified);
    r
}

/// Whether `a` comes no later than `b` in the order of their characters' code
/// points (for UTF-8 text, the order of their bytes, which is how file names
/// compare).
pub open spec fn name_le(a: Seq<char>, b: Seq<char>) -> bool
    decreases a.len(),
{
    if a.len() == 0 {
        true
    } else if b.len() == 0 {
        false
    } else if a[0] != b[0] {
        a[0] < b[0]
    } else {
        name_le(a.drop_first(), b.drop_first())
    }
}

pub proof fn lemma_name_le_total(a: Seq<char>, b: Seq<char>)
    ensures
        name_le(a, b) || name_le(b, a),
    decreases a.len(),
{
    if a.len() > 0 && b.len() > 0 && a[0] == b[0] {
        lemma_name_le_total(a.drop_first(), b.drop_first());
    }
}

pub proof fn lemma_name_le_trans(a: Seq<char>, b: Seq<char>, c: Seq<char>)
    requires
        name_le(a, b),
        name_le(b, c),
    ensures
        name_le(a, c),
    decreases a.len(),
{
    if a.len() > 0 && b.len() > 0 && c.len() > 0 {
        if a[0] == b[0] && b[0] == c[0] {
            lemma_name_le_trans(a.drop_first(), b.drop_first(), c.drop_first());
        }
    }
}

/// Whether `a` comes no later than `b`.
fn name_le_exec(a: &String, b: &String) -> (r: bool)
    ensures
        r == name_le(a@, b@),
{
    let x = chars_of(a.as_str());
    let y = chars_of(b.as_str());
    let mut k: usize = 0;
    assert(x@.skip(0) =~= x@);
    assert(y@.skip(0) =~= y@);
    while k < x.len() && k < y.len() && x[k] == y[k]
        invariant
            k <= x.len(),
            k <= y.len(),
            name_le(x@, y@) == name_le(x@.skip(k as int), y@.skip(k as int)),
        decreases x.len() - k,
    {
        assert(x@.skip(k as int).drop_first() =~= x@.skip(k + 1));
        assert(y@.skip(k as int).drop_first() =~= y@.skip(k + 1));
        k += 1;
    }
    if k == x.len() {
        true
    } else if k == y.len() {
        false
    } else {
        assert(x@.skip(k as int)[0] == x@[k as int]);
        assert(y@.skip(k as int)[0] == y@[k as int]);
        x[k] < y[k]
    }
}

/// Whether the names are in order.
pub open spec fn names_sorted(s: Seq<String>) -> bool {
    forall|i: int, j: int| 0 <= i < j < s.len() ==> name_le(#[trigger] s[i]@, #[trigger] s[j]@)
}

/// The entry names of a directory listing in the order `ls` shows them:
/// sorted by name, each name kept as often as it was given.
pub fn read_dir_sorted(names: Vec<String>) -> (r: Vec<String>)
    ensures
        names_sorted(r@),
        r@.to_multiset() == names@.to_multiset(),
{
    broadcast use vstd::seq_lib::to_multiset_build, vstd::seq_lib::to_multiset_insert;

    let mut r: Vec<String> = Vec::new();
    let mut i: usize = 0;
    assert(names@.take(0) =~= Seq::<String>::empty());
    while i < names.len()
        invariant
            i <= names.len(),
            names_sorted(r@),
            r@.to_multiset() == names@.take(i as int).to_multiset(),
        decreases names.len() - i,
    {
        let x = names[i].clone();
        let mut k: usize = 0;
        while k < r.len() && name_le_exec(&r[k], &x)
            invariant
                k <= r.len(),
                forall|j: int| 0 <= j < k ==> name_le(#[trigger] r@[j]@, x@),
            decreases r.len() - k,
        {
            k += 1;
        }
        let ghost old_r = r@;
        proof {
            if k < r.len() {
                lemma_name_le_total(r@[k as int]@, x@);
            }
        }
        r.insert(k, x);
        proof {
            assert forall|a: int, b: int| 0 <= a < b < r@.len() implies name_le(
                #[trigger] r@[a]@,
                #[trigger] r@[b]@,
            ) by {
                if b < k {
                    assert(r@[a] == old_r[a] && r@[b] == old_r[b]);
                } else if b == k {
                    assert(r@[a] == old_r[a]);
                } else if a == k {
                    assert(r@[b] == old_r[b - 1]);
                    if b - 1 > k {
                        lemma_name_le_trans(x@, old_r[k as int]@, old_r[b - 1]@);
                    }
                } else if a < k {
                    assert(r@[a] == old_r[a] && r@[b] == old_r[b - 1]);
                } else {
                    assert(r@[a] == old_r[a - 1] && r@[b] == old_r[b - 1]);
                }
            }
            assert(r@ == old_r.insert(k as int, names@[i as int]));
            vstd::seq_lib::to_multiset_insert(old_r, k as int, names@[i as int]);
            assert(names@.take(i + 1) =~= names@.take(i as int).push(names@[i as int]));
            vstd::seq_lib::to_multiset_build(names@.take(i as int), names@[i as int]);
        }
        i += 1;
    }
    assert(names@.take(names.len() as int) =~= names@);
    r
}

/// A name that can stand as the last component of a path: not empty, without
/// `/`, and neither `.` nor `..`.
pub open spec fn plain_name(n: Seq<char>) -> bool {
    &&& n.len() > 0
    &&& forall|i: int| 0 <= i < n.len() ==> #[trigger] n[i] != '/'
    &&& n != seq!['.']
    &&& n != seq!['.', '.']
}

/// Joining a directory and a name gives a path whose final component is that name.
pub proof fn law_join_then_file_name(dir: Seq<char>, n: Seq<char>)
    requires
        plain_name(n),
    ensures
        file_name(join(dir, n)) == Some(n),
{
    let base = if dir.len() > 0 && dir.last() != '/' {
        dir + seq!['/']
    } else {
        dir
    };
    assert(join(dir, n) == base + n);
    lemma_split_on_nonempty(dir, '/');
    assert(split_on(base, '/').last() == Seq::<char>::empty()) by {
        if dir.len() > 0 && dir.last() != '/' {
            assert(base.drop_last() =~= dir);
            assert(base.last() == '/');
        } else if dir.len() > 0 {
            assert(dir.last() == '/');
        }
    }
    lemma_split_on_extend(base, n, '/');
    assert(Seq::<char>::empty() + n =~= n);
    lemma_split_on_nonempty(base + n, '/');
}

/// A final component is always a plain name.
pub proof fn law_file_name_is_plain(path: Seq<char>)
    ensures
        file_name(path) matches Some(n) ==> plain_name(n),
{
    lemma_split_on_pieces(path, '/');
    lemma_last_component_piece(split_on(path, '/'));
}

proof fn lemma_last_component_piece(ps: Seq<Seq<char>>)
    ensures
        last_component(ps) matches Some(c) ==> c.len() > 0 && exists|k: int|
            0 <= k < ps.len() && ps[k] == c,
    decreases ps.len(),
{
    if ps.len() > 0 {
        lemma_last_component_piece(ps.drop_last());
        if let Some(c) = last_component(ps.drop_last()) {
            if ps.last().len() == 0 || (ps.last() == seq!['.'] && ps.len() > 1) {
                let k = choose|k: int| 0 <= k < ps.drop_last().len() && ps.drop_last()[k] == c;
                assert(ps[k] == c);
            }
        }
        if !(ps.last().len() == 0 || (ps.last() == seq!['.'] && ps.len() > 1)) {
            assert(ps[ps.len() - 1] == ps.last());
        }
    }
}

} // verus!
