//! Splitting a command line into words (quotes and backslash escapes) and
//! expanding `$NAME` variables and a leading `~`.

use vstd::prelude::*;
use crate::text::{
    chars_of, is_whitespace, is_ws, joined, push_char, push_range, push_str, string_of, views,
};

verus! {

broadcast use vstd::string::group_string_axioms;

/// Where the word splitter stands after reading some characters:
/// `(finished words, current word, inside '...', inside "...", after a backslash)`.
pub type LexState = (Seq<Seq<char>>, Seq<char>, bool, bool, bool);

/// The state before any character is read.
pub open spec fn lex_init() -> LexState {
    (Seq::<Seq<char>>::empty(), Seq::<char>::empty(), false, false, false)
}

/// Reading one character.
///
/// After a backslash the character is taken literally. Outside double quotes a
/// single quote opens or closes a single-quoted part; outside single quotes a
/// double quote opens or closes a double-quoted part and a backslash escapes the
/// next character. Whitespace outside quotes ends the current word, if it has
/// characters. Every other character joins the current word.
pub open spec fn lex_step(st: LexState, c: char) -> LexState {
    let (words, buf, single, double, escaped) = st;
    if escaped {
        (words, buf.push(c), single, double, false)
    } else if c == '\'' && !double {
        (words, buf, !single, double, false)
    } else if c == '"' && !single {
        (words, buf, single, !double, false)
    } else if c == '\\' && !single {
        (words, buf, single, double, true)
    } else if is_ws(c) && !single && !double {
        if buf.len() > 0 {
            (words.push(buf), Seq::<char>::empty(), single, double, false)
        } else {
            (words, buf, single, double, false)
        }
    } else {
        (words, buf.push(c), single, double, false)
    }
}

/// Reading the characters of `s` in order, starting from `st`.
pub open spec fn lex_from(st: LexState, s: Seq<char>) -> LexState
    decreases s.len(),
{
    if s.len() == 0 {
        st
    } else {
        lex_step(lex_from(st, s.drop_last()), s.last())
    }
}

/// The words of a command line, or `Err` when a quote is left open.
/// A backslash at the very end is dropped.
pub open spec fn words_of(s: Seq<char>) -> Result<Seq<Seq<char>>, ()> {
    let (words, buf, single, double, _) = lex_from(lex_init(), s);
    if single || double {
        Err(())
    } else if buf.len() > 0 {
        Ok(words.push(buf))
    } else {
        Ok(words)
    }
}

/// Splits a command line into words, honouring single quotes, double quotes and
/// backslash escapes; fails with "unclosed quotes" when a quote is left open.
pub fn split_words(input: &str) -> (res: Result<Vec<String>, &'static str>)
    ensures
        match words_of(input@) {
            Ok(ws) => res matches Ok(v) && views(v@) == ws,
            Err(_) => res matches Err(e) && e@ == "unclosed quotes"@,
        },
{
    let cs = chars_of(input);
    let mut out: Vec<String> = Vec::new();
    let mut buf = String::new();
    let mut single = false;
    let mut double = false;
    let mut escaped = false;
    let mut i: usize = 0;
    assert(cs@.take(0) =~= Seq::<char>::empty());
    while i < cs.len()
        invariant
            i <= cs.len(),
            lex_from(lex_init(), cs@.take(i as int)) == (views(out@), buf@, single, double, escaped),
        decreases cs.len() - i,
    {
        let c = cs[i];
        let ghost before = (views(out@), buf@, single, double, escaped);
        if escaped {
            push_char(&mut buf, c);
            escaped = false;
        } else if c == '\'' && !double {
            single = !single;
        } else if c == '"' && !single {
            double = !double;
        } else if c == '\\' && !single {
            escaped = true;
        } else if is_whitespace(c) && !single && !double {
            if !buf.as_str().is_empty() {
                let w = buf;
                out.push(w);
                buf = String::new();
                assert(views(out@) =~= before.0.push(before.1));
            }
        } else {
            push_char(&mut buf, c);
        }
        assert(cs@.take(i + 1).drop_last() =~= cs@.take(i as int));
        assert(lex_step(before, c) == (views(out@), buf@, single, double, escaped));
        i += 1;
    }
    assert(cs@.take(cs.len() as int) =~= cs@);
    if single || double {
        proof {
            reveal_strlit("unclosed quotes");
        }
        return Err("unclosed quotes");
    }
    if !buf.as_str().is_empty() {
        let ghost w0 = views(out@);
        out.push(buf);
        assert(views(out@) =~= w0.push(buf@));
    }
    Ok(out)
}

/// A snapshot of the process environment: name and value of each variable
/// whose value is valid Unicode.
pub struct Env {
    pub vars: Vec<(String, String)>,
}

impl View for Env {
    type V = Seq<(Seq<char>, Seq<char>)>;

    open spec fn view(&self) -> Seq<(Seq<char>, Seq<char>)> {
        self.vars@.map_values(|p: (String, String)| (p.0@, p.1@))
    }
}

/// The value of the variable `name`: that of its first entry, if any.
pub open spec fn env_lookup(env: Seq<(Seq<char>, Seq<char>)>, name: Seq<char>) -> Option<Seq<char>>
    decreases env.len(),
{
    if env.len() == 0 {
        None
    } else if env[0].0 == name {
        Some(env[0].1)
    } else {
        env_lookup(env.drop_first(), name)
    }
}

impl Env {
    /// An environment with the given variables.
    pub fn new(vars: Vec<(String, String)>) -> (e: Env)
        ensures
            e.vars == vars,
    {
        Env { vars }
    }

    /// The value of the variable `name`, if it is set.
    pub fn get(&self, name: &str) -> (r: Option<String>)
        ensures
            match env_lookup(self@, name@) {
                Some(v) => r matches Some(s) && s@ == v,
                None => r is None,
            },
    {
        let key_chars = chars_of(name);
        let key = string_of(&key_chars, 0, key_chars.len());
        assert(key_chars@.subrange(0, key_chars@.len() as int) =~= key_chars@);
        let mut i: usize = 0;
        assert(self@.skip(0) =~= self@);
        while i < self.vars.len()
            invariant
                i <= self.vars.len(),
                key@ == name@,
                env_lookup(self@, name@) == env_lookup(self@.skip(i as int), name@),
            decreases self.vars.len() - i,
        {
            assert(self@.skip(i as int).drop_first() =~= self@.skip(i + 1));
            assert(self@.skip(i as int)[0] == (self.vars[i as int].0@, self.vars[i as int].1@));
            if self.vars[i].0 == key {
                return Some(self.vars[i].1.clone());
            }
            i += 1;
        }
        None
    }
}

/// A character that may appear in a variable name: ASCII letter, digit or `_`.
pub open spec fn is_name_char(c: char) -> bool {
    ('a' <= c && c <= 'z') || ('A' <= c && c <= 'Z') || ('0' <= c && c <= '9') || c == '_'
}

fn name_char(c: char) -> (b: bool)
    ensures
        b == is_name_char(c),
{
    ('a' <= c && c <= 'z') || ('A' <= c && c <= 'Z') || ('0' <= c && c <= '9') || c == '_'
}

/// The length of the variable name at the start of `s`.
pub open spec fn name_len(s: Seq<char>) -> nat
    decreases s.len(),
{
    if s.len() > 0 && is_name_char(s[0]) {
        1 + name_len(s.drop_first())
    } else {
        0
    }
}

pub proof fn lemma_name_len_bound(s: Seq<char>)
    ensures
        name_len(s) <= s.len(),
    decreases s.len(),
{
    if s.len() > 0 && is_name_char(s[0]) {
        lemma_name_len_bound(s.drop_first());
    }
}

proof fn lemma_name_len_exact(s: Seq<char>, k: int)
    requires
        0 <= k <= s.len(),
        forall|j: int| 0 <= j < k ==> is_name_char(#[trigger] s[j]),
        k == s.len() || !is_name_char(s[k]),
    ensures
        name_len(s) == k,
    decreases k,
{
    if k > 0 {
        assert forall|j: int| 0 <= j < k - 1 implies is_name_char(#[trigger] s.drop_first()[j]) by {
            assert(s.drop_first()[j] == s[j + 1]);
        }
        lemma_name_len_exact(s.drop_first(), k - 1);
    }
}

/// `s` with each `$NAME` replaced by the value of `NAME` (nothing when unset);
/// a `$` that no name follows stays as it is.
pub open spec fn expand_vars(s: Seq<char>, env: Seq<(Seq<char>, Seq<char>)>) -> Seq<char>
    decreases s.len(),
{
    if s.len() == 0 {
        Seq::<char>::empty()
    } else if s[0] == '$' && name_len(s.drop_first()) > 0 {
        let n: int = name_len(s.drop_first()) as int;
        proof {
            lemma_name_len_bound(s.drop_first());
        }
        let value = match env_lookup(env, s.subrange(1, n + 1)) {
            Some(v) => v,
            None => Seq::<char>::empty(),
        };
        value + expand_vars(s.skip(n + 1), env)
    } else {
        seq![s[0]] + expand_vars(s.drop_first(), env)
    }
}

/// `t` with a leading `~` replaced by `HOME`, when `HOME` is set: a word that
/// is just `~` becomes the home directory, and `~/rest` becomes `HOME/rest`.
pub open spec fn expand_tilde(t: Seq<char>, env: Seq<(Seq<char>, Seq<char>)>) -> Seq<char> {
    match env_lookup(env, "HOME"@) {
        Some(home) => if t == seq!['~'] {
            home
        } else if t.len() >= 2 && t[0] == '~' && t[1] == '/' {
            home + seq!['/'] + t.skip(2)
        } else {
            t
        },
        None => t,
    }
}

/// The expansion of one word: the tilde first, then the variables.
pub open spec fn expand_word(t: Seq<char>, env: Seq<(Seq<char>, Seq<char>)>) -> Seq<char> {
    expand_vars(expand_tilde(t, env), env)
}

fn tilde_word(t: &String, env: &Env) -> (r: Vec<char>)
    ensures
        r@ == expand_tilde(t@, env@),
{
    let cs = chars_of(t.as_str());
    proof {
        reveal_strlit("HOME");
    }
    if cs.len() > 0 && cs[0] == '~' {
        match env.get("HOME") {
            Some(home) => {
                if cs.len() == 1 {
                    assert(cs@ =~= seq!['~']);
                    return chars_of(home.as_str());
                } else if cs[1] == '/' {
                    let mut s = home;
                    push_char(&mut s, '/');
                    push_range(&mut s, &cs, 2, cs.len());
                    assert(cs@.subrange(2, cs@.len() as int) =~= cs@.skip(2));
                    return chars_of(s.as_str());
                } else {
                    assert(cs@ != seq!['~']) by {
                        assert(cs@.len() != 1);
                    }
                }
            },
            None => {},
        }
    } else {
        assert(cs@ != seq!['~']) by {
            if cs@.len() == 1 {
                assert(seq!['~'][0] == '~');
            }
        }
    }
    cs
}

/// Expands one word: a leading `~` (when `HOME` is set), then `$NAME` variables.
pub fn expand_one(t: &String, env: &Env) -> (r: String)
    ensures
        r@ == expand_word(t@, env@),
{
    let cs = tilde_word(t, env);
    let mut out = String::new();
    let mut i: usize = 0;
    assert(cs@.skip(0) =~= cs@);
    while i < cs.len()
        invariant
            i <= cs.len(),
            expand_vars(cs@, env@) == out@ + expand_vars(cs@.skip(i as int), env@),
        decreases cs.len() - i,
    {
        let ghost rest = cs@.skip(i as int);
        let c = cs[i];
        let mut j = i + 1;
        if c == '$' {
            while j < cs.len() && name_char(cs[j])
                invariant
                    i < j <= cs.len(),
                    forall|k: int| i < k < j ==> is_name_char(#[trigger] cs@[k]),
                decreases cs.len() - j,
            {
                j += 1;
            }
            proof {
                let tail = rest.drop_first();
                assert forall|k: int| 0 <= k < j - i - 1 implies is_name_char(#[trigger] tail[k]) by {
                    assert(tail[k] == cs@[i + 1 + k]);
                }
                if j < cs.len() {
                    assert(tail[j - i - 1] == cs@[j as int]);
                }
                lemma_name_len_exact(tail, j - i - 1);
            }
        }
        if c == '$' && j > i + 1 {
            let name = string_of(&cs, i + 1, j);
            assert(rest.subrange(1, (j - i) as int) =~= cs@.subrange(i + 1, j as int));
            assert(rest.skip((j - i) as int) =~= cs@.skip(j as int));
            match env.get(name.as_str()) {
                Some(v) => push_str(&mut out, v.as_str()),
                None => {},
            }
            i = j;
        } else {
            push_char(&mut out, c);
            assert(rest.drop_first() =~= cs@.skip(i + 1));
            i += 1;
        }
    }
    out
}

/// Expands every word of a command: a leading `~` becomes `HOME` (when it is
/// set) and each `$NAME` becomes the value of `NAME` (nothing when unset).
pub fn expand_vars_and_tilde(argv: Vec<String>, env: &Env) -> (res: Vec<String>)
    ensures
        res.len() == argv.len(),
        forall|i: int| 0 <= i < argv.len() ==> #[trigger] res[i]@ == expand_word(argv[i]@, env@),
{
    let mut res: Vec<String> = Vec::new();
    let mut i: usize = 0;
    while i < argv.len()
        invariant
            i <= argv.len(),
            res.len() == i,
            forall|k: int| 0 <= k < i ==> #[trigger] res[k]@ == expand_word(argv[k]@, env@),
        decreases argv.len() - i,
    {
        res.push(expand_one(&argv[i], env));
        i += 1;
    }
    res
}

/// Reading `a` then `b` is reading `a + b`.
pub proof fn lemma_lex_concat(st: LexState, a: Seq<char>, b: Seq<char>)
    ensures
        lex_from(st, a + b) == lex_from(lex_from(st, a), b),
    decreases b.len(),
{
    if b.len() == 0 {
        assert(a + b =~= a);
    } else {
        assert((a + b).drop_last() =~= a + b.drop_last());
        assert((a + b).last() == b.last());
        lemma_lex_concat(st, a, b.drop_last());
    }
}

/// Reading a single character is one step.
pub proof fn lemma_lex_one(st: LexState, c: char)
    ensures
        lex_from(st, seq![c]) == lex_step(st, c),
{
    assert(seq![c].drop_last() =~= Seq::<char>::empty());
    assert(seq![c].last() == c);
    assert(lex_from(st, Seq::<char>::empty()) == st);
}

/// A word that needs no quoting: not empty, and without whitespace, quotes or
/// backslashes.
pub open spec fn plain_word(w: Seq<char>) -> bool {
    &&& w.len() > 0
    &&& forall|i: int|
        0 <= i < w.len() ==> !is_ws(#[trigger] w[i]) && w[i] != '\'' && w[i] != '"' && w[i]
            != '\\'
}

proof fn lemma_lex_plain(words: Seq<Seq<char>>, buf: Seq<char>, w: Seq<char>)
    requires
        forall|i: int|
            0 <= i < w.len() ==> !is_ws(#[trigger] w[i]) && w[i] != '\'' && w[i] != '"' && w[i]
                != '\\',
    ensures
        lex_from((words, buf, false, false, false), w) == (words, buf + w, false, false, false),
    decreases w.len(),
{
    if w.len() == 0 {
        assert(buf + w =~= buf);
    } else {
        lemma_lex_plain(words, buf, w.drop_last());
        assert(buf + w.drop_last() + seq![w.last()] =~= buf + w);
        assert(!is_ws(w[w.len() - 1]));
    }
}

proof fn lemma_lex_joined(ws: Seq<Seq<char>>)
    requires
        ws.len() > 0,
        forall|i: int| 0 <= i < ws.len() ==> plain_word(#[trigger] ws[i]),
    ensures
        lex_from(lex_init(), joined(ws, ' ')) == (ws.drop_last(), ws.last(), false, false, false),
    decreases ws.len(),
{
    if ws.len() == 1 {
        lemma_lex_plain(Seq::<Seq<char>>::empty(), Seq::<char>::empty(), ws[0]);
        assert(Seq::<char>::empty() + ws[0] =~= ws[0]);
        assert(ws.drop_last() =~= Seq::<Seq<char>>::empty());
    } else {
        let d = ws.drop_last();
        assert forall|i: int| 0 <= i < d.len() implies plain_word(#[trigger] d[i]) by {
            assert(d[i] == ws[i]);
        }
        lemma_lex_joined(d);
        let j = joined(d, ' ');
        lemma_lex_concat(lex_init(), j + seq![' '], ws.last());
        lemma_lex_concat(lex_init(), j, seq![' ']);
        lemma_lex_one(lex_from(lex_init(), j), ' ');
        assert(is_ws(' '));
        assert(plain_word(ws[ws.len() - 1]));
        assert(d.drop_last().push(d.last()) =~= d);
        lemma_lex_plain(d, Seq::<char>::empty(), ws.last());
        assert(Seq::<char>::empty() + ws.last() =~= ws.last());
    }
}

/// Words that need no quoting, written one after the other with single
/// spaces between them, are split back into the same words.
pub proof fn law_split_plain_words(ws: Seq<Seq<char>>)
    requires
        forall|i: int| 0 <= i < ws.len() ==> plain_word(#[trigger] ws[i]),
    ensures
        words_of(joined(ws, ' ')) == Ok::<Seq<Seq<char>>, ()>(ws),
{
    if ws.len() == 0 {
        assert(joined(ws, ' ') =~= Seq::<char>::empty());
        assert(lex_from(lex_init(), Seq::<char>::empty()) == lex_init());
        assert(ws =~= Seq::<Seq<char>>::empty());
    } else {
        lemma_lex_joined(ws);
        assert(plain_word(ws[ws.len() - 1]));
        assert(ws.drop_last().push(ws.last()) =~= ws);
    }
}

/// The pieces of `s` between its whitespace characters, empty pieces
/// included: one more piece than `s` has whitespace characters.
pub open spec fn split_ws(s: Seq<char>) -> Seq<Seq<char>>
    decreases s.len(),
{
    if s.len() == 0 {
        seq![Seq::<char>::empty()]
    } else {
        let p = split_ws(s.drop_last());
        if is_ws(s.last()) {
            p.push(Seq::<char>::empty())
        } else {
            p.update(p.len() - 1, p.last().push(s.last()))
        }
    }
}

/// The pieces that are not empty, in order.
pub open spec fn nonempty(ps: Seq<Seq<char>>) -> Seq<Seq<char>>
    decreases ps.len(),
{
    if ps.len() == 0 {
        Seq::<Seq<char>>::empty()
    } else {
        let r = nonempty(ps.drop_last());
        if ps.last().len() > 0 {
            r.push(ps.last())
        } else {
            r
        }
    }
}

/// The runs of non-whitespace characters of `s`, in order (what
/// `str::split_whitespace` gives).
pub open spec fn whitespace_words(s: Seq<char>) -> Seq<Seq<char>> {
    nonempty(split_ws(s))
}

/// Whether `s` holds no quote and no backslash.
pub open spec fn unquoted(s: Seq<char>) -> bool {
    forall|i: int| 0 <= i < s.len() ==> #[trigger] s[i] != '\'' && s[i] != '"' && s[i] != '\\'
}

proof fn lemma_split_ws_len(s: Seq<char>)
    ensures
        split_ws(s).len() >= 1,
    decreases s.len(),
{
    if s.len() > 0 {
        lemma_split_ws_len(s.drop_last());
    }
}

/// Reading a text without quotes or backslashes: the finished words are the
/// non-empty pieces before the last one, and the current word is the last piece.
proof fn lemma_lex_unquoted(s: Seq<char>)
    requires
        unquoted(s),
    ensures
        lex_from(lex_init(), s) == (
            nonempty(split_ws(s).drop_last()),
            split_ws(s).last(),
            false,
            false,
            false,
        ),
    decreases s.len(),
{
    if s.len() == 0 {
        assert(split_ws(s).drop_last() =~= Seq::<Seq<char>>::empty());
    } else {
        let t = s.drop_last();
        assert forall|i: int| 0 <= i < t.len() implies #[trigger] t[i] != '\'' && t[i] != '"'
            && t[i] != '\\' by {
            assert(t[i] == s[i]);
        }
        lemma_lex_unquoted(t);
        lemma_split_ws_len(t);
        let p = split_ws(t);
        let c = s.last();
        assert(c == s[s.len() - 1]);
        if is_ws(c) {
            assert(split_ws(s).drop_last() =~= p);
        } else {
            assert(split_ws(s).drop_last() =~= p.drop_last());
        }
    }
}

/// A line without quotes or backslashes is split into its runs of
/// non-whitespace characters: whitespace of any length, at the start, between
/// words or at the end, only separates them.
pub proof fn law_split_unquoted_is_split_whitespace(s: Seq<char>)
    requires
        unquoted(s),
    ensures
        words_of(s) == Ok::<Seq<Seq<char>>, ()>(whitespace_words(s)),
{
    lemma_lex_unquoted(s);
    lemma_split_ws_len(s);
}

proof fn lemma_lex_single_quoted(words: Seq<Seq<char>>, buf: Seq<char>, w: Seq<char>)
    requires
        forall|i: int| 0 <= i < w.len() ==> #[trigger] w[i] != '\'',
    ensures
        lex_from((words, buf, true, false, false), w) == (words, buf + w, true, false, false),
    decreases w.len(),
{
    if w.len() == 0 {
        assert(buf + w =~= buf);
    } else {
        lemma_lex_single_quoted(words, buf, w.drop_last());
        assert(buf + w.drop_last() + seq![w.last()] =~= buf + w);
        assert(w[w.len() - 1] != '\'');
    }
}

/// Between single quotes every character is taken literally: quoting a
/// non-empty text that has no single quote gives exactly that text as one word.
pub proof fn law_single_quotes_keep_text(w: Seq<char>)
    requires
        w.len() > 0,
        forall|i: int| 0 <= i < w.len() ==> #[trigger] w[i] != '\'',
    ensures
        words_of(seq!['\''] + w + seq!['\'']) == Ok::<Seq<Seq<char>>, ()>(seq![w]),
{
    let e = Seq::<Seq<char>>::empty();
    let z = Seq::<char>::empty();
    lemma_lex_concat(lex_init(), seq!['\''] + w, seq!['\'']);
    lemma_lex_concat(lex_init(), seq!['\''], w);
    lemma_lex_one(lex_init(), '\'');
    assert(lex_from(lex_init(), seq!['\'']) == (e, z, true, false, false));
    lemma_lex_single_quoted(e, z, w);
    lemma_lex_one((e, w, true, false, false), '\'');
    assert(z + w =~= w);
    assert(seq![w] =~= e.push(w));
}

/// An opening single quote that is never closed makes the line invalid.
pub proof fn law_unclosed_single_quote(w: Seq<char>)
    requires
        forall|i: int| 0 <= i < w.len() ==> #[trigger] w[i] != '\'',
    ensures
        words_of(seq!['\''] + w) is Err,
{
    let e = Seq::<Seq<char>>::empty();
    let z = Seq::<char>::empty();
    lemma_lex_concat(lex_init(), seq!['\''], w);
    lemma_lex_one(lex_init(), '\'');
    lemma_lex_single_quoted(e, z, w);
}

/// `w` with a backslash in front of each of its characters.
pub open spec fn escaped(w: Seq<char>) -> Seq<char>
    decreases w.len(),
{
    if w.len() == 0 {
        Seq::<char>::empty()
    } else {
        escaped(w.drop_last()) + seq!['\\', w.last()]
    }
}

proof fn lemma_lex_escaped(words: Seq<Seq<char>>, buf: Seq<char>, w: Seq<char>)
    ensures
        lex_from((words, buf, false, false, false), escaped(w)) == (
            words,
            buf + w,
            false,
            false,
            false,
        ),
    decreases w.len(),
{
    if w.len() == 0 {
        assert(buf + w =~= buf);
    } else {
        let st = (words, buf, false, false, false);
        lemma_lex_escaped(words, buf, w.drop_last());
        lemma_lex_concat(st, escaped(w.drop_last()), seq!['\\', w.last()]);
        let mid = lex_from(st, escaped(w.drop_last()));
        assert(seq!['\\', w.last()] =~= seq!['\\'] + seq![w.last()]);
        lemma_lex_concat(mid, seq!['\\'], seq![w.last()]);
        lemma_lex_one(mid, '\\');
        lemma_lex_one(lex_step(mid, '\\'), w.last());
        assert(buf + w.drop_last() + seq![w.last()] =~= buf + w);
    }
}

/// A backslash outside quotes makes the next character literal: a non-empty
/// text with every character escaped is read as exactly that text, one word.
pub proof fn law_backslash_escapes(w: Seq<char>)
    requires
        w.len() > 0,
    ensures
        words_of(escaped(w)) == Ok::<Seq<Seq<char>>, ()>(seq![w]),
{
    let e = Seq::<Seq<char>>::empty();
    let z = Seq::<char>::empty();
    lemma_lex_escaped(e, z, w);
    assert(z + w =~= w);
    assert(seq![w] =~= e.push(w));
}

/// A word without `$` that does not start with `~` is left as it is by expansion.
pub proof fn law_expand_leaves_plain_text(t: Seq<char>, env: Seq<(Seq<char>, Seq<char>)>)
    requires
        forall|i: int| 0 <= i < t.len() ==> #[trigger] t[i] != '$',
        t.len() == 0 || t[0] != '~',
    ensures
        expand_word(t, env) == t,
{
    assert(expand_tilde(t, env) == t) by {
        if t == seq!['~'] {
            assert(t[0] == '~');
        }
    }
    lemma_expand_vars_no_dollar(t, env);
}

proof fn lemma_expand_vars_no_dollar(s: Seq<char>, env: Seq<(Seq<char>, Seq<char>)>)
    requires
        forall|i: int| 0 <= i < s.len() ==> #[trigger] s[i] != '$',
    ensures
        expand_vars(s, env) == s,
    decreases s.len(),
{
    if s.len() > 0 {
        assert(s[0] != '$');
        let d = s.drop_first();
        assert forall|i: int| 0 <= i < d.len() implies #[trigger] d[i] != '$' by {
            assert(d[i] == s[i + 1]);
        }
        lemma_expand_vars_no_dollar(d, env);
        assert(seq![s[0]] + d =~= s);
    }
}

/// With `HOME` set, `~` alone expands to the home directory and `~/rest` to
/// the home directory followed by `/rest` (the rest itself holding no `$`).
pub proof fn law_tilde_is_home(rest: Seq<char>, env: Seq<(Seq<char>, Seq<char>)>, home: Seq<char>)
    requires
        env_lookup(env, "HOME"@) == Some(home),
        forall|i: int| 0 <= i < home.len() ==> #[trigger] home[i] != '$',
        forall|i: int| 0 <= i < rest.len() ==> #[trigger] rest[i] != '$',
    ensures
        expand_word(seq!['~'], env) == home,
        expand_word(seq!['~', '/'] + rest, env) == home + seq!['/'] + rest,
{
    lemma_expand_vars_no_dollar(home, env);
    let t = seq!['~', '/'] + rest;
    assert(t.skip(2) =~= rest);
    assert(t != seq!['~']) by {
        assert(t.len() != 1);
    }
    let r = home + seq!['/'] + rest;
    assert forall|i: int| 0 <= i < r.len() implies #[trigger] r[i] != '$' by {
        if i < home.len() {
            assert(r[i] == home[i]);
        } else if i > home.len() {
            assert(r[i] == rest[i - home.len() - 1]);
        }
    }
    lemma_expand_vars_no_dollar(r, env);
}

proof fn lemma_lex_double_quoted(words: Seq<Seq<char>>, buf: Seq<char>, w: Seq<char>)
    requires
        forall|i: int| 0 <= i < w.len() ==> #[trigger] w[i] != '"' && w[i] != '\\',
    ensures
        lex_from((words, buf, false, true, false), w) == (words, buf + w, false, true, false),
    decreases w.len(),
{
    if w.len() == 0 {
        assert(buf + w =~= buf);
    } else {
        lemma_lex_double_quoted(words, buf, w.drop_last());
        assert(buf + w.drop_last() + seq![w.last()] =~= buf + w);
        assert(w[w.len() - 1] != '"' && w[w.len() - 1] != '\\');
    }
}

/// Between double quotes whitespace and single quotes are taken literally:
/// quoting a non-empty text without double quotes or backslashes gives exactly
/// that text as one word.
pub proof fn law_double_quotes_keep_text(w: Seq<char>)
    requires
        w.len() > 0,
        forall|i: int| 0 <= i < w.len() ==> #[trigger] w[i] != '"' && w[i] != '\\',
    ensures
        words_of(seq!['"'] + w + seq!['"']) == Ok::<Seq<Seq<char>>, ()>(seq![w]),
{
    let e = Seq::<Seq<char>>::empty();
    let z = Seq::<char>::empty();
    lemma_lex_concat(lex_init(), seq!['"'] + w, seq!['"']);
    lemma_lex_concat(lex_init(), seq!['"'], w);
    lemma_lex_one(lex_init(), '"');
    assert(lex_from(lex_init(), seq!['"']) == (e, z, false, true, false));
    lemma_lex_double_quoted(e, z, w);
    lemma_lex_one((e, w, false, true, false), '"');
    assert(z + w =~= w);
    assert(seq![w] =~= e.push(w));
}

/// A single-quoted part joins the text around it into one word: for texts
/// `p` and `q` without whitespace, quotes or backslashes and a text `w` without
/// single quotes, `p'w'q` is the one word `p w q` (when that is not empty).
pub proof fn law_quoted_part_joins_its_word(p: Seq<char>, w: Seq<char>, q: Seq<char>)
    requires
        forall|i: int|
            0 <= i < p.len() ==> !is_ws(#[trigger] p[i]) && p[i] != '\'' && p[i] != '"' && p[i]
                != '\\',
        forall|i: int|
            0 <= i < q.len() ==> !is_ws(#[trigger] q[i]) && q[i] != '\'' && q[i] != '"' && q[i]
                != '\\',
        forall|i: int| 0 <= i < w.len() ==> #[trigger] w[i] != '\'',
        p.len() + w.len() + q.len() > 0,
    ensures
        words_of(p + seq!['\''] + w + seq!['\''] + q) == Ok::<Seq<Seq<char>>, ()>(seq![p + w + q]),
{
    let e = Seq::<Seq<char>>::empty();
    let z = Seq::<char>::empty();
    let a = p + seq!['\''];
    let b = a + w;
    let c = b + seq!['\''];
    lemma_lex_plain(e, z, p);
    assert(z + p =~= p);
    lemma_lex_concat(lex_init(), p, seq!['\'']);
    lemma_lex_one((e, p, false, false, false), '\'');
    lemma_lex_concat(lex_init(), a, w);
    lemma_lex_single_quoted(e, p, w);
    lemma_lex_concat(lex_init(), b, seq!['\'']);
    lemma_lex_one((e, p + w, true, false, false), '\'');
    lemma_lex_concat(lex_init(), c, q);
    lemma_lex_plain(e, p + w, q);
    assert(seq![p + w + q] =~= e.push(p + w + q));
}

/// A `$` followed by a name made of ASCII letters (of either case), digits and
/// `_` is replaced by the value the name is set to.
pub proof fn law_variable_is_replaced(n: Seq<char>, env: Seq<(Seq<char>, Seq<char>)>, v: Seq<char>)
    requires
        n.len() > 0,
        forall|i: int|
            0 <= i < n.len() ==> ('a' <= #[trigger] n[i] && n[i] <= 'z') || ('A' <= n[i] && n[i]
                <= 'Z') || ('0' <= n[i] && n[i] <= '9') || n[i] == '_',
        env_lookup(env, n) == Some(v),
    ensures
        expand_word(seq!['$'] + n, env) == v,
{
    let t = seq!['$'] + n;
    assert(t != seq!['~']) by {
        assert(t[0] == '$');
    }
    assert(!(t.len() >= 2 && t[0] == '~'));
    assert(expand_tilde(t, env) == t);
    assert(t.drop_first() =~= n);
    assert forall|j: int| 0 <= j < n.len() implies is_name_char(#[trigger] n[j]) by {}
    lemma_name_len_exact(n, n.len() as int);
    assert(t.subrange(1, n.len() as int + 1) =~= n);
    assert(t.skip(n.len() as int + 1) =~= Seq::<char>::empty());
    assert(expand_vars(Seq::<char>::empty(), env) == Seq::<char>::empty());
    assert(v + Seq::<char>::empty() =~= v);
}

/// A double-quoted part joins the text around it into one word: for texts
/// `p` and `q` without whitespace, quotes or backslashes and a text `w` without
/// double quotes or backslashes, `p"w"q` is the one word `p w q` (when that is
/// not empty).
pub proof fn law_double_quoted_part_joins_its_word(p: Seq<char>, w: Seq<char>, q: Seq<char>)
    requires
        forall|i: int|
            0 <= i < p.len() ==> !is_ws(#[trigger] p[i]) && p[i] != '\'' && p[i] != '"' && p[i]
                != '\\',
        forall|i: int|
            0 <= i < q.len() ==> !is_ws(#[trigger] q[i]) && q[i] != '\'' && q[i] != '"' && q[i]
                != '\\',
        forall|i: int| 0 <= i < w.len() ==> #[trigger] w[i] != '"' && w[i] != '\\',
        p.len() + w.len() + q.len() > 0,
    ensures
        words_of(p + seq!['"'] + w + seq!['"'] + q) == Ok::<Seq<Seq<char>>, ()>(seq![p + w + q]),
{
    let e = Seq::<Seq<char>>::empty();
    let z = Seq::<char>::empty();
    let a = p + seq!['"'];
    let b = a + w;
    let c = b + seq!['"'];
    lemma_lex_plain(e, z, p);
    assert(z + p =~= p);
    lemma_lex_concat(lex_init(), p, seq!['"']);
    lemma_lex_one((e, p, false, false, false), '"');
    lemma_lex_concat(lex_init(), a, w);
    lemma_lex_double_quoted(e, p, w);
    lemma_lex_concat(lex_init(), b, seq!['"']);
    lemma_lex_one((e, p + w, false, true, false), '"');
    lemma_lex_concat(lex_init(), c, q);
    lemma_lex_plain(e, p + w, q);
    assert(seq![p + w + q] =~= e.push(p + w + q));
}

} // verus!
