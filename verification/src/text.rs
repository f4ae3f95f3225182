//! Character-level helpers shared by the lexer, the command parser and the
//! output formatters: conversions between `str`/`String` and character vectors,
//! Unicode whitespace, trimming, splitting and decimal numbers.

use vstd::prelude::*;

verus! {

broadcast use vstd::string::group_string_axioms;

/// The abstract contents of a list of strings.
pub open spec fn views(v: Seq<String>) -> Seq<Seq<char>> {
    v.map_values(|x: String| x@)
}

/// The words joined by `sep`.
pub open spec fn joined(ws: Seq<Seq<char>>, sep: char) -> Seq<char>
    decreases ws.len(),
{
    if ws.len() == 0 {
        Seq::<char>::empty()
    } else if ws.len() == 1 {
        ws[0]
    } else {
        joined(ws.drop_last(), sep) + seq![sep] + ws.last()
    }
}

/// Unicode `White_Space`, the property that `char::is_whitespace` tests.
pub open spec fn is_ws(c: char) -> bool {
    ||| ('\u{9}' <= c && c <= '\u{d}')
    ||| c == ' '
    ||| c == '\u{85}'
    ||| c == '\u{a0}'
    ||| c == '\u{1680}'
    ||| ('\u{2000}' <= c && c <= '\u{200a}')
    ||| c == '\u{2028}'
    ||| c == '\u{2029}'
    ||| c == '\u{202f}'
    ||| c == '\u{205f}'
    ||| c == '\u{3000}'
}

/// Whether `c` is Unicode whitespace.
pub fn is_whitespace(c: char) -> (b: bool)
    ensures
        b == is_ws(c),
{
    ('\u{9}' <= c && c <= '\u{d}') || c == ' ' || c == '\u{85}' || c == '\u{a0}' || c
        == '\u{1680}' || ('\u{2000}' <= c && c <= '\u{200a}') || c == '\u{2028}' || c
        == '\u{2029}' || c == '\u{202f}' || c == '\u{205f}' || c == '\u{3000}'
}

/// `s` without its leading whitespace.
pub open spec fn trim_start(s: Seq<char>) -> Seq<char>
    decreases s.len(),
{
    if s.len() > 0 && is_ws(s[0]) {
        trim_start(s.drop_first())
    } else {
        s
    }
}

/// `s` without its trailing whitespace.
pub open spec fn trim_end(s: Seq<char>) -> Seq<char>
    decreases s.len(),
{
    if s.len() > 0 && is_ws(s.last()) {
        trim_end(s.drop_last())
    } else {
        s
    }
}

/// `s` without its leading and trailing whitespace (what `str::trim` gives).
pub open spec fn trim(s: Seq<char>) -> Seq<char> {
    trim_end(trim_start(s))
}

/// The pieces of `s` between occurrences of `sep`, in order (what `str::split`
/// with a character gives): `n` separators give `n + 1` pieces.
pub open spec fn split_on(s: Seq<char>, sep: char) -> Seq<Seq<char>>
    decreases s.len(),
{
    if s.len() == 0 {
        seq![Seq::<char>::empty()]
    } else {
        let p = split_on(s.drop_last(), sep);
        if s.last() == sep {
            p.push(Seq::<char>::empty())
        } else {
            p.update(p.len() - 1, p.last().push(s.last()))
        }
    }
}

/// The pieces, each trimmed, with the pieces that trim to nothing left out.
pub open spec fn trimmed_nonempty(ps: Seq<Seq<char>>) -> Seq<Seq<char>>
    decreases ps.len(),
{
    if ps.len() == 0 {
        Seq::<Seq<char>>::empty()
    } else {
        let r = trimmed_nonempty(ps.drop_last());
        if trim(ps.last()).len() > 0 {
            r.push(trim(ps.last()))
        } else {
            r
        }
    }
}

/// The last position of `c` in `s`, if any (what `str::rfind` gives, counted in characters).
pub open spec fn last_index_of(s: Seq<char>, c: char) -> Option<int>
    decreases s.len(),
{
    if s.len() == 0 {
        None
    } else if s.last() == c {
        Some(s.len() - 1)
    } else {
        last_index_of(s.drop_last(), c)
    }
}

/// Whether `c` occurs in `s`.
pub open spec fn has_char(s: Seq<char>, c: char) -> bool {
    exists|i: int| 0 <= i < s.len() && s[i] == c
}

/// Appends one character to a string.
///
/// Trusted: calls `String::push`, which the standard library documents as
/// appending the given character to the end of the string.
#[verifier::external_body]
pub(crate) fn push_char(s: &mut String, c: char)
    ensures
        final(s)@ == old(s)@.push(c),
{
    s.push(c);
}

/// The characters of a string slice, in order.
pub fn chars_of(s: &str) -> (v: Vec<char>)
    ensures
        v@ == s@,
{
    let mut v: Vec<char> = Vec::new();
    for c in it: s.chars()
        invariant
            v@ == it.seq().take(it.index() as int),
    {
        v.push(c);
    }
    v
}

/// The string made of `v[lo..hi]`.
pub fn string_of(v: &Vec<char>, lo: usize, hi: usize) -> (s: String)
    requires
        lo <= hi <= v.len(),
    ensures
        s@ == v@.subrange(lo as int, hi as int),
{
    let mut s = String::new();
    let mut i = lo;
    while i < hi
        invariant
            lo <= i <= hi <= v.len(),
            s@ == v@.subrange(lo as int, i as int),
        decreases hi - i,
    {
        push_char(&mut s, v[i]);
        assert(v@.subrange(lo as int, i + 1) =~= v@.subrange(lo as int, i as int).push(v[i as int]));
        i += 1;
    }
    s
}

/// Appends `v[lo..hi]` to `s`.
pub fn push_range(s: &mut String, v: &Vec<char>, lo: usize, hi: usize)
    requires
        lo <= hi <= v.len(),
    ensures
        final(s)@ == old(s)@ + v@.subrange(lo as int, hi as int),
{
    let mut i = lo;
    while i < hi
        invariant
            lo <= i <= hi <= v.len(),
            s@ == old(s)@ + v@.subrange(lo as int, i as int),
        decreases hi - i,
    {
        push_char(s, v[i]);
        assert(v@.subrange(lo as int, i + 1) =~= v@.subrange(lo as int, i as int).push(v[i as int]));
        i += 1;
    }
}

/// Appends a string slice to `s`.
pub fn push_str(s: &mut String, t: &str)
    ensures
        final(s)@ == old(s)@ + t@,
{
    let cs = chars_of(t);
    push_range(s, &cs, 0, cs.len());
    assert(cs@.subrange(0, cs@.len() as int) =~= cs@);
}

proof fn lemma_trim_start_step(v: Seq<char>, lo: int, hi: int)
    requires
        0 <= lo < hi <= v.len(),
        is_ws(v[lo]),
    ensures
        trim_start(v.subrange(lo, hi)) == trim_start(v.subrange(lo + 1, hi)),
{
    assert(v.subrange(lo, hi).drop_first() =~= v.subrange(lo + 1, hi));
}

proof fn lemma_trim_end_step(v: Seq<char>, lo: int, hi: int)
    requires
        0 <= lo < hi <= v.len(),
        is_ws(v[hi - 1]),
    ensures
        trim_end(v.subrange(lo, hi)) == trim_end(v.subrange(lo, hi - 1)),
{
    assert(v.subrange(lo, hi).drop_last() =~= v.subrange(lo, hi - 1));
}

/// The bounds of `v[lo..hi]` once trimmed: `v[a..b]` is `trim(v[lo..hi])`.
pub fn trim_bounds(v: &Vec<char>, lo: usize, hi: usize) -> (r: (usize, usize))
    requires
        lo <= hi <= v.len(),
    ensures
        lo <= r.0 <= r.1 <= hi,
        v@.subrange(r.0 as int, r.1 as int) == trim(v@.subrange(lo as int, hi as int)),
{
    let mut a = lo;
    while a < hi && is_whitespace(v[a])
        invariant
            lo <= a <= hi <= v.len(),
            trim_start(v@.subrange(lo as int, hi as int)) == trim_start(
                v@.subrange(a as int, hi as int),
            ),
        decreases hi - a,
    {
        proof {
            lemma_trim_start_step(v@, a as int, hi as int);
        }
        a += 1;
    }
    assert(trim_start(v@.subrange(a as int, hi as int)) == v@.subrange(a as int, hi as int));
    let mut b = hi;
    while b > a && is_whitespace(v[b - 1])
        invariant
            lo <= a <= b <= hi <= v.len(),
            trim_end(v@.subrange(a as int, hi as int)) == trim_end(
                v@.subrange(a as int, b as int),
            ),
        decreases b - a,
    {
        proof {
            lemma_trim_end_step(v@, a as int, b as int);
        }
        b -= 1;
    }
    (a, b)
}

/// A string slice with its trailing whitespace removed (what `str::trim_end` gives).
pub fn trim_end_str(s: &str) -> (r: String)
    ensures
        r@ == trim_end(s@),
{
    let cs = chars_of(s);
    let mut b = cs.len();
    assert(cs@.subrange(0, cs@.len() as int) =~= cs@);
    while b > 0 && is_whitespace(cs[b - 1])
        invariant
            b <= cs.len(),
            trim_end(cs@) == trim_end(cs@.subrange(0, b as int)),
        decreases b,
    {
        proof {
            lemma_trim_end_step(cs@, 0, b as int);
        }
        b -= 1;
    }
    string_of(&cs, 0, b)
}

/// The end of `v[lo..hi]` once its trailing whitespace is removed.
pub fn trim_end_bound(v: &Vec<char>, lo: usize, hi: usize) -> (b: usize)
    requires
        lo <= hi <= v.len(),
    ensures
        lo <= b <= hi,
        v@.subrange(lo as int, b as int) == trim_end(v@.subrange(lo as int, hi as int)),
{
    let mut b = hi;
    while b > lo && is_whitespace(v[b - 1])
        invariant
            lo <= b <= hi <= v.len(),
            trim_end(v@.subrange(lo as int, hi as int)) == trim_end(
                v@.subrange(lo as int, b as int),
            ),
        decreases b - lo,
    {
        proof {
            lemma_trim_end_step(v@, lo as int, b as int);
        }
        b -= 1;
    }
    b
}

/// The last position of `c` in `v[0..hi]`, if any.
pub fn last_index_in(v: &Vec<char>, hi: usize, c: char) -> (r: Option<usize>)
    requires
        hi <= v.len(),
    ensures
        match r {
            Some(p) => p < hi && last_index_of(v@.take(hi as int), c) == Some(p as int),
            None => last_index_of(v@.take(hi as int), c) is None,
        },
{
    let mut k = hi;
    while k > 0
        invariant
            k <= hi <= v.len(),
            last_index_of(v@.take(hi as int), c) == last_index_of(v@.take(k as int), c),
        decreases k,
    {
        assert(v@.take(k as int).last() == v@[k - 1]);
        if v[k - 1] == c {
            return Some(k - 1);
        }
        assert(v@.take(k as int).drop_last() =~= v@.take(k - 1));
        k -= 1;
    }
    None
}

pub proof fn lemma_split_on_nonempty(s: Seq<char>, sep: char)
    ensures
        split_on(s, sep).len() >= 1,
    decreases s.len(),
{
    if s.len() > 0 {
        lemma_split_on_nonempty(s.drop_last(), sep);
    }
}

/// The pieces of `v[lo..hi]` between occurrences of `sep`, trimmed, with the
/// pieces that trim to nothing left out.
pub fn split_trimmed(v: &Vec<char>, lo: usize, hi: usize, sep: char) -> (out: Vec<String>)
    requires
        lo <= hi <= v.len(),
    ensures
        views(out@) == trimmed_nonempty(split_on(v@.subrange(lo as int, hi as int), sep)),
{
    let mut out: Vec<String> = Vec::new();
    let mut start = lo;
    let mut i = lo;
    assert(v@.subrange(lo as int, lo as int) =~= Seq::<char>::empty());
    assert(views(out@) =~= Seq::<Seq<char>>::empty());
    while i < hi
        invariant
            lo <= start <= i <= hi <= v.len(),
            split_on(v@.subrange(lo as int, i as int), sep).len() >= 1,
            views(out@) == trimmed_nonempty(split_on(v@.subrange(lo as int, i as int), sep).drop_last()),
            split_on(v@.subrange(lo as int, i as int), sep).last() == v@.subrange(start as int, i as int),
        decreases hi - i,
    {
        let ghost s = v@.subrange(lo as int, i as int);
        let ghost p = split_on(s, sep);
        let ghost s1 = v@.subrange(lo as int, i + 1);
        assert(s1.drop_last() =~= s);
        assert(s1.last() == v@[i as int]);
        if v[i] == sep {
            let (a, b) = trim_bounds(v, start, i);
            let ghost before = views(out@);
            if a < b {
                out.push(string_of(v, a, b));
                assert(views(out@) =~= before.push(trim(p.last())));
            }
            assert(split_on(s1, sep) == p.push(Seq::<char>::empty()));
            assert(split_on(s1, sep).drop_last() =~= p);
            assert(p =~= p.drop_last().push(p.last()));
            start = i + 1;
            assert(v@.subrange(start as int, i + 1) =~= Seq::<char>::empty());
        } else {
            assert(split_on(s1, sep) == p.update(p.len() - 1, p.last().push(v@[i as int])));
            assert(split_on(s1, sep).drop_last() =~= p.drop_last());
            assert(v@.subrange(start as int, i + 1) =~= v@.subrange(start as int, i as int).push(
                v@[i as int],
            ));
        }
        i += 1;
    }
    let ghost p = split_on(v@.subrange(lo as int, hi as int), sep);
    assert(p =~= p.drop_last().push(p.last()));
    let (a, b) = trim_bounds(v, start, hi);
    if a < b {
        let ghost before = views(out@);
        out.push(string_of(v, a, b));
        assert(views(out@) =~= before.push(trim(p.last())));
    }
    out
}

/// The decimal digit `d` as a character.
pub open spec fn digit_char(d: int) -> char {
    (d + 48) as char
}

/// The decimal representation of `n`, without leading zeros.
pub open spec fn decimal(n: nat) -> Seq<char>
    decreases n,
{
    if n < 10 {
        seq![digit_char(n as int)]
    } else {
        decimal(n / 10).push(digit_char((n % 10) as int))
    }
}

/// `s` preceded by as many spaces as it takes to make it `width` characters
/// long (what `{:>width}` gives).
pub open spec fn pad_left(s: Seq<char>, width: nat) -> Seq<char> {
    if s.len() < width {
        Seq::new((width - s.len()) as nat, |_i: int| ' ') + s
    } else {
        s
    }
}

/// Appends the decimal representation of `n` to `s`.
pub fn push_decimal(s: &mut String, n: u64)
    ensures
        final(s)@ == old(s)@ + decimal(n as nat),
    decreases n,
{
    if n >= 10 {
        push_decimal(s, n / 10);
    }
    let d = (n % 10) as u8;
    push_char(s, (48u8 + d) as char);
    assert(decimal(n as nat) == decimal((n / 10) as nat).push(digit_char((n % 10) as int))
        || n < 10);
}

/// The decimal representation of `n`, right-aligned in a field of `width` characters.
pub fn decimal_padded(n: u64, width: usize) -> (r: String)
    ensures
        r@ == pad_left(decimal(n as nat), width as nat),
{
    let mut digits = String::new();
    push_decimal(&mut digits, n);
    let len = chars_of(digits.as_str()).len();
    if len < width {
        let mut r = String::new();
        let mut k: usize = 0;
        while k < width - len
            invariant
                k <= width - len,
                r@ == Seq::new(k as nat, |_i: int| ' '),
            decreases width - len - k,
        {
            push_char(&mut r, ' ');
            assert(r@ =~= Seq::new((k + 1) as nat, |_i: int| ' '));
            k += 1;
        }
        push_str(&mut r, digits.as_str());
        r
    } else {
        digits
    }
}

/// Whether two string slices hold the same characters.
pub fn text_eq(a: &str, b: &str) -> (r: bool)
    ensures
        r == (a@ == b@),
{
    let x = chars_of(a);
    let y = chars_of(b);
    if x.len() != y.len() {
        assert(x@.len() != y@.len());
        return false;
    }
    let mut i: usize = 0;
    while i < x.len()
        invariant
            x@ == a@,
            y@ == b@,
            i <= x.len() == y.len(),
            forall|j: int| 0 <= j < i ==> x@[j] == y@[j],
        decreases x.len() - i,
    {
        if x[i] != y[i] {
            assert(x@[i as int] != y@[i as int]);
            return false;
        }
        i += 1;
    }
    assert(x@ =~= y@);
    true
}

/// An ASCII decimal digit.
pub open spec fn is_digit(c: char) -> bool {
    '0' <= c && c <= '9'
}

/// Whether every character of `s` is an ASCII decimal digit.
pub open spec fn all_digits(s: Seq<char>) -> bool {
    forall|i: int| 0 <= i < s.len() ==> is_digit(#[trigger] s[i])
}

/// The number that the decimal digits `s` write.
pub open spec fn digits_value(s: Seq<char>) -> int
    decreases s.len(),
{
    if s.len() == 0 {
        0
    } else {
        digits_value(s.drop_last()) * 10 + (s.last() as int - 48)
    }
}

/// The integer that `s` writes: an optional `+` or `-` followed by one or more
/// decimal digits, nothing else.
pub open spec fn parse_int(s: Seq<char>) -> Option<int> {
    if s.len() > 0 && (s[0] == '+' || s[0] == '-') {
        let d = s.drop_first();
        if d.len() > 0 && all_digits(d) {
            Some(
                if s[0] == '-' {
                    -digits_value(d)
                } else {
                    digits_value(d)
                },
            )
        } else {
            None
        }
    } else if s.len() > 0 && all_digits(s) {
        Some(digits_value(s))
    } else {
        None
    }
}

/// What parsing `s` as an `i32` gives: the integer it writes, when that fits.
pub open spec fn parse_i32_spec(s: Seq<char>) -> Option<i32> {
    match parse_int(s) {
        Some(v) => if i32::MIN <= v <= i32::MAX {
            Some(v as i32)
        } else {
            None
        },
        None => None,
    }
}

pub proof fn lemma_digits_value_grows(s: Seq<char>, k: int)
    requires
        all_digits(s),
        0 <= k <= s.len(),
    ensures
        0 <= digits_value(s.take(k)) <= digits_value(s),
    decreases s.len() - k,
{
    if k == s.len() {
        assert(s.take(k) =~= s);
        lemma_digits_value_nonneg(s);
    } else {
        lemma_digits_value_grows(s, k + 1);
        assert(s.take(k + 1).drop_last() =~= s.take(k));
        assert(s.take(k + 1).last() == s[k]);
        assert(is_digit(s[k]));
        lemma_digits_value_nonneg(s.take(k));
    }
}

pub proof fn lemma_digits_value_nonneg(s: Seq<char>)
    requires
        all_digits(s),
    ensures
        digits_value(s) >= 0,
    decreases s.len(),
{
    if s.len() > 0 {
        assert(all_digits(s.drop_last())) by {
            assert forall|i: int| 0 <= i < s.drop_last().len() implies is_digit(
                #[trigger] s.drop_last()[i],
            ) by {
                assert(s.drop_last()[i] == s[i]);
            }
        }
        lemma_digits_value_nonneg(s.drop_last());
        assert(is_digit(s[s.len() - 1]));
    }
}

proof fn lemma_parse_i32_none(s: Seq<char>, start: int)
    requires
        s.len() > 0,
        start == (if s[0] == '+' || s[0] == '-' { 1int } else { 0int }),
        start < s.len(),
        !all_digits(s.skip(start)) || digits_value(s.skip(start)) > 2147483648,
    ensures
        parse_i32_spec(s) is None,
{
    if start == 1 {
        assert(s.drop_first() =~= s.skip(1));
    } else {
        assert(s.skip(0) =~= s);
    }
}

/// Parses `s` as an `i32`, as `str::parse::<i32>` does.
pub fn parse_i32(s: &str) -> (r: Option<i32>)
    ensures
        r == parse_i32_spec(s@),
{
    let cs = chars_of(s);
    if cs.len() == 0 {
        return None;
    }
    let neg = cs[0] == '-';
    let start: usize = if cs[0] == '+' || cs[0] == '-' {
        1
    } else {
        0
    };
    if start == cs.len() {
        return None;
    }
    let ghost d = cs@.skip(start as int);
    let mut v: u64 = 0;
    let mut i = start;
    assert(d.take(0) =~= Seq::<char>::empty());
    while i < cs.len()
        invariant
            cs@ == s@,
            cs.len() > 0,
            start == (if cs@[0] == '+' || cs@[0] == '-' { 1int } else { 0int }),
            start < cs.len(),
            neg == (cs@[0] == '-'),
            start <= i <= cs.len(),
            d == cs@.skip(start as int),
            all_digits(d.take(i - start)),
            v == digits_value(d.take(i - start)),
            v <= 2147483648,
        decreases cs.len() - i,
    {
        let c = cs[i];
        if !('0' <= c && c <= '9') {
            assert(d[i - start] == c);
            assert(!all_digits(d));
            proof {
                lemma_parse_i32_none(s@, start as int);
            }
            return None;
        }
        let ghost t = d.take(i - start + 1);
        assert(t.drop_last() =~= d.take(i - start));
        assert(t.last() == c);
        assert forall|j: int| 0 <= j < t.len() implies is_digit(#[trigger] t[j]) by {
            if j < t.len() - 1 {
                assert(t[j] == d.take(i - start)[j]);
            }
        }
        v = v * 10 + ((c as u32) - 48) as u64;
        if v > 2147483648 {
            proof {
                if all_digits(d) {
                    lemma_digits_value_grows(d, i - start + 1);
                }
            }
            assert(!all_digits(d) || digits_value(d) > 2147483648);
            proof {
                lemma_parse_i32_none(s@, start as int);
            }
            return None;
        }
        i += 1;
    }
    assert(d.take(cs.len() - start) =~= d);
    if start == 1 {
        assert(cs@.drop_first() =~= d);
    } else {
        assert(cs@.skip(0) =~= cs@);
    }
    if neg {
        let x: i64 = -(v as i64);
        Some(x as i32)
    } else if v <= 2147483647 {
        Some(v as i32)
    } else {
        None
    }
}

/// Appending text without separators extends the last piece.
pub proof fn lemma_split_on_extend(a: Seq<char>, t: Seq<char>, sep: char)
    requires
        forall|i: int| 0 <= i < t.len() ==> #[trigger] t[i] != sep,
    ensures
        split_on(a + t, sep).len() == split_on(a, sep).len(),
        split_on(a + t, sep).drop_last() == split_on(a, sep).drop_last(),
        split_on(a + t, sep).last() == split_on(a, sep).last() + t,
    decreases t.len(),
{
    lemma_split_on_nonempty(a, sep);
    if t.len() == 0 {
        assert(a + t =~= a);
        assert(split_on(a, sep).last() + t =~= split_on(a, sep).last());
    } else {
        lemma_split_on_extend(a, t.drop_last(), sep);
        assert((a + t).drop_last() =~= a + t.drop_last());
        assert((a + t).last() == t.last());
        assert(t[t.len() - 1] != sep);
        let p = split_on(a + t.drop_last(), sep);
        assert(p.update(p.len() - 1, p.last().push(t.last())).drop_last() =~= p.drop_last());
        assert(split_on(a, sep).last() + t.drop_last() + seq![t.last()] =~= split_on(a, sep).last()
            + t);
    }
}

/// No piece contains the separator.
pub proof fn lemma_split_on_pieces(s: Seq<char>, sep: char)
    ensures
        forall|k: int, i: int|
            0 <= k < split_on(s, sep).len() && 0 <= i < split_on(s, sep)[k].len() ==> #[trigger] split_on(s, sep)[k][i]
                != sep,
    decreases s.len(),
{
    lemma_split_on_nonempty(s, sep);
    if s.len() > 0 {
        lemma_split_on_pieces(s.drop_last(), sep);
        lemma_split_on_nonempty(s.drop_last(), sep);
        let p = split_on(s.drop_last(), sep);
        if s.last() != sep {
            assert forall|k: int, i: int|
                0 <= k < split_on(s, sep).len() && 0 <= i < split_on(s, sep)[k].len() implies #[trigger] split_on(s, sep)[k][i]
                    != sep by {
                if k == p.len() - 1 && i == p.last().len() {
                } else if k == p.len() - 1 {
                    assert(split_on(s, sep)[k][i] == p[k][i]);
                } else {
                    assert(split_on(s, sep)[k] == p[k]);
                }
            }
        } else {
            assert forall|k: int, i: int|
                0 <= k < split_on(s, sep).len() && 0 <= i < split_on(s, sep)[k].len() implies #[trigger] split_on(s, sep)[k][i]
                    != sep by {
                if k < p.len() {
                    assert(split_on(s, sep)[k] == p[k]);
                }
            }
        }
    }
}

/// Text that starts and ends with something other than whitespace.
pub open spec fn is_trimmed(s: Seq<char>) -> bool {
    s.len() > 0 ==> !is_ws(s[0]) && !is_ws(s.last())
}

proof fn lemma_trim_start_shape(s: Seq<char>)
    ensures
        exists|k: int| 0 <= k <= s.len() && trim_start(s) == s.skip(k),
        trim_start(s).len() > 0 ==> !is_ws(trim_start(s)[0]),
    decreases s.len(),
{
    if s.len() > 0 && is_ws(s[0]) {
        lemma_trim_start_shape(s.drop_first());
        let k = choose|k: int|
            0 <= k <= s.drop_first().len() && trim_start(s.drop_first()) == s.drop_first().skip(k);
        assert(s.drop_first().skip(k) =~= s.skip(k + 1));
    } else {
        assert(s.skip(0) =~= s);
    }
}

proof fn lemma_trim_end_shape(s: Seq<char>)
    ensures
        exists|k: int| 0 <= k <= s.len() && trim_end(s) == s.take(k),
        trim_end(s).len() > 0 ==> !is_ws(trim_end(s).last()),
    decreases s.len(),
{
    if s.len() > 0 && is_ws(s.last()) {
        lemma_trim_end_shape(s.drop_last());
        let k = choose|k: int|
            0 <= k <= s.drop_last().len() && trim_end(s.drop_last()) == s.drop_last().take(k);
        assert(s.drop_last().take(k) =~= s.take(k));
    } else {
        assert(s.take(s.len() as int) =~= s);
    }
}

/// Trimming gives a piece of the text that neither starts nor ends with whitespace.
pub proof fn lemma_trim_shape(s: Seq<char>)
    ensures
        is_trimmed(trim(s)),
        exists|a: int, b: int| 0 <= a <= b <= s.len() && trim(s) == s.subrange(a, b),
{
    lemma_trim_start_shape(s);
    let a = choose|k: int| 0 <= k <= s.len() && trim_start(s) == s.skip(k);
    let t = trim_start(s);
    lemma_trim_end_shape(t);
    let b = choose|k: int| 0 <= k <= t.len() && trim_end(t) == t.take(k);
    assert(t.take(b) =~= s.subrange(a, a + b));
    if trim(s).len() > 0 {
        assert(trim(s)[0] == t[0]);
    }
}

/// Every piece kept is trimmed, not empty, and the trimmed form of one of the pieces.
pub proof fn lemma_trimmed_nonempty_pieces(ps: Seq<Seq<char>>)
    ensures
        forall|k: int|
            0 <= k < trimmed_nonempty(ps).len() ==> {
                &&& #[trigger] trimmed_nonempty(ps)[k].len() > 0
                &&& is_trimmed(trimmed_nonempty(ps)[k])
                &&& exists|j: int| 0 <= j < ps.len() && trimmed_nonempty(ps)[k] == trim(ps[j])
            },
    decreases ps.len(),
{
    if ps.len() > 0 {
        lemma_trimmed_nonempty_pieces(ps.drop_last());
        lemma_trim_shape(ps.last());
        let r = trimmed_nonempty(ps.drop_last());
        assert forall|k: int| 0 <= k < trimmed_nonempty(ps).len() implies {
            &&& #[trigger] trimmed_nonempty(ps)[k].len() > 0
            &&& is_trimmed(trimmed_nonempty(ps)[k])
            &&& exists|j: int| 0 <= j < ps.len() && trimmed_nonempty(ps)[k] == trim(ps[j])
        } by {
            if k < r.len() {
                assert(trimmed_nonempty(ps)[k] == r[k]);
                let j = choose|j: int|
                    0 <= j < ps.drop_last().len() && r[k] == trim(ps.drop_last()[j]);
                assert(ps[j] == ps.drop_last()[j]);
            } else {
                assert(trimmed_nonempty(ps)[k] == trim(ps.last()));
                assert(ps[ps.len() - 1] == ps.last());
            }
        }
    }
}

/// The pieces kept from splitting on `sep` are trimmed, not empty, and hold no `sep`.
pub proof fn law_split_pieces_are_clean(s: Seq<char>, sep: char)
    ensures
        forall|k: int|
            0 <= k < trimmed_nonempty(split_on(s, sep)).len() ==> {
                &&& #[trigger] trimmed_nonempty(split_on(s, sep))[k].len() > 0
                &&& is_trimmed(trimmed_nonempty(split_on(s, sep))[k])
                &&& !has_char(trimmed_nonempty(split_on(s, sep))[k], sep)
            },
{
    let ps = split_on(s, sep);
    lemma_trimmed_nonempty_pieces(ps);
    lemma_split_on_pieces(s, sep);
    assert forall|k: int| 0 <= k < trimmed_nonempty(ps).len() implies !has_char(
        #[trigger] trimmed_nonempty(ps)[k],
        sep,
    ) by {
        let seg = trimmed_nonempty(ps)[k];
        let j = choose|j: int| 0 <= j < ps.len() && seg == trim(ps[j]);
        lemma_trim_shape(ps[j]);
        let (a, b) = choose|a: int, b: int|
            0 <= a <= b <= ps[j].len() && trim(ps[j]) == ps[j].subrange(a, b);
        if has_char(seg, sep) {
            let i = choose|i: int| 0 <= i < seg.len() && seg[i] == sep;
            assert(seg[i] == ps[j][a + i]);
        }
    }
}

pub proof fn lemma_no_char_no_index(s: Seq<char>, c: char)
    requires
        !has_char(s, c),
    ensures
        last_index_of(s, c) is None,
    decreases s.len(),
{
    if s.len() > 0 {
        assert(s.last() == s[s.len() - 1]);
        assert(!has_char(s.drop_last(), c)) by {
            if has_char(s.drop_last(), c) {
                let i = choose|i: int| 0 <= i < s.drop_last().len() && s.drop_last()[i] == c;
                assert(s[i] == c);
            }
        }
        lemma_no_char_no_index(s.drop_last(), c);
    }
}

/// The decimal representation of a number is made of digits that write it.
pub proof fn lemma_decimal_digits(n: nat)
    ensures
        decimal(n).len() > 0,
        all_digits(decimal(n)),
        digits_value(decimal(n)) == n,
    decreases n,
{
    if n < 10 {
        assert(decimal(n).drop_last() =~= Seq::<char>::empty());
        assert(digit_char(n as int) as int == n + 48);
        assert(digits_value(Seq::<char>::empty()) == 0);
        assert(decimal(n).last() == digit_char(n as int));
    } else {
        lemma_decimal_digits(n / 10);
        let d = decimal(n);
        assert(d.drop_last() =~= decimal(n / 10));
        assert(digit_char((n % 10) as int) as int == (n % 10) + 48);
        assert(d.last() == digit_char((n % 10) as int));
        assert(n == (n / 10) * 10 + n % 10);
        assert forall|i: int| 0 <= i < d.len() implies is_digit(#[trigger] d[i]) by {
            if i < d.len() - 1 {
                assert(d[i] == decimal(n / 10)[i]);
            }
        }
    }
}

} // verus!
