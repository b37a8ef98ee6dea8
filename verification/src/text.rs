//! Text as sequences of characters.
//!
//! Every contract in this crate speaks of a string through its view, a
//! `Seq<char>`. This module holds the vocabulary those contracts share
//! (occurrence of a pattern, splitting, trimming, lines) together with the
//! executable functions that compute them on `Vec<char>`.

use vstd::prelude::*;

verus! {

/// The views of a sequence of character vectors.
pub open spec fn views(v: Seq<Vec<char>>) -> Seq<Seq<char>> {
    Seq::new(v.len(), |i: int| v[i]@)
}

/// The views of a sequence of strings.
pub open spec fn strs(v: Seq<String>) -> Seq<Seq<char>> {
    Seq::new(v.len(), |i: int| v[i]@)
}

/// `pat` occurs in `s` at index `i`.
pub open spec fn has_at(s: Seq<char>, pat: Seq<char>, i: int) -> bool {
    0 <= i && i + pat.len() <= s.len() && s.subrange(i, i + pat.len()) == pat
}

/// The least index at or after `from` at which `pat` occurs in `s`, or -1.
pub open spec fn find_spec(s: Seq<char>, pat: Seq<char>, from: int) -> int
    decreases s.len() - from + 1,
{
    if from < 0 || from + pat.len() > s.len() {
        -1
    } else if has_at(s, pat, from) {
        from
    } else {
        find_spec(s, pat, from + 1)
    }
}

/// `pat` occurs somewhere in `s`.
pub open spec fn contains_seq(s: Seq<char>, pat: Seq<char>) -> bool {
    find_spec(s, pat, 0) >= 0
}

pub open spec fn starts_with_seq(s: Seq<char>, pat: Seq<char>) -> bool {
    has_at(s, pat, 0)
}

pub open spec fn ends_with_seq(s: Seq<char>, pat: Seq<char>) -> bool {
    has_at(s, pat, s.len() - pat.len())
}

/// What `find_spec` returns is the first occurrence, and -1 means there is none.
pub proof fn lemma_find_spec(s: Seq<char>, pat: Seq<char>, from: int)
    requires
        0 <= from,
    ensures
        find_spec(s, pat, from) == -1 || from <= find_spec(s, pat, from) <= s.len() - pat.len(),
        find_spec(s, pat, from) >= 0 ==> has_at(s, pat, find_spec(s, pat, from)),
        forall|j: int|
            from <= j && (j < find_spec(s, pat, from) || find_spec(s, pat, from) < 0) ==> !has_at(
                s,
                pat,
                j,
            ),
    decreases s.len() - from + 1,
{
    if from + pat.len() > s.len() {
    } else if has_at(s, pat, from) {
    } else {
        lemma_find_spec(s, pat, from + 1);
    }
}

/// Appends one character to a string.
///
/// Trusted: `String::push` adds the character at the end and leaves the rest
/// of the string as it was.
#[verifier::external_body]
pub(crate) fn push_char(s: &mut String, c: char)
    ensures
        final(s)@ == old(s)@.push(c),
{
    s.push(c);
}

/// The characters of `s`, in order.
pub fn to_chars(s: &str) -> (v: Vec<char>)
    ensures
        v@ == s@,
{
    let mut v: Vec<char> = Vec::new();
    for c in it: s.chars()
        invariant
            v@ == it.seq().take(it.index() as int),
            it.seq() == s@,
    {
        v.push(c);
    }
    v
}

/// The string made of the characters of `v`, in order.
pub fn to_string(v: &Vec<char>) -> (s: String)
    ensures
        s@ == v@,
{
    let mut s = String::new();
    let mut i: usize = 0;
    while i < v.len()
        invariant
            i <= v.len(),
            s@ == v@.take(i as int),
        decreases v.len() - i,
    {
        push_char(&mut s, v[i]);
        i += 1;
    }
    s
}

/// Whether `pat` occurs in `s` at index `i`.
pub fn matches_at(s: &Vec<char>, pat: &Vec<char>, i: usize) -> (b: bool)
    ensures
        b == has_at(s@, pat@, i as int),
{
    if pat.len() > s.len() || i > s.len() - pat.len() {
        return false;
    }
    let mut k: usize = 0;
    while k < pat.len()
        invariant
            k <= pat.len(),
            i + pat.len() <= s.len(),
            forall|j: int| 0 <= j < k ==> s@[i + j] == pat@[j],
        decreases pat.len() - k,
    {
        if s[i + k] != pat[k] {
            assert(s@.subrange(i as int, i + pat.len())[k as int] == s@[i + k]);
            return false;
        }
        k += 1;
    }
    assert(s@.subrange(i as int, i + pat.len()) =~= pat@);
    true
}

/// The first index at or after `from` at which `pat` occurs in `s`.
pub fn find_from(s: &Vec<char>, pat: &Vec<char>, from: usize) -> (r: Option<usize>)
    ensures
        match r {
            Some(i) => i as int == find_spec(s@, pat@, from as int),
            None => find_spec(s@, pat@, from as int) == -1,
        },
{
    if pat.len() > s.len() {
        return None;
    }
    let last: usize = s.len() - pat.len();
    let mut i: usize = from;
    while i <= last
        invariant
            from <= i,
            last == s.len() - pat.len(),
            find_spec(s@, pat@, from as int) == find_spec(s@, pat@, i as int),
        decreases last + 1 - i,
    {
        if matches_at(s, pat, i) {
            return Some(i);
        }
        if i == last {
            assert(find_spec(s@, pat@, i + 1) == -1);
            return None;
        }
        i += 1;
    }
    None
}

/// Whether `pat` occurs somewhere in `s`.
pub fn contains(s: &Vec<char>, pat: &Vec<char>) -> (b: bool)
    ensures
        b == contains_seq(s@, pat@),
{
    find_from(s, pat, 0).is_some()
}

pub fn starts_with(s: &Vec<char>, pat: &Vec<char>) -> (b: bool)
    ensures
        b == starts_with_seq(s@, pat@),
{
    matches_at(s, pat, 0)
}

pub fn ends_with(s: &Vec<char>, pat: &Vec<char>) -> (b: bool)
    ensures
        b == ends_with_seq(s@, pat@),
{
    if pat.len() > s.len() {
        false
    } else {
        matches_at(s, pat, s.len() - pat.len())
    }
}

/// Whether two character vectors hold the same text.
pub fn same_text(a: &Vec<char>, b: &Vec<char>) -> (r: bool)
    ensures
        r == (a@ == b@),
{
    if a.len() != b.len() {
        return false;
    }
    let r = matches_at(a, b, 0);
    proof {
        assert(a@.subrange(0, a@.len() as int) =~= a@);
    }
    r
}

/// The characters of `s` from `from` up to, not including, `to`.
pub fn slice(s: &Vec<char>, from: usize, to: usize) -> (r: Vec<char>)
    requires
        from <= to <= s.len(),
    ensures
        r@ == s@.subrange(from as int, to as int),
{
    let mut r: Vec<char> = Vec::new();
    let mut i: usize = from;
    while i < to
        invariant
            from <= i <= to,
            to <= s.len(),
            r@ == s@.subrange(from as int, i as int),
        decreases to - i,
    {
        r.push(s[i]);
        i += 1;
    }
    r
}

/// Appends the characters of `tail` to `out`.
pub fn append(out: &mut Vec<char>, tail: &Vec<char>)
    ensures
        final(out)@ == old(out)@ + tail@,
{
    let mut i: usize = 0;
    while i < tail.len()
        invariant
            i <= tail.len(),
            out@ == old(out)@ + tail@.take(i as int),
        decreases tail.len() - i,
    {
        out.push(tail[i]);
        i += 1;
    }
    assert(tail@.take(tail@.len() as int) =~= tail@);
}

/// Whether `c` is white space: one of the characters that Unicode gives the
/// property White_Space.
pub open spec fn is_whitespace(c: char) -> bool {
    ('\u{9}' <= c && c <= '\u{d}') || c == ' ' || c == '\u{85}' || c == '\u{a0}' || c
        == '\u{1680}' || ('\u{2000}' <= c && c <= '\u{200a}') || c == '\u{2028}' || c
        == '\u{2029}' || c == '\u{202f}' || c == '\u{205f}' || c == '\u{3000}'
}

/// Whether `c` is one of the first 128 characters.
pub open spec fn is_ascii(c: char) -> bool {
    c <= '\u{7f}'
}

pub open spec fn ascii_upper(c: char) -> bool {
    'A' <= c && c <= 'Z'
}

pub open spec fn ascii_letter(c: char) -> bool {
    ascii_upper(c) || ('a' <= c && c <= 'z')
}

pub open spec fn ascii_digit(c: char) -> bool {
    '0' <= c && c <= '9'
}

/// Whether Unicode classes `c`, a character beyond the first 128, as a letter
/// or a number.
pub uninterp spec fn wide_alphanumeric(c: char) -> bool;

/// Whether Unicode classes `c`, a character beyond the first 128, as a
/// letter.
pub uninterp spec fn wide_alphabetic(c: char) -> bool;

/// Whether Unicode classes `c`, a character beyond the first 128, as an
/// upper-case letter.
pub uninterp spec fn wide_uppercase(c: char) -> bool;

/// Whether `c` is a letter or a number: among the first 128 characters the
/// letters `a` to `z` and `A` to `Z` and the digits, beyond them what
/// Unicode classes so.
pub open spec fn is_alphanumeric(c: char) -> bool {
    if is_ascii(c) {
        ascii_letter(c) || ascii_digit(c)
    } else {
        wide_alphanumeric(c)
    }
}

/// Whether `c` is a letter.
pub open spec fn is_alphabetic(c: char) -> bool {
    if is_ascii(c) {
        ascii_letter(c)
    } else {
        wide_alphabetic(c)
    }
}

/// Whether `c` is an upper-case letter.
pub open spec fn is_uppercase(c: char) -> bool {
    if is_ascii(c) {
        ascii_upper(c)
    } else {
        wide_uppercase(c)
    }
}

/// Whether `c` is white space.
pub fn char_is_whitespace(c: char) -> (b: bool)
    ensures
        b == is_whitespace(c),
{
    ('\u{9}' <= c && c <= '\u{d}') || c == ' ' || c == '\u{85}' || c == '\u{a0}' || c
        == '\u{1680}' || ('\u{2000}' <= c && c <= '\u{200a}') || c == '\u{2028}' || c
        == '\u{2029}' || c == '\u{202f}' || c == '\u{205f}' || c == '\u{3000}'
}

/// Trusted: among the first 128 characters `char::is_alphanumeric` holds of
/// the letters and digits; beyond them it depends on the character alone.
#[verifier::external_body]
pub(crate) fn char_is_alphanumeric(c: char) -> (b: bool)
    ensures
        b == is_alphanumeric(c),
        !is_ascii(c) ==> b == wide_alphanumeric(c),
{
    c.is_alphanumeric()
}

/// Trusted: among the first 128 characters `char::is_alphabetic` holds of
/// the letters; beyond them it depends on the character alone, and every
/// letter is also alphanumeric.
#[verifier::external_body]
pub(crate) fn char_is_alphabetic(c: char) -> (b: bool)
    ensures
        b == is_alphabetic(c),
        !is_ascii(c) ==> b == wide_alphabetic(c),
        b && !is_ascii(c) ==> wide_alphanumeric(c),
{
    c.is_alphabetic()
}

/// Trusted: among the first 128 characters `char::is_uppercase` holds of
/// `A` to `Z`; beyond them it depends on the character alone.
#[verifier::external_body]
pub(crate) fn char_is_uppercase(c: char) -> (b: bool)
    ensures
        b == is_uppercase(c),
        !is_ascii(c) ==> b == wide_uppercase(c),
{
    c.is_uppercase()
}

/// The first index at or after `i` that holds no white space, or the length.
pub open spec fn skip_ws(s: Seq<char>, i: int) -> int
    decreases s.len() - i,
{
    if i < 0 || i >= s.len() {
        s.len() as int
    } else if is_whitespace(s[i]) {
        skip_ws(s, i + 1)
    } else {
        i
    }
}

/// The end of the text before `j` once trailing white space is dropped.
pub open spec fn back_ws(s: Seq<char>, j: int) -> int
    decreases j,
{
    if j <= 0 || j > s.len() {
        0
    } else if is_whitespace(s[j - 1]) {
        back_ws(s, j - 1)
    } else {
        j
    }
}

/// `s` without leading and trailing white space.
pub open spec fn trim_seq(s: Seq<char>) -> Seq<char> {
    let a = skip_ws(s, 0);
    let b = back_ws(s, s.len() as int);
    if a >= b {
        Seq::empty()
    } else {
        s.subrange(a, b)
    }
}

/// The pieces of `s` from `from` on, cut at each occurrence of `sep`. An empty
/// separator cuts nowhere.
pub open spec fn split_from(s: Seq<char>, sep: Seq<char>, from: int) -> Seq<Seq<char>>
    decreases s.len() - from,
{
    let k = find_spec(s, sep, from);
    if from < 0 || from > s.len() {
        seq![Seq::empty()]
    } else if sep.len() == 0 || k < from || k + sep.len() > s.len() {
        seq![s.subrange(from, s.len() as int)]
    } else {
        seq![s.subrange(from, k)] + split_from(s, sep, k + sep.len())
    }
}

/// `s` without one trailing carriage return.
pub open spec fn strip_cr(s: Seq<char>) -> Seq<char> {
    if s.len() > 0 && s.last() == '\r' {
        s.drop_last()
    } else {
        s
    }
}

/// The lines of `s` from `from` on. A line ends at a line feed, which is
/// dropped together with a carriage return before it; text after the last line
/// feed is a line of its own unless it is empty.
pub open spec fn lines_from(s: Seq<char>, from: int) -> Seq<Seq<char>>
    decreases s.len() - from,
{
    let k = find_spec(s, seq!['\n'], from);
    if from < 0 || from >= s.len() {
        Seq::empty()
    } else if k < from || k >= s.len() {
        seq![s.subrange(from, s.len() as int)]
    } else {
        seq![strip_cr(s.subrange(from, k))] + lines_from(s, k + 1)
    }
}

/// The lines of `s`.
pub open spec fn lines_seq(s: Seq<char>) -> Seq<Seq<char>> {
    lines_from(s, 0)
}

/// `s` from `from` on with every occurrence of `pat`, taken from the left and
/// not overlapping, replaced by `to`. An empty pattern occurs nowhere.
pub open spec fn replace_from(s: Seq<char>, pat: Seq<char>, to: Seq<char>, from: int) -> Seq<char>
    decreases s.len() - from,
{
    let k = find_spec(s, pat, from);
    if from < 0 || from > s.len() {
        Seq::empty()
    } else if pat.len() == 0 || k < from || k + pat.len() > s.len() {
        s.subrange(from, s.len() as int)
    } else {
        s.subrange(from, k) + to + replace_from(s, pat, to, k + pat.len())
    }
}

pub open spec fn replace_seq(s: Seq<char>, pat: Seq<char>, to: Seq<char>) -> Seq<char> {
    replace_from(s, pat, to, 0)
}

/// How often `pat` occurs in `s` from `from` on, counted from the left without
/// overlap. An empty pattern occurs once before each character and once at
/// the end.
pub open spec fn count_from(s: Seq<char>, pat: Seq<char>, from: int) -> nat
    decreases s.len() - from + 1,
{
    let k = find_spec(s, pat, from);
    if from < 0 || k < from || k + pat.len() > s.len() {
        0
    } else if pat.len() == 0 {
        1 + count_from(s, pat, k + 1)
    } else {
        1 + count_from(s, pat, k + pat.len())
    }
}

pub open spec fn count_seq(s: Seq<char>, pat: Seq<char>) -> nat {
    count_from(s, pat, 0)
}

pub proof fn lemma_views_push(v: Seq<Vec<char>>, x: Vec<char>)
    ensures
        views(v.push(x)) == views(v).push(x@),
{
    assert(views(v.push(x)) =~= views(v).push(x@));
}

pub proof fn lemma_strs_push(v: Seq<String>, x: String)
    ensures
        strs(v.push(x)) == strs(v).push(x@),
{
    assert(strs(v.push(x)) =~= strs(v).push(x@));
}

/// `s` without leading and trailing white space.
pub fn trim(s: &Vec<char>) -> (r: Vec<char>)
    ensures
        r@ == trim_seq(s@),
{
    let mut a: usize = 0;
    while a < s.len() && char_is_whitespace(s[a])
        invariant
            a <= s.len(),
            skip_ws(s@, a as int) == skip_ws(s@, 0),
        decreases s.len() - a,
    {
        a += 1;
    }
    let mut b: usize = s.len();
    while b > 0 && char_is_whitespace(s[b - 1])
        invariant
            b <= s.len(),
            back_ws(s@, b as int) == back_ws(s@, s@.len() as int),
        decreases b,
    {
        b -= 1;
    }
    if a >= b {
        Vec::new()
    } else {
        slice(s, a, b)
    }
}

/// The pieces of `s`, cut at each occurrence of `sep`.
pub fn split(s: &Vec<char>, sep: &Vec<char>) -> (r: Vec<Vec<char>>)
    ensures
        views(r@) == split_from(s@, sep@, 0),
        r.len() >= 1,
{
    let mut out: Vec<Vec<char>> = Vec::new();
    let mut start: usize = 0;
    loop
        invariant
            start <= s.len(),
            views(out@) + split_from(s@, sep@, start as int) == split_from(s@, sep@, 0),
        decreases s.len() - start,
    {
        let found = if sep.len() == 0 {
            None
        } else {
            find_from(s, sep, start)
        };
        proof {
            lemma_find_spec(s@, sep@, start as int);
        }
        match found {
            None => {
                let piece = slice(s, start, s.len());
                proof {
                    lemma_views_push(out@, piece);
                    assert(views(out@).push(piece@) =~= views(out@) + seq![piece@]);
                }
                out.push(piece);
                return out;
            },
            Some(k) => {
                let piece = slice(s, start, k);
                proof {
                    lemma_views_push(out@, piece);
                    assert(views(out@).push(piece@) + split_from(s@, sep@, k + sep.len())
                        =~= views(out@) + (seq![piece@] + split_from(s@, sep@, k + sep.len())));
                }
                out.push(piece);
                start = k + sep.len();
            },
        }
    }
}

/// The lines of `s`.
pub fn lines(s: &Vec<char>) -> (r: Vec<Vec<char>>)
    ensures
        views(r@) == lines_seq(s@),
{
    let nl: Vec<char> = vec!['\n'];
    assert(nl@ =~= seq!['\n']);
    let mut out: Vec<Vec<char>> = Vec::new();
    let mut start: usize = 0;
    while start < s.len()
        invariant
            start <= s.len(),
            nl@ == seq!['\n'],
            views(out@) + lines_from(s@, start as int) == lines_from(s@, 0),
        decreases s.len() - start,
    {
        let found = find_from(s, &nl, start);
        proof {
            lemma_find_spec(s@, nl@, start as int);
        }
        match found {
            None => {
                let piece = slice(s, start, s.len());
                proof {
                    lemma_views_push(out@, piece);
                    assert(views(out@).push(piece@) =~= views(out@) + seq![piece@]);
                }
                out.push(piece);
                return out;
            },
            Some(k) => {
                let end: usize = if k > start && s[k - 1] == '\r' {
                    k - 1
                } else {
                    k
                };
                let piece = slice(s, start, end);
                proof {
                    let whole = s@.subrange(start as int, k as int);
                    assert(piece@ =~= strip_cr(whole));
                    lemma_views_push(out@, piece);
                    assert(views(out@).push(piece@) + lines_from(s@, k + 1) =~= views(out@) + (
                    seq![piece@] + lines_from(s@, k + 1)));
                }
                out.push(piece);
                start = k + 1;
            },
        }
    }
    proof {
        assert(views(out@) + Seq::<Seq<char>>::empty() =~= views(out@));
    }
    out
}

/// `s` with every occurrence of `pat` replaced by `to`.
pub fn replace(s: &Vec<char>, pat: &Vec<char>, to: &Vec<char>) -> (r: Vec<char>)
    ensures
        r@ == replace_seq(s@, pat@, to@),
{
    let mut out: Vec<char> = Vec::new();
    let mut start: usize = 0;
    loop
        invariant
            start <= s.len(),
            out@ + replace_from(s@, pat@, to@, start as int) == replace_from(s@, pat@, to@, 0),
        decreases s.len() - start,
    {
        let found = if pat.len() == 0 {
            None
        } else {
            find_from(s, pat, start)
        };
        proof {
            lemma_find_spec(s@, pat@, start as int);
        }
        match found {
            None => {
                let piece = slice(s, start, s.len());
                append(&mut out, &piece);
                return out;
            },
            Some(k) => {
                let piece = slice(s, start, k);
                let ghost before = out@;
                append(&mut out, &piece);
                append(&mut out, to);
                proof {
                    assert(out@ + replace_from(s@, pat@, to@, k + pat.len()) =~= before + (piece@
                        + to@ + replace_from(s@, pat@, to@, k + pat.len())));
                }
                start = k + pat.len();
            },
        }
    }
}

/// How often `pat` occurs in `s`; a count beyond `usize::MAX` is reported as
/// `usize::MAX`.
pub fn count_matches(s: &Vec<char>, pat: &Vec<char>) -> (n: usize)
    ensures
        n as nat == if count_seq(s@, pat@) <= usize::MAX {
            count_seq(s@, pat@)
        } else {
            usize::MAX as nat
        },
{
    let mut n: usize = 0;
    let mut start: usize = 0;
    loop
        invariant
            start <= s.len(),
            n <= start,
            n as nat + count_from(s@, pat@, start as int) == count_seq(s@, pat@),
        decreases s.len() - start,
    {
        let found = find_from(s, pat, start);
        proof {
            lemma_find_spec(s@, pat@, start as int);
        }
        match found {
            None => {
                return n;
            },
            Some(k) => {
                if pat.len() == 0 {
                    if k == s.len() {
                        assert(count_from(s@, pat@, k + 1) == 0);
                        if n == usize::MAX {
                            return n;
                        }
                        return n + 1;
                    }
                    n += 1;
                    start = k + 1;
                } else {
                    n += 1;
                    start = k + pat.len();
                }
            },
        }
    }
}

/// The character of a decimal digit.
pub open spec fn digit_char(d: nat) -> char {
    if d == 0 {
        '0'
    } else if d == 1 {
        '1'
    } else if d == 2 {
        '2'
    } else if d == 3 {
        '3'
    } else if d == 4 {
        '4'
    } else if d == 5 {
        '5'
    } else if d == 6 {
        '6'
    } else if d == 7 {
        '7'
    } else if d == 8 {
        '8'
    } else {
        '9'
    }
}

/// `n` written in decimal, without leading zeros.
pub open spec fn decimal(n: nat) -> Seq<char>
    decreases n,
{
    if n < 10 {
        seq![digit_char(n)]
    } else {
        decimal(n / 10).push(digit_char(n % 10))
    }
}

/// `n` written in decimal with at least `width` digits, padded with zeros.
pub open spec fn decimal_padded(n: nat, width: nat) -> Seq<char>
    decreases width,
{
    if decimal(n).len() >= width {
        decimal(n)
    } else {
        seq!['0'] + decimal_padded(n, (width - 1) as nat)
    }
}

fn digit(d: u128) -> (c: char)
    requires
        d < 10,
    ensures
        c == digit_char(d as nat),
{
    if d == 0 {
        '0'
    } else if d == 1 {
        '1'
    } else if d == 2 {
        '2'
    } else if d == 3 {
        '3'
    } else if d == 4 {
        '4'
    } else if d == 5 {
        '5'
    } else if d == 6 {
        '6'
    } else if d == 7 {
        '7'
    } else if d == 8 {
        '8'
    } else {
        '9'
    }
}

/// `n` written in decimal.
pub fn decimal_chars(n: u128) -> (r: Vec<char>)
    ensures
        r@ == decimal(n as nat),
    decreases n,
{
    if n < 10 {
        let r = vec![digit(n)];
        assert(r@ =~= seq![digit_char(n as nat)]);
        r
    } else {
        let mut r = decimal_chars(n / 10);
        r.push(digit(n % 10));
        r
    }
}

/// `n` written in decimal with at least three digits.
pub fn decimal_chars_3(n: u128) -> (r: Vec<char>)
    ensures
        r@ == decimal_padded(n as nat, 3),
{
    let d = decimal_chars(n);
    let mut r: Vec<char> = Vec::new();
    if d.len() < 3 {
        r.push('0');
    }
    if d.len() < 2 {
        r.push('0');
    }
    let ghost lead = r@;
    append(&mut r, &d);
    proof {
        reveal_with_fuel(decimal_padded, 4);
        assert(decimal(n as nat).len() >= 1) by {
            reveal_with_fuel(decimal, 1);
        }
        if d.len() >= 3 {
            assert(r@ =~= d@);
        } else if d.len() == 2 {
            assert(r@ =~= seq!['0'] + d@);
        } else {
            assert(r@ =~= seq!['0'] + (seq!['0'] + d@));
        }
    }
    r
}

/// Appends the characters of the literal `lit` to `out`.
pub fn append_str(out: &mut Vec<char>, lit: &str)
    ensures
        final(out)@ == old(out)@ + lit@,
{
    let tail = to_chars(lit);
    append(out, &tail);
}

/// A class of characters that scanners run over.
#[derive(Clone, Copy)]
pub enum CharClass {
    /// White space.
    Space,
    /// Letters, numbers and the underscore.
    Word,
}

pub open spec fn in_class(c: char, k: CharClass) -> bool {
    match k {
        CharClass::Space => is_whitespace(c),
        CharClass::Word => is_alphanumeric(c) || c == '_',
    }
}

/// The end of the run that starts at `i`: the first index at or after `i`
/// whose character is in the class `k` unlike `inside` says, or the length.
pub open spec fn run_end(s: Seq<char>, i: int, k: CharClass, inside: bool) -> int
    decreases s.len() - i,
{
    if i < 0 || i >= s.len() {
        s.len() as int
    } else if in_class(s[i], k) == inside {
        run_end(s, i + 1, k, inside)
    } else {
        i
    }
}

/// The start of the run that ends before `j`, read backwards.
pub open spec fn run_start(s: Seq<char>, j: int, k: CharClass, inside: bool) -> int
    decreases j,
{
    if j <= 0 || j > s.len() {
        0
    } else if in_class(s[j - 1], k) == inside {
        run_start(s, j - 1, k, inside)
    } else {
        j
    }
}

pub proof fn lemma_run_end_bounds(s: Seq<char>, i: int, k: CharClass, inside: bool)
    requires
        0 <= i <= s.len(),
    ensures
        i <= run_end(s, i, k, inside) <= s.len(),
    decreases s.len() - i,
{
    if i < s.len() && in_class(s[i], k) == inside {
        lemma_run_end_bounds(s, i + 1, k, inside);
    }
}

pub fn class_has(c: char, k: CharClass) -> (b: bool)
    ensures
        b == in_class(c, k),
{
    match k {
        CharClass::Space => char_is_whitespace(c),
        CharClass::Word => char_is_alphanumeric(c) || c == '_',
    }
}

pub fn scan_run(s: &Vec<char>, i: usize, k: CharClass, inside: bool) -> (e: usize)
    requires
        i <= s.len(),
    ensures
        e as int == run_end(s@, i as int, k, inside),
        i <= e <= s.len(),
{
    let mut e: usize = i;
    while e < s.len() && class_has(s[e], k) == inside
        invariant
            i <= e <= s.len(),
            run_end(s@, e as int, k, inside) == run_end(s@, i as int, k, inside),
        decreases s.len() - e,
    {
        e += 1;
    }
    e
}

pub fn scan_run_back(s: &Vec<char>, j: usize, k: CharClass, inside: bool) -> (b: usize)
    requires
        j <= s.len(),
    ensures
        b as int == run_start(s@, j as int, k, inside),
        b <= j,
{
    let mut b: usize = j;
    while b > 0 && class_has(s[b - 1], k) == inside
        invariant
            b <= j <= s.len(),
            run_start(s@, b as int, k, inside) == run_start(s@, j as int, k, inside),
        decreases b,
    {
        b -= 1;
    }
    b
}

/// Whether `list` holds the text `x`.
pub fn list_contains(list: &Vec<Vec<char>>, x: &Vec<char>) -> (b: bool)
    ensures
        b == views(list@).contains(x@),
{
    let mut i: usize = 0;
    while i < list.len()
        invariant
            i <= list.len(),
            forall|j: int| 0 <= j < i ==> views(list@)[j] != x@,
        decreases list.len() - i,
    {
        if same_text(&list[i], x) {
            assert(views(list@)[i as int] == x@);
            return true;
        }
        i += 1;
    }
    false
}

/// The strings of `list`, each as a `String`.
pub fn to_strings(list: &Vec<Vec<char>>) -> (r: Vec<String>)
    ensures
        strs(r@) == views(list@),
{
    let mut r: Vec<String> = Vec::new();
    let mut i: usize = 0;
    while i < list.len()
        invariant
            i <= list.len(),
            strs(r@) == views(list@).take(i as int),
        decreases list.len() - i,
    {
        let item = to_string(&list[i]);
        proof {
            lemma_strs_push(r@, item);
            assert(views(list@).take(i + 1) =~= views(list@).take(i as int).push(list@[i as int]@));
        }
        r.push(item);
        i += 1;
    }
    assert(views(list@).take(list@.len() as int) =~= views(list@));
    r
}

/// A line that holds more than white space.
pub open spec fn is_nonblank(line: Seq<char>) -> bool {
    trim_seq(line).len() > 0
}

/// How many of the first `upto` lines hold more than white space.
pub open spec fn nonblank_count(lines: Seq<Seq<char>>, upto: int) -> nat
    decreases upto,
{
    if upto <= 0 {
        0
    } else {
        nonblank_count(lines, upto - 1) + if is_nonblank(lines[upto - 1]) {
            1nat
        } else {
            0nat
        }
    }
}

/// How many lines of `s` hold more than white space.
pub open spec fn nonblank_lines(s: Seq<char>) -> nat {
    nonblank_count(lines_seq(s), lines_seq(s).len() as int)
}

pub fn count_nonblank(lines: &Vec<Vec<char>>) -> (n: usize)
    ensures
        n as nat == nonblank_count(views(lines@), lines@.len() as int),
        n <= lines.len(),
{
    let mut n: usize = 0;
    let mut i: usize = 0;
    while i < lines.len()
        invariant
            i <= lines.len(),
            n <= i,
            n as nat == nonblank_count(views(lines@), i as int),
        decreases lines.len() - i,
    {
        let t = trim(&lines[i]);
        if t.len() > 0 {
            n += 1;
        }
        i += 1;
    }
    n
}

/// `s` without the copies of `pat` that it starts with.
pub open spec fn strip_prefixes(s: Seq<char>, pat: Seq<char>) -> Seq<char>
    decreases s.len(),
{
    if pat.len() > 0 && has_at(s, pat, 0) {
        strip_prefixes(s.subrange(pat.len() as int, s.len() as int), pat)
    } else {
        s
    }
}

/// `s` without the copies of `c` that it ends with.
pub open spec fn strip_trailing(s: Seq<char>, c: char) -> Seq<char>
    decreases s.len(),
{
    if s.len() > 0 && s.last() == c {
        strip_trailing(s.drop_last(), c)
    } else {
        s
    }
}

pub fn trim_start_matches(s: &Vec<char>, pat: &Vec<char>) -> (r: Vec<char>)
    ensures
        r@ == strip_prefixes(s@, pat@),
{
    let mut start: usize = 0;
    assert(s@.subrange(0, s@.len() as int) =~= s@);
    while pat.len() > 0 && matches_at(s, pat, start)
        invariant
            start <= s.len(),
            strip_prefixes(s@.subrange(start as int, s@.len() as int), pat@) == strip_prefixes(
                s@,
                pat@,
            ),
        decreases s.len() - start,
    {
        proof {
            let rest = s@.subrange(start as int, s@.len() as int);
            assert(rest.subrange(0, pat@.len() as int) =~= s@.subrange(
                start as int,
                start + pat@.len(),
            ));
            assert(rest.subrange(pat@.len() as int, rest.len() as int) =~= s@.subrange(
                start + pat@.len(),
                s@.len() as int,
            ));
        }
        start += pat.len();
    }
    proof {
        let rest = s@.subrange(start as int, s@.len() as int);
        if pat@.len() > 0 && start + pat@.len() <= s@.len() {
            assert(rest.subrange(0, pat@.len() as int) =~= s@.subrange(
                start as int,
                start + pat@.len(),
            ));
        }
    }
    slice(s, start, s.len())
}

pub fn trim_end_matches(s: &Vec<char>, c: char) -> (r: Vec<char>)
    ensures
        r@ == strip_trailing(s@, c),
{
    let mut end: usize = s.len();
    assert(s@.subrange(0, s@.len() as int) =~= s@);
    while end > 0 && s[end - 1] == c
        invariant
            end <= s.len(),
            strip_trailing(s@.subrange(0, end as int), c) == strip_trailing(s@, c),
        decreases end,
    {
        proof {
            assert(s@.subrange(0, end as int).drop_last() =~= s@.subrange(0, end - 1));
            if end == s@.len() {
                assert(s@.subrange(0, end as int) =~= s@);
            }
        }
        end -= 1;
    }
    proof {
        assert(s@.subrange(0, s@.len() as int) =~= s@);
    }
    slice(s, 0, end)
}

/// A count that includes a line that is not blank is above zero.
pub proof fn lemma_nonblank_count_positive(lines: Seq<Seq<char>>, upto: int, i: int)
    requires
        0 <= i < upto,
        is_nonblank(lines[i]),
    ensures
        nonblank_count(lines, upto) > 0,
    decreases upto,
{
    if i < upto - 1 {
        lemma_nonblank_count_positive(lines, upto - 1, i);
    }
}

/// A pattern that is not empty occurs no more often than the text has
/// characters left.
pub proof fn lemma_count_bound(s: Seq<char>, pat: Seq<char>, from: int)
    requires
        pat.len() > 0,
        0 <= from,
    ensures
        count_from(s, pat, from) <= s.len(),
        from <= s.len() ==> count_from(s, pat, from) <= s.len() - from,
    decreases s.len() - from + 1,
{
    let k = find_spec(s, pat, from);
    lemma_find_spec(s, pat, from);
    if k < from || k + pat.len() > s.len() {
    } else {
        lemma_count_bound(s, pat, k + pat.len());
    }
}

/// A number given in hundredths, written with two decimals.
pub open spec fn centi(n: nat) -> Seq<char> {
    decimal(n / 100) + seq!['.', digit_char((n / 10) % 10), digit_char(n % 10)]
}

/// A number given in hundredths, written with two decimals.
pub fn centi_chars(n: u128) -> (r: Vec<char>)
    ensures
        r@ == centi(n as nat),
{
    let mut r = decimal_chars(n / 100);
    r.push('.');
    r.push(digit((n / 10) % 10));
    r.push(digit(n % 10));
    assert(r@ =~= centi(n as nat));
    r
}

/// Appends `n` in decimal to `out`.
pub fn append_number(out: &mut Vec<char>, n: usize)
    ensures
        final(out)@ == old(out)@ + decimal(n as nat),
{
    let d = decimal_chars(n as u128);
    append(out, &d);
}

/// Appends `n`, given in hundredths, with two decimals to `out`.
pub fn append_centi(out: &mut Vec<char>, n: u64)
    ensures
        final(out)@ == old(out)@ + centi(n as nat),
{
    let d = centi_chars(n as u128);
    append(out, &d);
}

/// Appends the text of `s` to `out`.
pub fn append_string(out: &mut Vec<char>, s: &String)
    ensures
        final(out)@ == old(out)@ + s@,
{
    let d = to_chars(s.as_str());
    append(out, &d);
}

/// Whether the text `s` holds `pat`.
pub fn str_contains(s: &str, pat: &str) -> (b: bool)
    ensures
        b == contains_seq(s@, pat@),
{
    contains(&to_chars(s), &to_chars(pat))
}

/// Whether the texts `a` and `b` are the same.
pub fn str_eq(a: &str, b: &str) -> (r: bool)
    ensures
        r == (a@ == b@),
{
    same_text(&to_chars(a), &to_chars(b))
}

/// `s` in upper case, as Unicode maps it.
pub uninterp spec fn uppercase_of(s: Seq<char>) -> Seq<char>;

/// `s` in lower case, as Unicode maps it.
pub uninterp spec fn lowercase_of(s: Seq<char>) -> Seq<char>;

/// Trusted: `str::to_uppercase` depends on the text alone.
#[verifier::external_body]
pub(crate) fn uppercase(s: &str) -> (r: String)
    ensures
        r@ == uppercase_of(s@),
{
    s.to_uppercase()
}

/// Trusted: `str::to_lowercase` depends on the text alone.
#[verifier::external_body]
pub(crate) fn lowercase(s: &str) -> (r: String)
    ensures
        r@ == lowercase_of(s@),
{
    s.to_lowercase()
}

/// Adds the text `x` to the list `out`.
pub fn push_text(out: &mut Vec<Vec<char>>, x: Vec<char>)
    ensures
        views(final(out)@) == views(old(out)@).push(x@),
{
    proof {
        lemma_views_push(out@, x);
    }
    out.push(x);
}

/// Adds the texts of `more` to the list `out`.
pub fn extend_texts(out: &mut Vec<Vec<char>>, more: &Vec<Vec<char>>)
    ensures
        views(final(out)@) == views(old(out)@) + views(more@),
{
    let mut i: usize = 0;
    assert(views(out@) =~= views(old(out)@) + views(more@).take(0));
    while i < more.len()
        invariant
            i <= more.len(),
            views(out@) == views(old(out)@) + views(more@).take(i as int),
        decreases more.len() - i,
    {
        let item = slice(&more[i], 0, more[i].len());
        proof {
            assert(item@ =~= views(more@)[i as int]);
            assert((views(old(out)@) + views(more@).take(i as int)).push(item@) =~= views(
                old(out)@,
            ) + views(more@).take(i + 1));
        }
        push_text(out, item);
        i += 1;
    }
    assert(views(more@).take(more@.len() as int) =~= views(more@));
}

} // verus!
