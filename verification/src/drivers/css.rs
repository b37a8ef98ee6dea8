//! The style-sheet driver.

use crate::drivers::{
    penalty_of, penalty_of_chars, strip_chars, strip_spec, CommonMetrics, MetricsView,
};
use crate::text::{
    count_matches, count_nonblank, count_seq, ends_with, ends_with_seq, lemma_views_push, lines,
    lines_seq, nonblank_lines, replace, replace_seq, slice, starts_with, starts_with_seq,
    strip_prefixes, strip_trailing, to_chars, to_strings, trim, trim_end_matches, trim_seq,
    trim_start_matches, views,
};
use vstd::prelude::*;

verus! {

/// `s` without double and single quotes.
pub open spec fn without_quotes(s: Seq<char>) -> Seq<char> {
    replace_seq(replace_seq(s, "\""@, ""@), "'"@, ""@)
}

/// What a line imports, if it is an `@import`: the text after the keyword,
/// without trailing semicolons, a `url(..)` around it, and quotes.
pub open spec fn css_import(line: Seq<char>) -> Option<Seq<char>> {
    let t = trim_seq(line);
    if !starts_with_seq(t, "@import"@) {
        None
    } else {
        let p1 = trim_seq(strip_prefixes(t, "@import"@));
        let p2 = trim_seq(strip_trailing(p1, ';'));
        let p3 = if starts_with_seq(p2, "url("@) && ends_with_seq(p2, ")"@) && p2.len() >= 5 {
            p2.subrange(4, p2.len() - 1)
        } else {
            p2
        };
        let clean = trim_seq(without_quotes(p3));
        if clean.len() > 0 {
            Some(clean)
        } else {
            None
        }
    }
}

pub open spec fn css_deps(lines: Seq<Seq<char>>, upto: int) -> Seq<Seq<char>>
    decreases upto,
{
    if upto <= 0 {
        Seq::empty()
    } else {
        match css_import(lines[upto - 1]) {
            Some(d) => css_deps(lines, upto - 1).push(d),
            None => css_deps(lines, upto - 1),
        }
    }
}

/// The depth of braces after the first `upto` characters of `s`; a closing
/// brace with nothing open is passed over.
pub open spec fn brace_depth(s: Seq<char>, upto: int) -> nat
    decreases upto,
{
    if upto <= 0 {
        0
    } else {
        let d = brace_depth(s, upto - 1);
        if s[upto - 1] == '{' {
            d + 1
        } else if s[upto - 1] == '}' && d > 0 {
            (d - 1) as nat
        } else {
            d
        }
    }
}

/// The greatest depth of braces reached within the first `upto` characters.
pub open spec fn brace_nesting(s: Seq<char>, upto: int) -> nat
    decreases upto,
{
    if upto <= 0 {
        0
    } else {
        let best = brace_nesting(s, upto - 1);
        if brace_depth(s, upto) > best {
            brace_depth(s, upto)
        } else {
            best
        }
    }
}

/// What the style-sheet driver reports of `content`.
///
/// Lines count unless blank, imports are dependencies, and every opening
/// brace outside comments and strings is a branch. Nesting is the depth of
/// braces, and the pattern penalty is taken of the text without comments and
/// strings.
pub open spec fn css_metrics(content: Seq<char>, dict: Seq<(String, u64)>) -> MetricsView {
    let stripped = strip_spec(content, true);
    let ls = lines_seq(content);
    let deps = css_deps(ls, ls.len() as int);
    MetricsView {
        loc: nonblank_lines(content),
        logic_count: count_seq(stripped, "{"@),
        max_nesting: brace_nesting(stripped, stripped.len() as int),
        complexity_penalty: penalty_of(stripped, dict),
        hotspot_lines: None,
        hotspot_reason: None,
        hotspot_symbol: None,
        external_calls: deps.len(),
        internal_calls: 0,
        state_count: 0,
        dependencies: deps,
    }
}

pub fn strip_quotes(s: &Vec<char>) -> (r: Vec<char>)
    ensures
        r@ == without_quotes(s@),
{
    let nothing = to_chars("");
    let a = replace(s, &to_chars("\""), &nothing);
    replace(&a, &to_chars("'"), &nothing)
}

fn import_of(line: &Vec<char>) -> (r: Option<Vec<char>>)
    ensures
        match r {
            Some(d) => css_import(line@) == Some(d@),
            None => css_import(line@) is None,
        },
{
    let t = trim(line);
    let keyword = to_chars("@import");
    if !starts_with(&t, &keyword) {
        return None;
    }
    let p1 = trim(&trim_start_matches(&t, &keyword));
    let p2 = trim(&trim_end_matches(&p1, ';'));
    let p3 = if starts_with(&p2, &to_chars("url(")) && ends_with(&p2, &to_chars(")")) && p2.len()
        >= 5 {
        slice(&p2, 4, p2.len() - 1)
    } else {
        p2
    };
    let clean = trim(&strip_quotes(&p3));
    if clean.len() > 0 {
        Some(clean)
    } else {
        None
    }
}

fn nesting_of(s: &Vec<char>) -> (best: usize)
    ensures
        best as nat == brace_nesting(s@, s@.len() as int),
{
    let mut depth: usize = 0;
    let mut best: usize = 0;
    let mut i: usize = 0;
    while i < s.len()
        invariant
            i <= s.len(),
            depth <= i,
            depth as nat == brace_depth(s@, i as int),
            best as nat == brace_nesting(s@, i as int),
        decreases s.len() - i,
    {
        if s[i] == '{' {
            depth += 1;
        } else if s[i] == '}' && depth > 0 {
            depth -= 1;
        }
        if depth > best {
            best = depth;
        }
        i += 1;
    }
    best
}

/// What the style-sheet driver reports of `content`.
pub fn analyze_css(content: &str, dict: &Vec<(String, u64)>) -> (r: Result<CommonMetrics, String>)
    ensures
        r is Ok,
        r->Ok_0@ == css_metrics(content@, dict@),
{
    let chars = to_chars(content);
    let stripped = strip_chars(&chars, true);
    let ls = lines(&chars);
    let loc = count_nonblank(&ls);
    let mut deps: Vec<Vec<char>> = Vec::new();
    let mut i: usize = 0;
    assert(views(deps@) =~= Seq::<Seq<char>>::empty());
    while i < ls.len()
        invariant
            i <= ls.len(),
            views(deps@) == css_deps(views(ls@), i as int),
        decreases ls.len() - i,
    {
        assert(views(ls@)[i as int] == ls@[i as int]@);
        match import_of(&ls[i]) {
            Some(d) => {
                proof {
                    lemma_views_push(deps@, d);
                }
                deps.push(d);
            },
            None => {},
        }
        i += 1;
    }
    let brace = to_chars("{");
    let logic_count = count_matches(&stripped, &brace);
    proof {
        reveal_strlit("{");
        crate::text::lemma_count_bound(stripped@, brace@, 0);
        assert(count_seq(stripped@, brace@) <= stripped.len());
    }
    let external_calls = deps.len();
    let m = CommonMetrics {
        loc,
        logic_count,
        max_nesting: nesting_of(&stripped),
        complexity_penalty: penalty_of_chars(&stripped, dict),
        hotspot_lines: None,
        hotspot_reason: None,
        hotspot_symbol: None,
        external_calls,
        internal_calls: 0,
        state_count: 0,
        dependencies: to_strings(&deps),
    };
    Ok(m)
}

} // verus!
