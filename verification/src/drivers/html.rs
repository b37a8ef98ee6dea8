//! The markup driver, which also reads scripts.

use crate::drivers::css::{strip_quotes, without_quotes};
use crate::drivers::{penalty_of, penalty_of_chars, CommonMetrics, MetricsView};
use crate::text::{
    contains, contains_seq, count_nonblank, find_from, find_spec, lemma_find_spec,
    lemma_views_push, lines, lines_seq, nonblank_lines,
    replace, replace_seq, run_end, scan_run, slice, split, split_from, starts_with,
    starts_with_seq, strip_prefixes, to_chars, to_strings, trim, trim_seq, trim_start_matches,
    views, CharClass,
};
use vstd::prelude::*;

verus! {

/// `s` without semicolons and quotes.
pub open spec fn bare_path(s: Seq<char>) -> Seq<char> {
    without_quotes(replace_seq(s, ";"@, ""@))
}

/// What a line imports, if anything.
///
/// An `import` line names what follows its first `from`, whatever that is;
/// without a `from` it names what follows the keyword, unless that is empty.
/// Any other line that holds `require(` names what stands between the first
/// of them and the next `)`.
pub open spec fn html_import(line: Seq<char>) -> Option<Seq<char>> {
    let t = trim_seq(line);
    if starts_with_seq(t, "import "@) {
        let k = find_spec(t, "from"@, 0);
        if 0 <= k && k + 4 <= t.len() {
            Some(bare_path(trim_seq(t.subrange(k + 4, t.len() as int))))
        } else {
            let d = bare_path(trim_seq(strip_prefixes(t, "import "@)));
            if d.len() > 0 {
                Some(d)
            } else {
                None
            }
        }
    } else if contains_seq(t, "require("@) {
        let parts = split_from(t, "require("@, 0);
        if parts.len() > 1 {
            let e = find_spec(parts[1], ")"@, 0);
            if 0 <= e <= parts[1].len() {
                Some(without_quotes(parts[1].subrange(0, e)))
            } else {
                None
            }
        } else {
            None
        }
    } else {
        None
    }
}

pub open spec fn html_deps(lines: Seq<Seq<char>>, upto: int) -> Seq<Seq<char>>
    decreases upto,
{
    if upto <= 0 {
        Seq::empty()
    } else {
        match html_import(lines[upto - 1]) {
            Some(d) => html_deps(lines, upto - 1).push(d),
            None => html_deps(lines, upto - 1),
        }
    }
}

/// The nesting that the indentation of a line stands for: one level for
/// every two characters of leading white space.
pub open spec fn indent_level(line: Seq<char>) -> nat {
    (run_end(line, 0, CharClass::Space, true) / 2) as nat
}

/// The deepest indentation among the first `upto` lines.
pub open spec fn indent_nesting(lines: Seq<Seq<char>>, upto: int) -> nat
    decreases upto,
{
    if upto <= 0 {
        0
    } else {
        let best = indent_nesting(lines, upto - 1);
        if indent_level(lines[upto - 1]) > best {
            indent_level(lines[upto - 1])
        } else {
            best
        }
    }
}

/// Whether a tag opens at `i`: a `<` with a character after it that is
/// neither `/`, which closes a tag, nor `!`, which opens a comment or a
/// declaration.
pub open spec fn opens_tag(s: Seq<char>, i: int) -> bool {
    0 <= i && i + 1 < s.len() && s[i] == '<' && s[i + 1] != '/' && s[i + 1] != '!'
}

/// How many tags open before `upto`.
pub open spec fn open_tags(s: Seq<char>, upto: int) -> nat
    decreases upto,
{
    if upto <= 0 {
        0
    } else {
        open_tags(s, upto - 1) + if opens_tag(s, upto - 1) {
            1nat
        } else {
            0nat
        }
    }
}

/// What the markup driver reports of `content`.
///
/// Lines count unless blank, every opening tag is a branch, imports and
/// requires are dependencies, and nesting is read off the indentation.
pub open spec fn html_metrics(content: Seq<char>, dict: Seq<(String, u64)>) -> MetricsView {
    let ls = lines_seq(content);
    let deps = html_deps(ls, ls.len() as int);
    MetricsView {
        loc: nonblank_lines(content),
        logic_count: open_tags(content, content.len() as int),
        max_nesting: indent_nesting(ls, ls.len() as int),
        complexity_penalty: penalty_of(content, dict),
        hotspot_lines: None,
        hotspot_reason: None,
        hotspot_symbol: None,
        external_calls: deps.len(),
        internal_calls: 0,
        state_count: 0,
        dependencies: deps,
    }
}

fn strip_path(s: &Vec<char>) -> (r: Vec<char>)
    ensures
        r@ == bare_path(s@),
{
    let a = replace(s, &to_chars(";"), &to_chars(""));
    strip_quotes(&a)
}

fn import_of(line: &Vec<char>) -> (r: Option<Vec<char>>)
    ensures
        match r {
            Some(d) => html_import(line@) == Some(d@),
            None => html_import(line@) is None,
        },
{
    let t = trim(line);
    let keyword = to_chars("import ");
    let call = to_chars("require(");
    if starts_with(&t, &keyword) {
        let from = to_chars("from");
        proof {
            reveal_strlit("from");
            lemma_find_spec(t@, from@, 0);
        }
        match find_from(&t, &from, 0) {
            Some(k) => {
                assert(k + 4 <= t.len());
                let rest = slice(&t, k + 4, t.len());
                Some(strip_path(&trim(&rest)))
            },
            None => {
                let d = strip_path(&trim(&trim_start_matches(&t, &keyword)));
                if d.len() > 0 {
                    Some(d)
                } else {
                    None
                }
            },
        }
    } else if contains(&t, &call) {
        let parts = split(&t, &call);
        if parts.len() > 1 {
            let close = to_chars(")");
            assert(views(parts@)[1] == parts@[1]@);
            proof {
                lemma_find_spec(parts@[1]@, close@, 0);
            }
            match find_from(&parts[1], &close, 0) {
                Some(e) => Some(strip_quotes(&slice(&parts[1], 0, e))),
                None => None,
            }
        } else {
            None
        }
    } else {
        None
    }
}

/// How many tags open in `chars`.
pub fn count_open_tags(chars: &Vec<char>) -> (n: usize)
    ensures
        n == open_tags(chars@, chars@.len() as int),
{
    let mut n: usize = 0;
    let mut i: usize = 0;
    while i < chars.len()
        invariant
            i <= chars.len(),
            n <= i,
            n == open_tags(chars@, i as int),
        decreases chars.len() - i,
    {
        if chars[i] == '<' && i + 1 < chars.len() && chars[i + 1] != '/' && chars[i + 1] != '!' {
            n += 1;
        }
        i += 1;
    }
    n
}

/// What the markup driver reports of `content`.
pub fn analyze_html(content: &str, dict: &Vec<(String, u64)>) -> (r: Result<CommonMetrics, String>)
    ensures
        r is Ok,
        r->Ok_0@ == html_metrics(content@, dict@),
{
    let chars = to_chars(content);
    let ls = lines(&chars);
    let loc = count_nonblank(&ls);
    let mut deps: Vec<Vec<char>> = Vec::new();
    let mut nesting: usize = 0;
    let mut i: usize = 0;
    assert(views(deps@) =~= Seq::<Seq<char>>::empty());
    while i < ls.len()
        invariant
            i <= ls.len(),
            views(deps@) == html_deps(views(ls@), i as int),
            nesting as nat == indent_nesting(views(ls@), i as int),
        decreases ls.len() - i,
    {
        assert(views(ls@)[i as int] == ls@[i as int]@);
        match import_of(&ls[i]) {
            Some(d) => {
                proof {
                    lemma_views_push(deps@, d);
                }
                deps.push(d);
            },
            None => {},
        }
        let level = scan_run(&ls[i], 0, CharClass::Space, true) / 2;
        if level > nesting {
            nesting = level;
        }
        i += 1;
    }
    let logic_count = count_open_tags(&chars);
    let external_calls = deps.len();
    Ok(
        CommonMetrics {
            loc,
            logic_count,
            max_nesting: nesting,
            complexity_penalty: penalty_of_chars(&chars, dict),
            hotspot_lines: None,
            hotspot_reason: None,
            hotspot_symbol: None,
            external_calls,
            internal_calls: 0,
            state_count: 0,
            dependencies: to_strings(&deps),
        },
    )
}

} // verus!
