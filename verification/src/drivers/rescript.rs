//! The lexical driver: a scanner over the characters of a file that keeps a
//! stack of brace scopes, counts branches and state, and finds the function
//! scope that weighs most.

use crate::drivers::{
    penalty_of, penalty_of_chars, strip_chars, strip_spec, CommonMetrics, MetricsView,
};
use crate::pattern::{first_groups, groups_view, regex_first_groups};
use crate::text::{
    append, append_str, char_is_alphabetic, char_is_uppercase, char_is_whitespace, contains,
    contains_seq, count_nonblank, decimal, decimal_chars, is_alphabetic, is_uppercase,
    is_whitespace, lemma_run_end_bounds, lemma_views_push, lines, lines_seq, list_contains,
    nonblank_lines, replace, replace_seq, run_end, run_start, same_text, scan_run,
    scan_run_back, slice, split, split_from, starts_with, starts_with_seq, to_chars, to_string,
    to_strings, trim, trim_seq, views, CharClass,
};
use vstd::prelude::*;

verus! {

/// One point of scope complexity. Complexity is carried in units of 2^-32 so
/// that halving stays exact through thirty-one levels of nesting.
pub const UNIT: u64 = 4294967296;

/// A brace scope.
pub struct Scope {
    pub name: Vec<char>,
    pub start_line: usize,
    pub depth: usize,
    pub complexity: u64,
    pub is_function: bool,
}

pub struct ScopeView {
    pub name: Seq<char>,
    pub start_line: int,
    pub depth: int,
    pub complexity: int,
    pub is_function: bool,
}

impl View for Scope {
    type V = ScopeView;

    open spec fn view(&self) -> ScopeView {
        ScopeView {
            name: self.name@,
            start_line: self.start_line as int,
            depth: self.depth as int,
            complexity: self.complexity as int,
            is_function: self.is_function,
        }
    }
}

pub open spec fn scopes(v: Seq<Scope>) -> Seq<ScopeView> {
    Seq::new(v.len(), |i: int| v[i]@)
}

/// The scanner between two steps.
///
/// `breaks` counts the line feeds passed, `quote` is the quote of the string
/// the scanner stands in, `pending` the name that the last `let name =` left
/// for the next scope.
pub struct Scan {
    pub pos: int,
    pub breaks: int,
    pub logic: int,
    pub states: int,
    pub nesting: int,
    pub stack: Seq<ScopeView>,
    pub done: Seq<ScopeView>,
    pub quote: Option<char>,
    pub pending: Option<Seq<char>>,
}

/// `pos` moved on by `k`, but not past the end.
pub open spec fn fwd(s: Seq<char>, pos: int, k: int) -> int {
    if pos + k <= s.len() {
        pos + k
    } else {
        s.len() as int
    }
}

/// The character `k` places after `pos`, or NUL beyond the end.
pub open spec fn peek(s: Seq<char>, pos: int, k: int) -> char {
    if 0 <= pos + k < s.len() {
        s[pos + k]
    } else {
        '\0'
    }
}

/// The index of the next line feed at or after `i`, or the length.
pub open spec fn line_end(s: Seq<char>, i: int) -> int
    decreases s.len() - i,
{
    if i < 0 || i >= s.len() {
        s.len() as int
    } else if s[i] == '\n' {
        i
    } else {
        line_end(s, i + 1)
    }
}

/// Where a block comment whose body starts at `i` ends (after its `*/`, or at
/// the end of the text), and the line feeds counted on the way.
pub open spec fn block_end(s: Seq<char>, i: int, breaks: int) -> (int, int)
    decreases s.len() - i,
{
    if i < 0 || i >= s.len() {
        (s.len() as int, breaks)
    } else if s[i] == '*' && peek(s, i, 1) == '/' {
        (i + 2, breaks)
    } else if s[i] == '\n' {
        block_end(s, i + 1, breaks + 1)
    } else {
        block_end(s, i + 1, breaks)
    }
}

/// Where the white space that starts at `i` ends, and the line feeds in it.
pub open spec fn ws_end(s: Seq<char>, i: int, breaks: int) -> (int, int)
    decreases s.len() - i,
{
    if i < 0 || i >= s.len() {
        (s.len() as int, breaks)
    } else if !is_whitespace(s[i]) {
        (i, breaks)
    } else if s[i] == '\n' {
        ws_end(s, i + 1, breaks + 1)
    } else {
        ws_end(s, i + 1, breaks)
    }
}

/// Where a type annotation that starts at `i` ends: at the next `=` or `{`.
pub open spec fn annotation_end(s: Seq<char>, i: int) -> int
    decreases s.len() - i,
{
    if i < 0 || i >= s.len() {
        s.len() as int
    } else if s[i] == '=' || s[i] == '{' {
        i
    } else {
        annotation_end(s, i + 1)
    }
}

pub open spec fn word_end(s: Seq<char>, i: int) -> int {
    run_end(s, i, CharClass::Word, true)
}

/// Complexity `a` raised by `b`, held at `u64::MAX`.
pub open spec fn sat(a: int, b: int) -> int {
    if a + b > u64::MAX {
        u64::MAX as int
    } else {
        a + b
    }
}

/// `stack` with the complexity of its innermost scope raised by `delta`.
pub open spec fn bump(stack: Seq<ScopeView>, delta: int) -> Seq<ScopeView> {
    if stack.len() == 0 {
        stack
    } else {
        stack.update(
            stack.len() - 1,
            ScopeView { complexity: sat(stack.last().complexity, delta), ..stack.last() },
        )
    }
}

/// What `{` does: a scope opens, named by the pending name if there is one.
pub open spec fn open_scope(st: Scan) -> Scan {
    let depth = st.stack.len() as int;
    Scan {
        pos: st.pos + 1,
        nesting: if depth > st.nesting {
            depth
        } else {
            st.nesting
        },
        stack: st.stack.push(
            ScopeView {
                name: match st.pending {
                    Some(n) => n,
                    None => "block"@,
                },
                start_line: st.breaks + 1,
                depth,
                complexity: 0,
                is_function: st.pending is Some,
            },
        ),
        pending: None,
        ..st
    }
}

/// What `}` does: the innermost scope closes, unless it is the root, and
/// half of its complexity goes to the scope around it.
pub open spec fn close_scope(st: Scan) -> Scan {
    if st.stack.len() > 1 {
        let top = st.stack.last();
        Scan {
            pos: st.pos + 1,
            stack: bump(st.stack.drop_last(), top.complexity / 2),
            done: st.done.push(top),
            ..st
        }
    } else {
        Scan { pos: st.pos + 1, ..st }
    }
}

/// A character that leaves a pending name in place.
pub open spec fn keeps_pending(c: char) -> bool {
    is_whitespace(c) || c == '=' || c == '(' || c == ')' || c == ':' || c == '.' || c == '['
        || c == ']' || c == '<' || c == '>'
}

/// After `let`: white space, a name, white space, an optional type
/// annotation, and `=`, which makes the name pending.
pub open spec fn after_let(s: Seq<char>, st: Scan) -> Scan {
    let (p1, b1) = ws_end(s, st.pos, st.breaks);
    let e = word_end(s, p1);
    if e <= p1 {
        Scan { pos: p1, breaks: b1, ..st }
    } else {
        let name = s.subrange(p1, e);
        let (p2, b2) = ws_end(s, e, b1);
        let p3 = if peek(s, p2, 0) == ':' {
            annotation_end(s, p2 + 1)
        } else {
            p2
        };
        if peek(s, p3, 0) == '=' {
            Scan { pos: p3 + 1, breaks: b2, pending: Some(name), ..st }
        } else {
            Scan { pos: p3, breaks: b2, ..st }
        }
    }
}

/// What the word that ends at `st.pos` does.
pub open spec fn step_word(s: Seq<char>, st: Scan, word: Seq<char>) -> Scan {
    if word == "switch"@ {
        Scan { logic: st.logic + 1, stack: bump(st.stack, 2 * UNIT), ..st }
    } else if word == "if"@ || word == "else"@ {
        Scan { logic: st.logic + 1, stack: bump(st.stack, UNIT as int), ..st }
    } else if word == "for"@ || word == "while"@ {
        Scan { logic: st.logic + 1, stack: bump(st.stack, 3 * UNIT), ..st }
    } else if word == "mutable"@ || word == "ref"@ || word == "useState"@ || word
        == "useReducer"@ {
        Scan { states: st.states + 1, stack: bump(st.stack, 5 * UNIT), ..st }
    } else if word == "let"@ {
        after_let(s, st)
    } else {
        st
    }
}

/// Passing a character that starts no word: it clears the pending name
/// unless it is one that may stand between a name and its scope.
pub open spec fn pass(s: Seq<char>, st: Scan, c: char) -> Scan {
    Scan {
        pos: fwd(s, st.pos, 1),
        pending: if keeps_pending(c) {
            st.pending
        } else {
            None
        },
        ..st
    }
}

/// A letter starts a word, which is read whole; any other character is passed.
pub open spec fn step_token(s: Seq<char>, st: Scan, c: char) -> Scan {
    if is_alphabetic(c) {
        let e = word_end(s, st.pos);
        step_word(s, Scan { pos: e, ..st }, s.subrange(st.pos, e))
    } else {
        pass(s, st, c)
    }
}

/// A step in code, outside comments and strings. A brace opens or closes a
/// scope, and a closing brace clears the pending name. `=>` is a branch
/// worth one point, `->` a branch worth half a point.
pub open spec fn step_code(s: Seq<char>, st: Scan, c: char) -> Scan {
    if c == '{' {
        open_scope(st)
    } else if c == '}' {
        Scan { pending: None, ..close_scope(st) }
    } else if c == '=' && peek(s, st.pos, 1) == '>' {
        pass(s, Scan { logic: st.logic + 1, stack: bump(st.stack, UNIT as int), ..st }, c)
    } else if c == '-' && peek(s, st.pos, 1) == '>' {
        pass(s, Scan { logic: st.logic + 1, stack: bump(st.stack, (UNIT / 2) as int), ..st }, c)
    } else {
        step_token(s, st, c)
    }
}

/// One step of the scanner, from a position inside the text.
pub open spec fn step(s: Seq<char>, st0: Scan) -> Scan {
    let c = s[st0.pos];
    let st = Scan {
        breaks: if c == '\n' {
            st0.breaks + 1
        } else {
            st0.breaks
        },
        ..st0
    };
    match st.quote {
        Some(q) => {
            if c == '\\' {
                Scan { pos: fwd(s, st.pos, 2), ..st }
            } else if c == q {
                Scan { pos: st.pos + 1, quote: None, ..st }
            } else {
                Scan { pos: st.pos + 1, ..st }
            }
        },
        None => {
            if c == '/' && peek(s, st.pos, 1) == '/' {
                Scan { pos: line_end(s, st.pos), ..st }
            } else if c == '/' && peek(s, st.pos, 1) == '*' {
                let (p, b) = block_end(s, st.pos + 2, st.breaks);
                Scan { pos: p, breaks: b, ..st }
            } else if c == '"' || c == '`' {
                Scan { pos: st.pos + 1, quote: Some(c), ..st }
            } else {
                step_code(s, st, c)
            }
        },
    }
}

/// The scanner run from `st` to the end of the text.
pub open spec fn scan_all(s: Seq<char>, st: Scan) -> Scan
    decreases s.len() - st.pos,
{
    if st.pos < 0 || st.pos >= s.len() {
        st
    } else {
        let next = step(s, st);
        if next.pos <= st.pos || next.pos > s.len() {
            st
        } else {
            scan_all(s, next)
        }
    }
}

/// The scanner before its first step: at the start, inside the root scope.
pub open spec fn scan_start() -> Scan {
    Scan {
        pos: 0,
        breaks: 0,
        logic: 0,
        states: 0,
        nesting: 0,
        stack: seq![
            ScopeView {
                name: "root"@,
                start_line: 1,
                depth: 0,
                complexity: 0,
                is_function: false,
            },
        ],
        done: Seq::empty(),
        quote: None,
        pending: None,
    }
}

/// Every scope in the order in which it was closed; those still open at the
/// end follow, innermost first.
pub open spec fn closed_scopes(st: Scan) -> Seq<ScopeView> {
    st.done + st.stack.reverse()
}

fn peek_at(s: &Vec<char>, pos: usize, k: usize) -> (c: char)
    requires
        pos < s.len(),
        k <= 1,
    ensures
        c == peek(s@, pos as int, k as int),
{
    if k < s.len() - pos {
        s[pos + k]
    } else {
        '\0'
    }
}

fn skip_line_comment(s: &Vec<char>, pos: usize) -> (e: usize)
    requires
        pos <= s.len(),
    ensures
        e as int == line_end(s@, pos as int),
        pos <= e <= s.len(),
{
    let mut e: usize = pos;
    while e < s.len() && s[e] != '\n'
        invariant
            pos <= e <= s.len(),
            line_end(s@, e as int) == line_end(s@, pos as int),
        decreases s.len() - e,
    {
        e += 1;
    }
    e
}

fn skip_block_comment(s: &Vec<char>, pos: usize, breaks: usize) -> (r: (usize, usize))
    requires
        pos <= s.len(),
        breaks <= pos,
    ensures
        (r.0 as int, r.1 as int) == block_end(s@, pos as int, breaks as int),
        pos <= r.0 <= s.len(),
        breaks <= r.1 <= r.0,
{
    let mut e: usize = pos;
    let mut b: usize = breaks;
    while e < s.len()
        invariant
            pos <= e <= s.len(),
            breaks <= b <= e,
            block_end(s@, e as int, b as int) == block_end(s@, pos as int, breaks as int),
        decreases s.len() - e,
    {
        if s[e] == '*' && peek_at(s, e, 1) == '/' {
            return (e + 2, b);
        }
        if s[e] == '\n' {
            b += 1;
        }
        e += 1;
    }
    (e, b)
}

fn skip_whitespace(s: &Vec<char>, pos: usize, breaks: usize) -> (r: (usize, usize))
    requires
        pos <= s.len(),
        breaks <= pos,
    ensures
        (r.0 as int, r.1 as int) == ws_end(s@, pos as int, breaks as int),
        pos <= r.0 <= s.len(),
        breaks <= r.1 <= r.0,
{
    let mut e: usize = pos;
    let mut b: usize = breaks;
    while e < s.len() && char_is_whitespace(s[e])
        invariant
            pos <= e <= s.len(),
            breaks <= b <= e,
            ws_end(s@, e as int, b as int) == ws_end(s@, pos as int, breaks as int),
        decreases s.len() - e,
    {
        if s[e] == '\n' {
            b += 1;
        }
        e += 1;
    }
    (e, b)
}

fn skip_annotation(s: &Vec<char>, pos: usize) -> (e: usize)
    requires
        pos <= s.len(),
    ensures
        e as int == annotation_end(s@, pos as int),
        pos <= e <= s.len(),
{
    let mut e: usize = pos;
    while e < s.len() && s[e] != '=' && s[e] != '{'
        invariant
            pos <= e <= s.len(),
            annotation_end(s@, e as int) == annotation_end(s@, pos as int),
        decreases s.len() - e,
    {
        e += 1;
    }
    e
}

fn read_word(s: &Vec<char>, pos: usize) -> (e: usize)
    requires
        pos <= s.len(),
    ensures
        e as int == word_end(s@, pos as int),
        pos <= e <= s.len(),
{
    scan_run(s, pos, CharClass::Word, true)
}

fn sat_add(a: u64, b: u64) -> (r: u64)
    ensures
        r as int == sat(a as int, b as int),
{
    if a > u64::MAX - b {
        u64::MAX
    } else {
        a + b
    }
}

fn bump_top(stack: &mut Vec<Scope>, delta: u64)
    requires
        old(stack).len() > 0,
    ensures
        final(stack).len() == old(stack).len(),
        scopes(final(stack)@) == bump(scopes(old(stack)@), delta as int),
{
    let mut top = stack.pop().unwrap();
    top.complexity = sat_add(top.complexity, delta);
    stack.push(top);
    assert(scopes(stack@) =~= bump(scopes(old(stack)@), delta as int));
}

fn push_scope(stack: &mut Vec<Scope>, pending: Option<Vec<char>>, breaks: usize)
    requires
        breaks < usize::MAX,
    ensures
        scopes(final(stack)@) == scopes(old(stack)@).push(
            ScopeView {
                name: match pending {
                    Some(n) => n@,
                    None => "block"@,
                },
                start_line: breaks + 1,
                depth: old(stack).len() as int,
                complexity: 0,
                is_function: pending is Some,
            },
        ),
        final(stack).len() == old(stack).len() + 1,
{
    let depth = stack.len();
    let is_function = pending.is_some();
    let name = match pending {
        Some(n) => n,
        None => to_chars("block"),
    };
    stack.push(Scope { name, start_line: breaks + 1, depth, complexity: 0, is_function });
    assert(scopes(stack@) =~= scopes(old(stack)@).push(stack@.last()@));
}

fn pop_scope(stack: &mut Vec<Scope>, done: &mut Vec<Scope>)
    requires
        old(stack).len() > 1,
    ensures
        final(stack).len() == old(stack).len() - 1,
        scopes(final(stack)@) == bump(
            scopes(old(stack)@).drop_last(),
            scopes(old(stack)@).last().complexity / 2,
        ),
        scopes(final(done)@) == scopes(old(done)@).push(scopes(old(stack)@).last()),
{
    let top = stack.pop().unwrap();
    let ghost rest = stack@;
    assert(scopes(rest) =~= scopes(old(stack)@).drop_last());
    bump_top(stack, top.complexity / 2);
    done.push(top);
    assert(scopes(done@) =~= scopes(old(done)@).push(scopes(old(stack)@).last()));
}

pub open spec fn opt_chars(o: Option<Vec<char>>) -> Option<Seq<char>> {
    match o {
        Some(v) => Some(v@),
        None => None,
    }
}

/// What the scanner has after the whole of `s`: the branches and the state
/// markers counted, and every scope.
pub struct ScanResult {
    pub logic_count: usize,
    pub state_count: usize,
    pub scopes: Vec<Scope>,
}

fn is_keyword(word: &Vec<char>, lit: &str) -> (b: bool)
    ensures
        b == (word@ == lit@),
{
    let l = to_chars(lit);
    same_text(word, &l)
}

/// Runs the scanner over `s`.
pub fn scan(s: &Vec<char>) -> (r: ScanResult)
    ensures
        r.logic_count as int == scan_all(s@, scan_start()).logic,
        r.state_count as int == scan_all(s@, scan_start()).states,
        scopes(r.scopes@) == closed_scopes(scan_all(s@, scan_start())),
{
    let mut pos: usize = 0;
    let mut breaks: usize = 0;
    let mut logic: usize = 0;
    let mut states: usize = 0;
    let mut nesting: usize = 0;
    let mut stack: Vec<Scope> = Vec::new();
    stack.push(
        Scope {
            name: to_chars("root"),
            start_line: 1,
            depth: 0,
            complexity: 0,
            is_function: false,
        },
    );
    let mut done: Vec<Scope> = Vec::new();
    let mut quote: Option<char> = None;
    let mut pending: Option<Vec<char>> = None;
    assert(scopes(stack@) =~= scan_start().stack);
    assert(scopes(done@) =~= scan_start().done);
    while pos < s.len()
        invariant
            pos <= s.len(),
            breaks <= pos,
            logic <= pos,
            states <= pos,
            stack.len() >= 1,
            scan_all(
                s@,
                Scan {
                    pos: pos as int,
                    breaks: breaks as int,
                    logic: logic as int,
                    states: states as int,
                    nesting: nesting as int,
                    stack: scopes(stack@),
                    done: scopes(done@),
                    quote,
                    pending: opt_chars(pending),
                },
            ) == scan_all(s@, scan_start()),
        decreases s.len() - pos,
    {
        let ghost g0 = Scan {
            pos: pos as int,
            breaks: breaks as int,
            logic: logic as int,
            states: states as int,
            nesting: nesting as int,
            stack: scopes(stack@),
            done: scopes(done@),
            quote,
            pending: opt_chars(pending),
        };
        let ghost start_pos = pos;
        let c = s[pos];
        if c == '\n' {
            breaks += 1;
        }
        let next = peek_at(s, pos, 1);
        match quote {
            Some(q) => {
                if c == '\\' {
                    pos = if s.len() - pos >= 2 {
                        pos + 2
                    } else {
                        s.len()
                    };
                } else if c == q {
                    quote = None;
                    pos += 1;
                } else {
                    pos += 1;
                }
            },
            None => {
                if c == '/' && next == '/' {
                    pos = skip_line_comment(s, pos + 1);
                } else if c == '/' && next == '*' {
                    let r = skip_block_comment(s, pos + 2, breaks);
                    pos = r.0;
                    breaks = r.1;
                } else if c == '"' || c == '`' {
                    quote = Some(c);
                    pos += 1;
                } else {
                    let mut passed = true;
                    if c == '{' {
                        if stack.len() > nesting {
                            nesting = stack.len();
                        }
                        let name = pending;
                        pending = None;
                        push_scope(&mut stack, name, breaks);
                        pos += 1;
                        passed = false;
                    } else if c == '}' {
                        if stack.len() > 1 {
                            pop_scope(&mut stack, &mut done);
                        }
                        pending = None;
                        pos += 1;
                        passed = false;
                    } else if c == '=' && next == '>' {
                        logic += 1;
                        bump_top(&mut stack, UNIT);
                    } else if c == '-' && next == '>' {
                        logic += 1;
                        bump_top(&mut stack, UNIT / 2);
                    } else if char_is_alphabetic(c) {
                        passed = false;
                        let e = read_word(s, pos);
                        let word = slice(s, pos, e);
                        proof {
                            lemma_run_end_bounds(s@, pos + 1, CharClass::Word, true);
                        }
                        pos = e;
                        if is_keyword(&word, "switch") {
                            logic += 1;
                            bump_top(&mut stack, 2 * UNIT);
                        } else if is_keyword(&word, "if") || is_keyword(&word, "else") {
                            logic += 1;
                            bump_top(&mut stack, UNIT);
                        } else if is_keyword(&word, "for") || is_keyword(&word, "while") {
                            logic += 1;
                            bump_top(&mut stack, 3 * UNIT);
                        } else if is_keyword(&word, "mutable") || is_keyword(&word, "ref")
                            || is_keyword(&word, "useState") || is_keyword(&word, "useReducer") {
                            states += 1;
                            bump_top(&mut stack, 5 * UNIT);
                        } else if is_keyword(&word, "let") {
                            let r1 = skip_whitespace(s, pos, breaks);
                            let p1 = r1.0;
                            let e1 = read_word(s, p1);
                            if e1 <= p1 {
                                pos = p1;
                                breaks = r1.1;
                            } else {
                                let name = slice(s, p1, e1);
                                let r2 = skip_whitespace(s, e1, r1.1);
                                let p2 = r2.0;
                                let p3 = if p2 < s.len() && s[p2] == ':' {
                                    skip_annotation(s, p2 + 1)
                                } else {
                                    p2
                                };
                                breaks = r2.1;
                                if p3 < s.len() && s[p3] == '=' {
                                    pending = Some(name);
                                    pos = p3 + 1;
                                } else {
                                    pos = p3;
                                }
                            }
                        }
                    }
                    if passed {
                        if !(char_is_whitespace(c) || c == '=' || c == '(' || c == ')' || c == ':'
                            || c == '.' || c == '[' || c == ']' || c == '<' || c == '>') {
                            pending = None;
                        }
                        pos = if pos < s.len() {
                            pos + 1
                        } else {
                            s.len()
                        };
                    }
                }
            },
        }
        proof {
            let g2 = Scan {
                pos: pos as int,
                breaks: breaks as int,
                logic: logic as int,
                states: states as int,
                nesting: nesting as int,
                stack: scopes(stack@),
                done: scopes(done@),
                quote,
                pending: opt_chars(pending),
            };
            assert(g2 == step(s@, g0));
            assert(pos > start_pos);
        }
    }
    while stack.len() > 0
        invariant
            scopes(done@) + scopes(stack@).reverse() == closed_scopes(scan_all(s@, scan_start())),
        decreases stack.len(),
    {
        let ghost before = scopes(stack@);
        let ghost had = scopes(done@);
        let top = stack.pop().unwrap();
        done.push(top);
        proof {
            assert(scopes(stack@) =~= before.drop_last());
            assert(scopes(done@) =~= had.push(before.last()));
            assert(before.reverse() =~= seq![before.last()] + before.drop_last().reverse());
            assert(had.push(before.last()) + before.drop_last().reverse() =~= had
                + before.reverse());
        }
    }
    proof {
        assert(scopes(done@) + scopes(stack@).reverse() =~= scopes(done@));
    }
    ScanResult { logic_count: logic, state_count: states, scopes: done }
}

/// The second of the words of `t` that white space separates, if there are two.
pub open spec fn second_token(t: Seq<char>) -> Option<Seq<char>> {
    let a0 = run_end(t, 0, CharClass::Space, true);
    let e0 = run_end(t, a0, CharClass::Space, false);
    let a1 = run_end(t, e0, CharClass::Space, true);
    let e1 = run_end(t, a1, CharClass::Space, false);
    if a1 < e1 <= t.len() {
        Some(t.subrange(a1, e1))
    } else {
        None
    }
}

/// The last run of word characters in `p`; empty where `p` holds none.
pub open spec fn last_word(p: Seq<char>) -> Seq<char> {
    let e = run_start(p, p.len() as int, CharClass::Word, false);
    let b = run_start(p, e, CharClass::Word, true);
    if 0 <= b <= e <= p.len() {
        p.subrange(b, e)
    } else {
        Seq::empty()
    }
}

/// The modules named before the dots of a line: of each of the first `upto`
/// pieces, the last word, where it starts with an upper-case letter and is
/// not yet among the dependencies.
pub open spec fn dot_deps(parts: Seq<Seq<char>>, upto: int, acc: Seq<Seq<char>>) -> Seq<Seq<char>>
    decreases upto,
{
    if upto <= 0 {
        acc
    } else {
        let prev = dot_deps(parts, upto - 1, acc);
        let m = last_word(trim_seq(parts[upto - 1]));
        if m.len() > 0 && is_uppercase(m[0]) && !prev.contains(m) {
            prev.push(m)
        } else {
            prev
        }
    }
}

/// What one line adds to the dependencies.
///
/// `open X` and `include X` name `X`; `module X = Y` names `Y`; in any other
/// line each capitalised word right before a dot names a module. A semicolon
/// in a name is dropped.
pub open spec fn line_dep_step(acc: Seq<Seq<char>>, line: Seq<char>) -> Seq<Seq<char>> {
    let t = trim_seq(line);
    if starts_with_seq(t, "open "@) || starts_with_seq(t, "include "@) {
        match second_token(t) {
            Some(d) => acc.push(replace_seq(d, ";"@, ""@)),
            None => acc,
        }
    } else if starts_with_seq(t, "module "@) && contains_seq(t, "="@) {
        let parts = split_from(t, "="@, 0);
        if parts.len() > 1 {
            acc.push(replace_seq(trim_seq(parts[1]), ";"@, ""@))
        } else {
            acc
        }
    } else if contains_seq(t, "."@) {
        let parts = split_from(t, "."@, 0);
        dot_deps(parts, parts.len() - 1, acc)
    } else {
        acc
    }
}

pub open spec fn line_deps(lines: Seq<Seq<char>>, upto: int) -> Seq<Seq<char>>
    decreases upto,
{
    if upto <= 0 {
        Seq::empty()
    } else {
        line_dep_step(line_deps(lines, upto - 1), lines[upto - 1])
    }
}

/// A component name that stands for no module of the project.
pub open spec fn is_builtin_component(name: Seq<char>) -> bool {
    name == "React"@ || name == "JSON"@ || name == "Blob"@ || name == "File"@ || name == "Dom"@
        || name == "Nullable"@
}

/// What the markup tags add to the dependencies: of each tag the part before
/// its first dot, unless it is empty, built in, or already there.
pub open spec fn tag_deps(tags: Seq<Option<Seq<char>>>, upto: int, acc: Seq<Seq<char>>) -> Seq<
    Seq<char>,
>
    decreases upto,
{
    if upto <= 0 {
        acc
    } else {
        let prev = tag_deps(tags, upto - 1, acc);
        match tags[upto - 1] {
            Some(tag) => {
                let name = split_from(tag, "."@, 0)[0];
                if name.len() > 0 && !is_builtin_component(name) && !prev.contains(name) {
                    prev.push(name)
                } else {
                    prev
                }
            },
            None => prev,
        }
    }
}

/// The dependencies of a file whose text, without comments and strings, is
/// `stripped`, and whose capitalised markup tags are `tags`.
pub open spec fn dependencies_of(stripped: Seq<char>, tags: Seq<Option<Seq<char>>>) -> Seq<
    Seq<char>,
> {
    let ls = lines_seq(stripped);
    tag_deps(tags, tags.len() as int, line_deps(ls, ls.len() as int))
}

pub open spec fn tags_view(tags: Seq<Option<String>>) -> Seq<Option<Seq<char>>> {
    Seq::new(
        tags.len(),
        |i: int|
            match tags[i] {
                Some(g) => Some(g@),
                None => None,
            },
    )
}

fn find_second_token(t: &Vec<char>) -> (r: Option<Vec<char>>)
    ensures
        opt_chars(r) == second_token(t@),
{
    let a0 = scan_run(t, 0, CharClass::Space, true);
    let e0 = scan_run(t, a0, CharClass::Space, false);
    let a1 = scan_run(t, e0, CharClass::Space, true);
    let e1 = scan_run(t, a1, CharClass::Space, false);
    if a1 < e1 {
        Some(slice(t, a1, e1))
    } else {
        None
    }
}

fn find_last_word(p: &Vec<char>) -> (r: Vec<char>)
    ensures
        r@ == last_word(p@),
{
    let e = scan_run_back(p, p.len(), CharClass::Word, false);
    let b = scan_run_back(p, e, CharClass::Word, true);
    slice(p, b, e)
}

fn push_text(acc: &mut Vec<Vec<char>>, x: Vec<char>)
    ensures
        views(final(acc)@) == views(old(acc)@).push(x@),
{
    proof {
        lemma_views_push(acc@, x);
    }
    acc.push(x);
}

fn add_line_deps(acc: &mut Vec<Vec<char>>, line: &Vec<char>)
    ensures
        views(final(acc)@) == line_dep_step(views(old(acc)@), line@),
{
    let t = trim(line);
    let semi = to_chars(";");
    let nothing = to_chars("");
    let eq = to_chars("=");
    let dot = to_chars(".");
    if starts_with(&t, &to_chars("open ")) || starts_with(&t, &to_chars("include ")) {
        match find_second_token(&t) {
            Some(d) => {
                push_text(acc, replace(&d, &semi, &nothing));
            },
            None => {},
        }
    } else if starts_with(&t, &to_chars("module ")) && contains(&t, &eq) {
        let parts = split(&t, &eq);
        if parts.len() > 1 {
            let y = trim(&parts[1]);
            assert(views(parts@)[1] == parts@[1]@);
            push_text(acc, replace(&y, &semi, &nothing));
        }
    } else if contains(&t, &dot) {
        let parts = split(&t, &dot);
        let mut i: usize = 0;
        while i < parts.len() - 1
            invariant
                i <= parts.len() - 1,
                parts.len() >= 1,
                views(acc@) == dot_deps(views(parts@), i as int, views(old(acc)@)),
            decreases parts.len() - i,
        {
            let p = trim(&parts[i]);
            assert(views(parts@)[i as int] == parts@[i as int]@);
            let m = find_last_word(&p);
            if m.len() > 0 && char_is_uppercase(m[0]) && !list_contains(acc, &m) {
                push_text(acc, m);
            }
            i += 1;
        }
    }
}

fn add_tag_deps(acc: &mut Vec<Vec<char>>, tags: &Vec<Option<String>>)
    ensures
        views(final(acc)@) == tag_deps(tags_view(tags@), tags@.len() as int, views(old(acc)@)),
{
    let dot = to_chars(".");
    let mut i: usize = 0;
    while i < tags.len()
        invariant
            i <= tags.len(),
            dot@ == "."@,
            views(acc@) == tag_deps(tags_view(tags@), i as int, views(old(acc)@)),
        decreases tags.len() - i,
    {
        match &tags[i] {
            Some(tag) => {
                let chars = to_chars(tag.as_str());
                let mut parts = split(&chars, &dot);
                assert(views(parts@)[0] == parts@[0]@);
                let name = parts.swap_remove(0);
                let builtin = is_keyword(&name, "React") || is_keyword(&name, "JSON")
                    || is_keyword(&name, "Blob") || is_keyword(&name, "File") || is_keyword(
                    &name,
                    "Dom",
                ) || is_keyword(&name, "Nullable");
                if name.len() > 0 && !builtin && !list_contains(acc, &name) {
                    push_text(acc, name);
                }
            },
            None => {},
        }
        i += 1;
    }
}

/// The dependencies of a file, given its text without comments and strings
/// and its capitalised markup tags.
pub fn extract_dependencies(stripped: &Vec<char>, tags: &Vec<Option<String>>) -> (deps: Vec<
    Vec<char>,
>)
    ensures
        views(deps@) == dependencies_of(stripped@, tags_view(tags@)),
{
    let ls = lines(stripped);
    let mut acc: Vec<Vec<char>> = Vec::new();
    let mut i: usize = 0;
    assert(views(acc@) =~= Seq::<Seq<char>>::empty());
    while i < ls.len()
        invariant
            i <= ls.len(),
            views(ls@) == lines_seq(stripped@),
            views(acc@) == line_deps(views(ls@), i as int),
        decreases ls.len() - i,
    {
        assert(views(ls@)[i as int] == ls@[i as int]@);
        add_line_deps(&mut acc, &ls[i]);
        i += 1;
    }
    add_tag_deps(&mut acc, tags);
    acc
}

/// The greatest depth among the first `upto` scopes.
pub open spec fn max_depth(all: Seq<ScopeView>, upto: int) -> int
    decreases upto,
{
    if upto <= 0 {
        0
    } else {
        let prev = max_depth(all, upto - 1);
        if all[upto - 1].depth > prev {
            all[upto - 1].depth
        } else {
            prev
        }
    }
}

/// The index of the hotspot among the first `upto` scopes, or -1: the first
/// function scope whose complexity is above zero and above that of every
/// function scope before it that was the hotspot in its turn.
pub open spec fn hotspot(all: Seq<ScopeView>, upto: int) -> int
    decreases upto,
{
    if upto <= 0 {
        -1
    } else {
        let prev = hotspot(all, upto - 1);
        let best = if 0 <= prev < all.len() {
            all[prev].complexity
        } else {
            0
        };
        if all[upto - 1].is_function && all[upto - 1].complexity > best {
            upto - 1
        } else {
            prev
        }
    }
}

/// The hotspot is a function scope, and no function scope weighs more.
pub proof fn lemma_hotspot_is_heaviest(all: Seq<ScopeView>, upto: int)
    requires
        0 <= upto <= all.len(),
    ensures
        -1 <= hotspot(all, upto) < upto,
        hotspot(all, upto) >= 0 ==> all[hotspot(all, upto)].is_function && all[hotspot(
            all,
            upto,
        )].complexity > 0,
        forall|i: int|
            0 <= i < upto && all[i].is_function ==> if hotspot(all, upto) >= 0 {
                #[trigger] all[i].complexity <= all[hotspot(all, upto)].complexity
            } else {
                all[i].complexity <= 0
            },
    decreases upto,
{
    if upto > 0 {
        lemma_hotspot_is_heaviest(all, upto - 1);
    }
}

/// Complexity `c`, given in units of 2^-32, in tenths, rounded to the nearest
/// tenth and to the even one of two that are equally near.
pub open spec fn tenths(c: nat) -> nat {
    let q = (c * 10) / (UNIT as nat);
    let r = (c * 10) % (UNIT as nat);
    if r > UNIT / 2 || (r == UNIT / 2 && q % 2 == 1) {
        q + 1
    } else {
        q
    }
}

/// Complexity `c` written with one decimal.
pub open spec fn one_decimal(c: nat) -> Seq<char> {
    decimal(tenths(c) / 10) + seq!['.'] + decimal(tenths(c) % 10)
}

fn one_decimal_chars(c: u64) -> (r: Vec<char>)
    ensures
        r@ == one_decimal(c as nat),
{
    let scaled: u128 = (c as u128) * 10;
    let unit: u128 = UNIT as u128;
    let q: u128 = scaled / unit;
    let rem: u128 = scaled % unit;
    let t: u128 = if rem > unit / 2 || (rem == unit / 2 && q % 2 == 1) {
        q + 1
    } else {
        q
    };
    assert(t == tenths(c as nat));
    let mut r = decimal_chars(t / 10);
    r.push('.');
    let frac = decimal_chars(t % 10);
    let ghost head = r@;
    append(&mut r, &frac);
    assert(r@ =~= decimal(tenths(c as nat) / 10) + seq!['.'] + decimal(tenths(c as nat) % 10));
    r
}

pub open spec fn symbol_text(name: Seq<char>) -> Seq<char> {
    "Function: `"@ + name + "`"@
}

pub open spec fn reason_text(complexity: nat) -> Seq<char> {
    "High Local Complexity ("@ + one_decimal(complexity) + "). Logic heavy."@
}

pub open spec fn least(a: int, b: int) -> int {
    if a <= b {
        a
    } else {
        b
    }
}

/// The pattern that finds a capitalised markup tag and captures its name.
pub open spec fn jsx_pattern() -> Seq<char> {
    "<([A-Z][a-zA-Z0-9\\._]*)"@
}

/// What the lexical driver reports of `content`, once `tags` are known: what
/// the first group of `jsx_pattern()` holds in each of its matches in the
/// text without comments and strings.
///
/// Lines count unless they are blank. The scanner gives the
/// branches, the state markers and the scopes; the deepest scope gives the
/// nesting. The hotspot is the heaviest function scope: it is named, its
/// lines run from where it opens for twenty lines, but not past the line
/// count, and the reason gives its complexity to one decimal. Without a
/// hotspot, a pattern penalty above fifty is put down to the global scope.
pub open spec fn rescript_metrics(
    content: Seq<char>,
    dict: Seq<(String, u64)>,
    tags: Seq<Option<Seq<char>>>,
) -> MetricsView {
    let end = scan_all(content, scan_start());
    let all = closed_scopes(end);
    let h = hotspot(all, all.len() as int);
    let loc = nonblank_lines(content);
    let penalty = penalty_of(content, dict);
    let deps = dependencies_of(strip_spec(content, false), tags);
    MetricsView {
        loc,
        logic_count: end.logic as nat,
        max_nesting: max_depth(all, all.len() as int) as nat,
        complexity_penalty: penalty,
        hotspot_lines: if 0 <= h < all.len() {
            Some((all[h].start_line as nat, least(loc as int, all[h].start_line + 20) as nat))
        } else {
            None
        },
        hotspot_reason: if 0 <= h < all.len() {
            Some(reason_text(all[h].complexity as nat))
        } else if penalty > 50000 {
            Some("Global Scope Complexity"@)
        } else {
            None
        },
        hotspot_symbol: if 0 <= h < all.len() {
            Some(symbol_text(all[h].name))
        } else {
            None
        },
        external_calls: deps.len(),
        internal_calls: 0,
        state_count: end.states as nat,
        dependencies: deps,
    }
}

/// The tags to go by where the pattern could not be matched at all: none.
pub open spec fn tags_or_none(found: Option<Seq<Option<Seq<char>>>>) -> Seq<Option<Seq<char>>> {
    match found {
        Some(t) => t,
        None => Seq::empty(),
    }
}

fn deepest(all: &Vec<Scope>) -> (d: usize)
    ensures
        d as int == max_depth(scopes(all@), all@.len() as int),
{
    let mut d: usize = 0;
    let mut i: usize = 0;
    while i < all.len()
        invariant
            i <= all.len(),
            d as int == max_depth(scopes(all@), i as int),
        decreases all.len() - i,
    {
        if all[i].depth > d {
            d = all[i].depth;
        }
        i += 1;
    }
    d
}

fn find_hotspot(all: &Vec<Scope>) -> (h: Option<usize>)
    ensures
        match h {
            Some(i) => i as int == hotspot(scopes(all@), all@.len() as int) && i < all.len(),
            None => hotspot(scopes(all@), all@.len() as int) == -1,
        },
{
    let mut h: Option<usize> = None;
    let mut best: u64 = 0;
    let mut i: usize = 0;
    while i < all.len()
        invariant
            i <= all.len(),
            match h {
                Some(k) => k as int == hotspot(scopes(all@), i as int) && k < i && best
                    == all@[k as int].complexity,
                None => hotspot(scopes(all@), i as int) == -1 && best == 0,
            },
        decreases all.len() - i,
    {
        if all[i].is_function && all[i].complexity > best {
            best = all[i].complexity;
            h = Some(i);
        }
        i += 1;
    }
    h
}

/// What the lexical driver reports of `content`, given its capitalised
/// markup tags.
pub fn analyze_with_tags(
    content: &str,
    dict: &Vec<(String, u64)>,
    tags: &Vec<Option<String>>,
) -> (m: CommonMetrics)
    ensures
        m@ == rescript_metrics(content@, dict@, tags_view(tags@)),
{
    let chars = to_chars(content);
    let ls = lines(&chars);
    let loc = count_nonblank(&ls);
    let penalty = penalty_of_chars(&chars, dict);
    let stripped = strip_chars(&chars, false);
    let deps = extract_dependencies(&stripped, tags);
    let scanned = scan(&chars);
    let all = scanned.scopes;
    let nesting = deepest(&all);
    let mut hotspot_lines: Option<(usize, usize)> = None;
    let mut hotspot_reason: Option<String> = None;
    let mut hotspot_symbol: Option<String> = None;
    match find_hotspot(&all) {
        Some(h) => {
            let sc = &all[h];
            assert(scopes(all@)[h as int] == sc@);
            let last = if loc <= sc.start_line || loc - sc.start_line <= 20 {
                loc
            } else {
                sc.start_line + 20
            };
            hotspot_lines = Some((sc.start_line, last));
            let mut sym = to_chars("Function: `");
            append(&mut sym, &sc.name);
            append_str(&mut sym, "`");
            hotspot_symbol = Some(to_string(&sym));
            let mut why = to_chars("High Local Complexity (");
            let num = one_decimal_chars(sc.complexity);
            append(&mut why, &num);
            append_str(&mut why, "). Logic heavy.");
            hotspot_reason = Some(to_string(&why));
        },
        None => {
            if penalty > 50000 {
                hotspot_reason = Some("Global Scope Complexity".to_string());
            }
        },
    }
    let external_calls = deps.len();
    let dependencies = to_strings(&deps);
    CommonMetrics {
        loc,
        logic_count: scanned.logic_count,
        max_nesting: nesting,
        complexity_penalty: penalty,
        hotspot_lines,
        hotspot_reason,
        hotspot_symbol,
        external_calls,
        internal_calls: 0,
        state_count: scanned.state_count,
        dependencies,
    }
}

/// The lexical driver, holding the text it is to read.
pub struct RescriptParser {
    content: String,
}

impl RescriptParser {
    pub closed spec fn text(&self) -> Seq<char> {
        self.content@
    }

    pub fn new(content: &str) -> (p: RescriptParser)
        ensures
            p.text() == content@,
    {
        RescriptParser { content: content.to_string() }
    }

    /// Reads the file. The markup tags are those that `jsx_pattern()` finds in
    /// the text without comments and strings.
    pub fn analyze(self, dict: &Vec<(String, u64)>) -> (r: Result<CommonMetrics, String>)
        ensures
            r is Ok,
            r->Ok_0@ == rescript_metrics(
                self.text(),
                dict@,
                tags_or_none(regex_first_groups(jsx_pattern(), strip_spec(self.text(), false))),
            ),
    {
        let chars = to_chars(self.content.as_str());
        let stripped = to_string(&strip_chars(&chars, false));
        let found = first_groups("<([A-Z][a-zA-Z0-9\\._]*)", stripped.as_str());
        let tags = match found {
            Some(t) => t,
            None => Vec::new(),
        };
        assert(tags_view(tags@) =~= tags_or_none(groups_view(found)));
        Ok(analyze_with_tags(self.content.as_str(), dict, &tags))
    }
}

/// What the lexical driver reports of `content`.
pub fn analyze_rescript(content: &str, dict: &Vec<(String, u64)>) -> (r: Result<CommonMetrics, String>)
    ensures
        r is Ok,
        r->Ok_0@ == rescript_metrics(
            content@,
            dict@,
            tags_or_none(regex_first_groups(jsx_pattern(), strip_spec(content@, false))),
        ),
{
    let parser = RescriptParser::new(content);
    parser.analyze(dict)
}

} // verus!
