//! Paths as texts whose parts are separated by `/`.

use crate::text::{append, append_str, same_text, slice, split, split_from, to_chars, views};
use vstd::prelude::*;

verus! {

/// The part `.` ends at `j` without being the first part of the path.
pub open spec fn dot_part_ends(p: Seq<char>, j: int) -> bool {
    2 <= j <= p.len() && p[j - 1] == '.' && p[j - 2] == '/'
}

/// The end of the text before `j` once what stands for nothing at the end
/// is dropped: separators, and parts `.` other than the first part.
pub open spec fn trimmed_end(p: Seq<char>, j: int) -> int
    decreases j,
{
    if j <= 0 || j > p.len() {
        0
    } else if p[j - 1] == '/' || dot_part_ends(p, j) {
        trimmed_end(p, j - 1)
    } else {
        j
    }
}

/// The start of the part that ends at `j`: the index after the last
/// separator before `j`, or 0.
pub open spec fn part_start(p: Seq<char>, j: int) -> int
    decreases j,
{
    if j <= 0 || j > p.len() {
        0
    } else if p[j - 1] == '/' {
        j
    } else {
        part_start(p, j - 1)
    }
}

/// The last part of a path, trailing separators and parts `.` aside. A path
/// that is empty, that is `.` or a root alone, or that ends in `..` has none.
pub open spec fn file_name_of(p: Seq<char>) -> Option<Seq<char>> {
    let e = trimmed_end(p, p.len() as int);
    let b = part_start(p, e);
    if 0 <= b <= e <= p.len() {
        let n = p.subrange(b, e);
        if n.len() == 0 || n == "."@ || n == ".."@ {
            None
        } else {
            Some(n)
        }
    } else {
        None
    }
}

/// The index of the last `.` before `j` in `n`, or -1.
pub open spec fn last_dot(n: Seq<char>, j: int) -> int
    decreases j,
{
    if j <= 0 || j > n.len() {
        -1
    } else if n[j - 1] == '.' {
        j - 1
    } else {
        last_dot(n, j - 1)
    }
}

/// The stem of a file name: the name up to its last `.`, or the whole name
/// where it has none or only starts with one.
pub open spec fn stem_of_name(n: Seq<char>) -> Seq<char> {
    let d = last_dot(n, n.len() as int);
    if 0 < d <= n.len() {
        n.subrange(0, d)
    } else {
        n
    }
}

/// The extension of a file name: what follows its last `.`, unless it has
/// none or only starts with one.
pub open spec fn extension_of_name(n: Seq<char>) -> Option<Seq<char>> {
    let d = last_dot(n, n.len() as int);
    if 0 < d < n.len() {
        Some(n.subrange(d + 1, n.len() as int))
    } else {
        None
    }
}

pub open spec fn file_stem_of(p: Seq<char>) -> Option<Seq<char>> {
    match file_name_of(p) {
        Some(n) => Some(stem_of_name(n)),
        None => None,
    }
}

pub open spec fn extension_of(p: Seq<char>) -> Option<Seq<char>> {
    match file_name_of(p) {
        Some(n) => extension_of_name(n),
        None => None,
    }
}

/// The extension of a path, or the empty text.
pub open spec fn extension_or_empty(p: Seq<char>) -> Seq<char> {
    match extension_of(p) {
        Some(e) => e,
        None => Seq::empty(),
    }
}

/// The path without its last part, and without the separators and parts `.`
/// that stand before it. An empty path and a root alone have no parent; a
/// single part has the empty parent; right below the root the parent is the
/// root.
pub open spec fn parent_of(p: Seq<char>) -> Option<Seq<char>> {
    let e = trimmed_end(p, p.len() as int);
    let b = part_start(p, e);
    let q = trimmed_end(p, b);
    if e <= 0 || e > p.len() {
        None
    } else if b <= 0 || b > e {
        Some(Seq::empty())
    } else if q <= 0 || q > b {
        Some(p.subrange(0, 1))
    } else {
        Some(p.subrange(0, q))
    }
}

/// The directory of a path: its parent, or `.` where it has none.
pub open spec fn directory_of(p: Seq<char>) -> Seq<char> {
    match parent_of(p) {
        Some(d) => d,
        None => "."@,
    }
}

/// How many of the first `upto` parts count as components: those that are
/// not empty and not `.`, and a `.` that stands first.
pub open spec fn counted_parts(parts: Seq<Seq<char>>, upto: int) -> nat
    decreases upto,
{
    if upto <= 0 {
        0
    } else {
        let part = parts[upto - 1];
        counted_parts(parts, upto - 1) + if part.len() > 0 && (part != "."@ || upto == 1) {
            1nat
        } else {
            0nat
        }
    }
}

/// How many components a path has; a leading separator is one of them.
pub open spec fn component_count(p: Seq<char>) -> nat {
    let parts = split_from(p, "/"@, 0);
    counted_parts(parts, parts.len() as int) + if p.len() > 0 && p[0] == '/' {
        1nat
    } else {
        0nat
    }
}

/// `rel` below `base`. A `rel` that starts at the root stands alone.
pub open spec fn join_of(base: Seq<char>, rel: Seq<char>) -> Seq<char> {
    if (rel.len() > 0 && rel[0] == '/') || base.len() == 0 {
        rel
    } else if base.last() == '/' {
        base + rel
    } else {
        base + "/"@ + rel
    }
}

pub open spec fn opt_view(o: Option<Vec<char>>) -> Option<Seq<char>> {
    match o {
        Some(v) => Some(v@),
        None => None,
    }
}

fn trim_separators(p: &Vec<char>, j: usize) -> (e: usize)
    requires
        j <= p.len(),
    ensures
        e as int == trimmed_end(p@, j as int),
        e <= j,
{
    let mut e: usize = j;
    while e > 0 && (p[e - 1] == '/' || (e >= 2 && p[e - 1] == '.' && p[e - 2] == '/'))
        invariant
            e <= j <= p.len(),
            trimmed_end(p@, e as int) == trimmed_end(p@, j as int),
        decreases e,
    {
        e -= 1;
    }
    e
}

fn start_of_part(p: &Vec<char>, j: usize) -> (b: usize)
    requires
        j <= p.len(),
    ensures
        b as int == part_start(p@, j as int),
        b <= j,
{
    let mut b: usize = j;
    while b > 0 && p[b - 1] != '/'
        invariant
            b <= j <= p.len(),
            part_start(p@, b as int) == part_start(p@, j as int),
        decreases b,
    {
        b -= 1;
    }
    b
}

fn find_last_dot(n: &Vec<char>) -> (d: Option<usize>)
    ensures
        match d {
            Some(i) => i as int == last_dot(n@, n@.len() as int) && i < n.len(),
            None => last_dot(n@, n@.len() as int) == -1,
        },
{
    let mut j: usize = n.len();
    while j > 0
        invariant
            j <= n.len(),
            last_dot(n@, j as int) == last_dot(n@, n@.len() as int),
        decreases j,
    {
        if n[j - 1] == '.' {
            return Some(j - 1);
        }
        j -= 1;
    }
    None
}

/// The last part of a path.
pub fn file_name(p: &Vec<char>) -> (r: Option<Vec<char>>)
    ensures
        opt_view(r) == file_name_of(p@),
{
    let e = trim_separators(p, p.len());
    let b = start_of_part(p, e);
    let n = slice(p, b, e);
    if n.len() == 0 || same_text(&n, &to_chars(".")) || same_text(&n, &to_chars("..")) {
        None
    } else {
        Some(n)
    }
}

/// The stem of the last part of a path.
pub fn file_stem(p: &Vec<char>) -> (r: Option<Vec<char>>)
    ensures
        opt_view(r) == file_stem_of(p@),
{
    match file_name(p) {
        None => None,
        Some(n) => {
            match find_last_dot(&n) {
                Some(d) => {
                    if d > 0 {
                        Some(slice(&n, 0, d))
                    } else {
                        Some(n)
                    }
                },
                None => Some(n),
            }
        },
    }
}

/// The extension of the last part of a path.
pub fn extension(p: &Vec<char>) -> (r: Option<Vec<char>>)
    ensures
        opt_view(r) == extension_of(p@),
{
    match file_name(p) {
        None => None,
        Some(n) => {
            match find_last_dot(&n) {
                Some(d) => {
                    if d > 0 {
                        Some(slice(&n, d + 1, n.len()))
                    } else {
                        None
                    }
                },
                None => None,
            }
        },
    }
}

/// The extension of a path, or the empty text.
pub fn extension_or_blank(p: &Vec<char>) -> (r: Vec<char>)
    ensures
        r@ == extension_or_empty(p@),
{
    match extension(p) {
        Some(e) => e,
        None => Vec::new(),
    }
}

/// The path without its last part.
pub fn parent(p: &Vec<char>) -> (r: Option<Vec<char>>)
    ensures
        opt_view(r) == parent_of(p@),
{
    let e = trim_separators(p, p.len());
    if e == 0 {
        return None;
    }
    let b = start_of_part(p, e);
    if b == 0 {
        return Some(Vec::new());
    }
    let q = trim_separators(p, b);
    if q == 0 {
        Some(slice(p, 0, 1))
    } else {
        Some(slice(p, 0, q))
    }
}

/// The directory of a path: its parent, or `.`.
pub fn directory(p: &Vec<char>) -> (r: Vec<char>)
    ensures
        r@ == directory_of(p@),
{
    match parent(p) {
        Some(d) => d,
        None => to_chars("."),
    }
}

/// How many components a path has.
pub fn components(p: &Vec<char>) -> (n: usize)
    ensures
        n as nat == component_count(p@),
{
    let parts = split(p, &to_chars("/"));
    let dot = to_chars(".");
    let mut n: usize = 0;
    let mut i: usize = 0;
    while i < parts.len()
        invariant
            i <= parts.len(),
            n <= i,
            i >= 1 && parts@[0]@.len() == 0 ==> n + 1 <= i,
            dot@ == "."@,
            n as nat == counted_parts(views(parts@), i as int),
        decreases parts.len() - i,
    {
        assert(views(parts@)[i as int] == parts@[i as int]@);
        if parts[i].len() > 0 && (!same_text(&parts[i], &dot) || i == 0) {
            n += 1;
        }
        i += 1;
    }
    if p.len() > 0 && p[0] == '/' {
        proof {
            reveal_strlit("/");
            assert(p@.subrange(0, 1) =~= "/"@);
            assert(views(parts@)[0] == parts@[0]@);
            assert(views(parts@)[0] =~= p@.subrange(0, 0));
        }
        n += 1;
    }
    n
}

/// `rel` below `base`.
pub fn join(base: &Vec<char>, rel: &Vec<char>) -> (r: Vec<char>)
    ensures
        r@ == join_of(base@, rel@),
{
    let mut r: Vec<char> = Vec::new();
    if (rel.len() > 0 && rel[0] == '/') || base.len() == 0 {
        append(&mut r, rel);
        assert(r@ =~= rel@);
    } else if base[base.len() - 1] == '/' {
        append(&mut r, base);
        append(&mut r, rel);
        assert(r@ =~= base@ + rel@);
    } else {
        append(&mut r, base);
        append_str(&mut r, "/");
        append(&mut r, rel);
        assert(r@ =~= base@ + "/"@ + rel@);
    }
    r
}

} // verus!
