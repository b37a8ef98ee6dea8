//! Keeping the map document and the task lists in order: which modules the
//! map does not name yet, which of its entries are left over, and which
//! tasks that calls for.

use crate::agent::char_index;
use crate::emit::Document;
use crate::guard::{
    any_holds, captures_view, is_path_label, is_project_source, next_id_of, project_source,
    task_exists, with_once, ExclusionRules,
};
use crate::paths::{join, join_of};
use crate::text::{
    append, append_number, append_str, char_is_whitespace, contains, contains_seq, decimal,
    decimal_chars_3, decimal_padded, ends_with, ends_with_seq, find_from, find_spec,
    is_whitespace, lemma_find_spec, lines, lines_seq, list_contains, push_text, replace,
    replace_seq, slice, starts_with, starts_with_seq, strs, to_chars, to_string, to_strings,
    views,
};
use vstd::prelude::*;

verus! {

/// The heading of the section of the map that lists modules it does not
/// place yet.
pub open spec fn unmapped_header() -> Seq<char> {
    "## 🆕 Unmapped Modules"@
}

/// The path that the target of a link names, as the map writes paths: of a
/// `file://` target only what follows the folder of the project, and `\`
/// read as `/`.
pub open spec fn plain_target(target: Seq<char>) -> Seq<char> {
    let marker = "/robust-virtual-tour-builder/"@;
    let k = find_spec(target, marker, 0);
    let rel = if starts_with_seq(target, "file://"@) && 0 <= k && k + marker.len()
        <= target.len() {
        target.subrange(k + marker.len(), target.len() as int)
    } else {
        target
    };
    replace_seq(rel, "\\"@, "/"@)
}

/// `acc` with the paths of the first `upto` targets.
pub open spec fn with_plain_targets(
    acc: Seq<Seq<char>>,
    targets: Seq<Option<Seq<char>>>,
    upto: int,
) -> Seq<Seq<char>>
    decreases upto,
{
    if upto <= 0 {
        acc
    } else {
        match targets[upto - 1] {
            Some(t) => with_once(with_plain_targets(acc, targets, upto - 1), plain_target(t)),
            None => with_plain_targets(acc, targets, upto - 1),
        }
    }
}

/// `acc` with the first `upto` labels that are paths.
pub open spec fn with_plain_labels(
    acc: Seq<Seq<char>>,
    labels: Seq<Option<Seq<char>>>,
    upto: int,
) -> Seq<Seq<char>>
    decreases upto,
{
    if upto <= 0 {
        acc
    } else {
        match labels[upto - 1] {
            Some(l) => if is_path_label(l) {
                with_once(with_plain_labels(acc, labels, upto - 1), replace_seq(l, "\\"@, "/"@))
            } else {
                with_plain_labels(acc, labels, upto - 1)
            },
            None => with_plain_labels(acc, labels, upto - 1),
        }
    }
}

/// The paths that the map names, as it writes them, given the targets and
/// the labels of its links.
pub open spec fn map_paths_of(
    targets: Seq<Option<Seq<char>>>,
    labels: Seq<Option<Seq<char>>>,
) -> Seq<Seq<char>> {
    with_plain_labels(
        with_plain_targets(Seq::empty(), targets, targets.len() as int),
        labels,
        labels.len() as int,
    )
}

fn add_once(list: &mut Vec<Vec<char>>, x: Vec<char>)
    ensures
        views(final(list)@) == with_once(views(old(list)@), x@),
{
    if !list_contains(list, &x) {
        push_text(list, x);
    }
}

/// The paths that the map names, as it writes them.
pub fn map_paths(targets: &Vec<Option<String>>, labels: &Vec<Option<String>>) -> (r: Vec<
    Vec<char>,
>)
    ensures
        views(r@) == map_paths_of(captures_view(targets@), captures_view(labels@)),
{
    let mut out: Vec<Vec<char>> = Vec::new();
    let marker = to_chars("/robust-virtual-tour-builder/");
    let mut i: usize = 0;
    assert(views(out@) =~= with_plain_targets(Seq::empty(), captures_view(targets@), 0));
    while i < targets.len()
        invariant
            i <= targets.len(),
            marker@ == "/robust-virtual-tour-builder/"@,
            views(out@) == with_plain_targets(Seq::empty(), captures_view(targets@), i as int),
        decreases targets.len() - i,
    {
        match &targets[i] {
            Some(t) => {
                let chars = to_chars(t.as_str());
                proof {
                    lemma_find_spec(chars@, marker@, 0);
                }
                let rel = match find_from(&chars, &marker, 0) {
                    Some(k) => {
                        if starts_with(&chars, &to_chars("file://")) {
                            assert(k + marker.len() <= chars.len());
                            slice(&chars, k + marker.len(), chars.len())
                        } else {
                            chars
                        }
                    },
                    None => chars,
                };
                add_once(&mut out, replace(&rel, &to_chars("\\"), &to_chars("/")));
            },
            None => {},
        }
        i += 1;
    }
    let ghost base = views(out@);
    i = 0;
    while i < labels.len()
        invariant
            i <= labels.len(),
            views(out@) == with_plain_labels(base, captures_view(labels@), i as int),
        decreases labels.len() - i,
    {
        match &labels[i] {
            Some(l) => {
                let chars = to_chars(l.as_str());
                if contains(&chars, &to_chars(".")) && (starts_with(&chars, &to_chars("src/"))
                    || starts_with(&chars, &to_chars("backend/src/"))) {
                    add_once(&mut out, replace(&chars, &to_chars("\\"), &to_chars("/")));
                }
            },
            None => {},
        }
        i += 1;
    }
    out
}

/// The paths that the map with the text `map_content` names, as it writes
/// them. The targets of its links are what `link_pattern()` captures, their
/// labels what `label_pattern()` captures.
pub fn get_map_paths(map_content: &str) -> (r: Vec<Vec<char>>)
    ensures
        views(r@) == map_paths_of(
            crate::guard::captures_or_none(
                crate::pattern::regex_first_groups(crate::guard::link_pattern(), map_content@),
            ),
            crate::guard::captures_or_none(
                crate::pattern::regex_first_groups(crate::guard::label_pattern(), map_content@),
            ),
        ),
{
    let found_targets = crate::pattern::first_groups(" \\[.*?\\]\\((.*?)\\)", map_content);
    let targets = match found_targets {
        Some(t) => t,
        None => Vec::new(),
    };
    assert(captures_view(targets@) =~= crate::guard::captures_or_none(
        crate::pattern::groups_view(found_targets),
    ));
    let found_labels = crate::pattern::first_groups("\\[(.*?)\\]\\(", map_content);
    let labels = match found_labels {
        Some(t) => t,
        None => Vec::new(),
    };
    assert(captures_view(labels@) =~= crate::guard::captures_or_none(
        crate::pattern::groups_view(found_labels),
    ));
    map_paths(&targets, &labels)
}

/// A path as the map writes it: `\` read as `/`, and a leading `../../`
/// left out.
pub open spec fn map_form(path: Seq<char>) -> Seq<char> {
    let p = replace_seq(path, "\\"@, "/"@);
    if starts_with_seq(p, "../../"@) && p.len() >= 6 {
        p.subrange(6, p.len() as int)
    } else {
        p
    }
}

/// The source files among the first `upto` of `files` that the map does not
/// name, as the map would write them.
pub open spec fn unmapped_of(
    files: Seq<Seq<char>>,
    rules: ExclusionRules,
    mapped: Seq<Seq<char>>,
    upto: int,
) -> Seq<Seq<char>>
    decreases upto,
{
    if upto <= 0 {
        Seq::empty()
    } else if project_source(files[upto - 1], rules) && !mapped.contains(map_form(files[upto - 1])) {
        unmapped_of(files, rules, mapped, upto - 1).push(map_form(files[upto - 1]))
    } else {
        unmapped_of(files, rules, mapped, upto - 1)
    }
}

fn to_map_form(path: &str) -> (r: Vec<char>)
    ensures
        r@ == map_form(path@),
{
    let p = replace(&to_chars(path), &to_chars("\\"), &to_chars("/"));
    if starts_with(&p, &to_chars("../../")) && p.len() >= 6 {
        slice(&p, 6, p.len())
    } else {
        p
    }
}

/// The source files among `files` that the map does not name.
pub fn find_unmapped(files: &Vec<String>, rules: &ExclusionRules, mapped: &Vec<Vec<char>>) -> (r:
    Vec<Vec<char>>)
    ensures
        views(r@) == unmapped_of(strs(files@), *rules, views(mapped@), files@.len() as int),
{
    let mut out: Vec<Vec<char>> = Vec::new();
    let mut i: usize = 0;
    assert(views(out@) =~= unmapped_of(strs(files@), *rules, views(mapped@), 0));
    while i < files.len()
        invariant
            i <= files.len(),
            views(out@) == unmapped_of(strs(files@), *rules, views(mapped@), i as int),
        decreases files.len() - i,
    {
        let clean = to_map_form(files[i].as_str());
        if is_project_source(files[i].as_str(), rules) && !list_contains(mapped, &clean) {
            push_text(&mut out, clean);
        }
        i += 1;
    }
    out
}

/// The path that an entry of the map lists: what stands between the first
/// `(` and the first `)` of a line that starts with `* [`.
pub open spec fn listed_path(line: Seq<char>) -> Option<Seq<char>> {
    let a = char_index(line, '(', 0);
    let b = char_index(line, ')', 0);
    if starts_with_seq(line, "* ["@) && 0 <= a < b <= line.len() {
        Some(line.subrange(a + 1, b))
    } else {
        None
    }
}

/// The line is a heading of the second level other than that of the
/// unmapped modules.
pub open spec fn ends_section(line: Seq<char>) -> bool {
    starts_with_seq(line, "## "@) && !contains_seq(line, unmapped_header())
}

/// Whether the scan stands among the unmapped modules after `line`, given
/// whether it stood there before.
pub open spec fn in_section_after(before: bool, line: Seq<char>) -> bool {
    if contains_seq(line, unmapped_header()) {
        true
    } else {
        before && !ends_section(line)
    }
}

/// Whether the scan stands among the unmapped modules after the first `upto`
/// lines.
pub open spec fn in_section(lines: Seq<Seq<char>>, upto: int) -> bool
    decreases upto,
{
    if upto <= 0 {
        false
    } else {
        in_section_after(in_section(lines, upto - 1), lines[upto - 1])
    }
}

/// The paths that the entries among the unmapped modules list, within the
/// first `upto` lines.
pub open spec fn listed_of(lines: Seq<Seq<char>>, upto: int) -> Seq<Seq<char>>
    decreases upto,
{
    if upto <= 0 {
        Seq::empty()
    } else {
        let line = lines[upto - 1];
        if !contains_seq(line, unmapped_header()) && in_section(lines, upto) && listed_path(line)
            is Some {
            listed_of(lines, upto - 1).push(listed_path(line)->Some_0)
        } else {
            listed_of(lines, upto - 1)
        }
    }
}

/// The entry is left over: what it lists is no source file of the project,
/// or is not there.
pub open spec fn is_leftover(p: Seq<char>, rules: ExclusionRules, existing: Seq<Seq<char>>) -> bool {
    !project_source(join_of("../../"@, p), rules) || !existing.contains(p)
}

/// Whether the line at `upto - 1` is dropped from the map.
pub open spec fn is_dropped(
    lines: Seq<Seq<char>>,
    rules: ExclusionRules,
    existing: Seq<Seq<char>>,
    upto: int,
) -> bool {
    let line = lines[upto - 1];
    !contains_seq(line, unmapped_header()) && in_section(lines, upto) && listed_path(line) is Some
        && is_leftover(listed_path(line)->Some_0, rules, existing)
}

/// The first `upto` lines without the entries that are left over.
pub open spec fn pruned(
    lines: Seq<Seq<char>>,
    rules: ExclusionRules,
    existing: Seq<Seq<char>>,
    upto: int,
) -> Seq<Seq<char>>
    decreases upto,
{
    if upto <= 0 {
        Seq::empty()
    } else if is_dropped(lines, rules, existing, upto) {
        pruned(lines, rules, existing, upto - 1)
    } else {
        pruned(lines, rules, existing, upto - 1).push(lines[upto - 1])
    }
}

/// The index of the first line at or after `from` that holds `pat`, or -1.
pub open spec fn line_with(lines: Seq<Seq<char>>, pat: Seq<char>, from: int) -> int
    decreases lines.len() - from,
{
    if from < 0 || from >= lines.len() {
        -1
    } else if contains_seq(lines[from], pat) {
        from
    } else {
        line_with(lines, pat, from + 1)
    }
}

/// The entry that lists a new module.
pub open spec fn new_entry(f: Seq<char>) -> Seq<char> {
    "* ["@ + f + "]("@ + f + "): New module detected. Please classify. #new"@
}

/// `lines` with an entry at `at` for each of the first `upto` modules that
/// no line names in brackets yet.
pub open spec fn with_entries(
    lines: Seq<Seq<char>>,
    at: int,
    modules: Seq<Seq<char>>,
    upto: int,
) -> Seq<Seq<char>>
    decreases upto,
{
    if upto <= 0 {
        lines
    } else {
        let before = with_entries(lines, at, modules, upto - 1);
        let f = modules[upto - 1];
        if line_with(before, "["@ + f + "]"@, 0) < 0 && 0 <= at <= before.len() {
            before.insert(at, new_entry(f))
        } else {
            before
        }
    }
}

/// The lines of the map once the new modules are entered: below the heading
/// of the unmapped modules, which is added at the end where it is missing.
pub open spec fn entered(lines: Seq<Seq<char>>, modules: Seq<Seq<char>>) -> Seq<Seq<char>> {
    if modules.len() == 0 {
        lines
    } else {
        let h = line_with(lines, unmapped_header(), 0);
        if 0 <= h < lines.len() {
            with_entries(lines, h + 1, modules, modules.len() as int)
        } else {
            let longer = lines.push(Seq::empty()).push(unmapped_header());
            with_entries(longer, longer.len() as int, modules, modules.len() as int)
        }
    }
}

/// The first `upto` lines, each but the first after a line feed.
pub open spec fn joined(lines: Seq<Seq<char>>, upto: int) -> Seq<char>
    decreases upto,
{
    if upto <= 0 {
        Seq::empty()
    } else if upto == 1 {
        lines[0]
    } else {
        joined(lines, upto - 1) + "\n"@ + lines[upto - 1]
    }
}

/// The text of the map from its lines, with a line feed at its end.
pub open spec fn map_text(lines: Seq<Seq<char>>) -> Seq<char> {
    let t = joined(lines, lines.len() as int);
    if t.len() > 0 && t.last() == '\n' {
        t
    } else {
        t + "\n"@
    }
}

/// Whether an entry stands among the unmapped modules: in a line after the
/// first heading of the section and before the next other heading.
pub open spec fn has_entries(lines: Seq<Seq<char>>) -> bool {
    let h = line_with(lines, unmapped_header(), 0);
    0 <= h < lines.len() && entry_before_heading(lines, h + 1)
}

/// Whether a line that starts an entry stands at or after `from`, before the
/// next heading that ends the section.
pub open spec fn entry_before_heading(lines: Seq<Seq<char>>, from: int) -> bool
    decreases lines.len() - from,
{
    if from < 0 || from >= lines.len() {
        false
    } else if ends_section(lines[from]) {
        false
    } else if starts_with_seq(lines[from], "* ["@) {
        true
    } else {
        entry_before_heading(lines, from + 1)
    }
}

/// What is to be done about the map.
pub struct MapUpdate {
    /// The new text of the map, where it has changed.
    pub content: Option<String>,
    /// Whether modules wait to be placed.
    pub has_unmapped_items: bool,
}

/// What is to be done about the map with the text `content`: entries that
/// are left over go, modules that it does not name are entered, and where
/// neither happens it is noted whether modules still wait to be placed.
pub open spec fn update_of(
    content: Seq<char>,
    rules: ExclusionRules,
    existing: Seq<Seq<char>>,
    modules: Seq<Seq<char>>,
) -> (Option<Seq<char>>, bool) {
    let ls = lines_seq(content);
    let kept = pruned(ls, rules, existing, ls.len() as int);
    let after = entered(kept, modules);
    if kept.len() != ls.len() || after.len() != kept.len() {
        (Some(map_text(after)), true)
    } else {
        (None, has_entries(after))
    }
}

fn index_of_char(line: &Vec<char>, c: char) -> (r: Option<usize>)
    ensures
        match r {
            Some(i) => i as int == char_index(line@, c, 0) && i < line.len(),
            None => char_index(line@, c, 0) == -1,
        },
{
    let mut i: usize = 0;
    while i < line.len()
        invariant
            i <= line.len(),
            char_index(line@, c, i as int) == char_index(line@, c, 0),
        decreases line.len() - i,
    {
        if line[i] == c {
            return Some(i);
        }
        i += 1;
    }
    None
}

fn path_listed(line: &Vec<char>) -> (r: Option<Vec<char>>)
    ensures
        match r {
            Some(p) => listed_path(line@) == Some(p@),
            None => listed_path(line@) is None,
        },
{
    if !starts_with(line, &to_chars("* [")) {
        return None;
    }
    match index_of_char(line, '(') {
        Some(a) => match index_of_char(line, ')') {
            Some(b) => {
                if a < b {
                    Some(slice(line, a + 1, b))
                } else {
                    None
                }
            },
            None => None,
        },
        None => None,
    }
}

fn section_ends(line: &Vec<char>, header: &Vec<char>) -> (b: bool)
    requires
        header@ == unmapped_header(),
    ensures
        b == ends_section(line@),
{
    starts_with(line, &to_chars("## ")) && !contains(line, header)
}

/// The paths that the entries among the unmapped modules of the map list.
pub fn listed_unmapped(map_content: &str) -> (r: Vec<String>)
    ensures
        strs(r@) == listed_of(lines_seq(map_content@), lines_seq(map_content@).len() as int),
{
    let ls = lines(&to_chars(map_content));
    let header = to_chars("## 🆕 Unmapped Modules");
    let mut out: Vec<Vec<char>> = Vec::new();
    let mut inside = false;
    let mut i: usize = 0;
    assert(views(out@) =~= listed_of(views(ls@), 0));
    while i < ls.len()
        invariant
            i <= ls.len(),
            header@ == unmapped_header(),
            inside == in_section(views(ls@), i as int),
            views(out@) == listed_of(views(ls@), i as int),
        decreases ls.len() - i,
    {
        let line = &ls[i];
        assert(views(ls@)[i as int] == line@);
        if contains(line, &header) {
            inside = true;
        } else {
            if inside && section_ends(line, &header) {
                inside = false;
            }
            if inside {
                match path_listed(line) {
                    Some(p) => {
                        push_text(&mut out, p);
                    },
                    None => {},
                }
            }
        }
        i += 1;
    }
    to_strings(&out)
}

fn find_line(ls: &Vec<Vec<char>>, pat: &Vec<char>) -> (r: Option<usize>)
    ensures
        match r {
            Some(i) => i as int == line_with(views(ls@), pat@, 0) && i < ls.len(),
            None => line_with(views(ls@), pat@, 0) == -1,
        },
{
    let mut i: usize = 0;
    while i < ls.len()
        invariant
            i <= ls.len(),
            line_with(views(ls@), pat@, i as int) == line_with(views(ls@), pat@, 0),
        decreases ls.len() - i,
    {
        assert(views(ls@)[i as int] == ls@[i as int]@);
        if contains(&ls[i], pat) {
            return Some(i);
        }
        i += 1;
    }
    None
}

fn join_lines(ls: &Vec<Vec<char>>) -> (r: Vec<char>)
    ensures
        r@ == joined(views(ls@), ls@.len() as int),
{
    let mut out: Vec<char> = Vec::new();
    let mut i: usize = 0;
    while i < ls.len()
        invariant
            i <= ls.len(),
            out@ == joined(views(ls@), i as int),
        decreases ls.len() - i,
    {
        assert(views(ls@)[i as int] == ls@[i as int]@);
        if i > 0 {
            append_str(&mut out, "\n");
            append(&mut out, &ls[i]);
        } else {
            append(&mut out, &ls[i]);
            assert(out@ =~= ls@[0]@);
        }
        i += 1;
    }
    out
}

#[verifier::loop_isolation(false)]
fn entries_wait(ls: &Vec<Vec<char>>, header: &Vec<char>) -> (b: bool)
    requires
        header@ == unmapped_header(),
    ensures
        b == has_entries(views(ls@)),
{
    match find_line(ls, header) {
        None => false,
        Some(h) => {
            let mark = to_chars("* [");
            let mut i: usize = h + 1;
            while i < ls.len()
                invariant
                    h < i <= ls.len(),
                    header@ == unmapped_header(),
                    mark@ == "* ["@,
                    entry_before_heading(views(ls@), i as int) == entry_before_heading(
                        views(ls@),
                        h + 1,
                    ),
                decreases ls.len() - i,
            {
                assert(views(ls@)[i as int] == ls@[i as int]@);
                if section_ends(&ls[i], header) {
                    return false;
                }
                if starts_with(&ls[i], &mark) {
                    return true;
                }
                i += 1;
            }
            false
        },
    }
}

/// What is to be done about the map with the text `map_content`, given the
/// paths listed in it that are there on disk and the modules that it does
/// not name.
pub fn update_map(
    map_content: &str,
    rules: &ExclusionRules,
    existing: &Vec<String>,
    modules: &Vec<Vec<char>>,
) -> (r: MapUpdate)
    ensures
        (crate::drivers::opt_str(r.content), r.has_unmapped_items) == update_of(
            map_content@,
            *rules,
            strs(existing@),
            views(modules@),
        ),
{
    let ls = lines(&to_chars(map_content));
    let header = to_chars("## 🆕 Unmapped Modules");
    let up = to_chars("../../");
    let mut kept: Vec<Vec<char>> = Vec::new();
    let mut inside = false;
    let mut i: usize = 0;
    assert(views(kept@) =~= pruned(views(ls@), *rules, strs(existing@), 0));
    while i < ls.len()
        invariant
            i <= ls.len(),
            header@ == unmapped_header(),
            up@ == "../../"@,
            kept.len() <= i,
            inside == in_section(views(ls@), i as int),
            views(kept@) == pruned(views(ls@), *rules, strs(existing@), i as int),
        decreases ls.len() - i,
    {
        let line = &ls[i];
        assert(views(ls@)[i as int] == line@);
        let mut drop = false;
        if contains(line, &header) {
            inside = true;
        } else {
            if inside && section_ends(line, &header) {
                inside = false;
            }
            if inside {
                match path_listed(line) {
                    Some(p) => {
                        let full = to_string(&join(&up, &p));
                        let there = {
                            let name = to_string(&p);
                            let mut k: usize = 0;
                            let mut found = false;
                            while k < existing.len()
                                invariant
                                    k <= existing.len(),
                                    name@ == p@,
                                    found == strs(existing@).take(k as int).contains(p@),
                                decreases existing.len() - k,
                            {
                                proof {
                                    let longer = strs(existing@).take(k + 1);
                                    let shorter = strs(existing@).take(k as int);
                                    assert(longer =~= shorter.push(existing@[k as int]@));
                                    if shorter.contains(p@) {
                                        let w = choose|w: int|
                                            0 <= w < shorter.len() && shorter[w] == p@;
                                        assert(longer[w] == p@);
                                    }
                                    if existing@[k as int]@ == p@ {
                                        assert(longer[k as int] == p@);
                                    }
                                    if longer.contains(p@) {
                                        let w = choose|w: int|
                                            0 <= w < longer.len() && longer[w] == p@;
                                        if w < k {
                                            assert(shorter[w] == p@);
                                        }
                                    }
                                }
                                if existing[k] == name {
                                    found = true;
                                }
                                k += 1;
                            }
                            assert(strs(existing@).take(existing@.len() as int) =~= strs(existing@));
                            found
                        };
                        if !is_project_source(full.as_str(), rules) || !there {
                            drop = true;
                        }
                    },
                    None => {},
                }
            }
        }
        if !drop {
            push_text(&mut kept, slice(line, 0, line.len()));
            assert(views(kept@).last() =~= line@);
        }
        i += 1;
    }
    let pruned_changed = kept.len() != ls.len();
    let base_len = kept.len();
    let ghost base = views(kept@);
    proof {
        lemma_pruned_length(views(ls@), *rules, strs(existing@), ls@.len() as int);
    }
    if modules.len() > 0 {
        let at = match find_line(&kept, &header) {
            Some(h) => h + 1,
            None => {
                let blank: Vec<char> = Vec::new();
                let heading = slice(&header, 0, header.len());
                assert(heading@ =~= unmapped_header());
                assert(blank@ =~= Seq::<char>::empty());
                push_text(&mut kept, blank);
                push_text(&mut kept, heading);
                kept.len()
            },
        };
        let ghost start = views(kept@);
        let mut m: usize = 0;
        while m < modules.len()
            invariant
                m <= modules.len(),
                at <= kept.len(),
                views(kept@) == with_entries(start, at as int, views(modules@), m as int),
            decreases modules.len() - m,
        {
            let f = &modules[m];
            assert(views(modules@)[m as int] == f@);
            let mut mark = to_chars("[");
            append(&mut mark, f);
            append_str(&mut mark, "]");
            match find_line(&kept, &mark) {
                Some(_) => {},
                None => {
                    let mut entry = to_chars("* [");
                    append(&mut entry, f);
                    append_str(&mut entry, "](");
                    append(&mut entry, f);
                    append_str(&mut entry, "): New module detected. Please classify. #new");
                    assert(entry@ =~= new_entry(f@));
                    let ghost before = views(kept@);
                    kept.insert(at, entry);
                    assert(views(kept@) =~= before.insert(at as int, entry@));
                },
            }
            m += 1;
        }
        assert(views(kept@) == entered(base, views(modules@)));
    }
    proof {
        lemma_entered_length(base, views(modules@));
    }
    let changed = pruned_changed || kept.len() != base_len;
    if changed {
        let mut text = join_lines(&kept);
        if text.len() == 0 || text[text.len() - 1] != '\n' {
            append_str(&mut text, "\n");
        }
        MapUpdate { content: Some(to_string(&text)), has_unmapped_items: true }
    } else {
        MapUpdate { content: None, has_unmapped_items: entries_wait(&kept, &header) }
    }
}

/// Pruning makes a list no longer.
pub proof fn lemma_pruned_length(
    lines: Seq<Seq<char>>,
    rules: ExclusionRules,
    existing: Seq<Seq<char>>,
    upto: int,
)
    requires
        upto <= lines.len(),
    ensures
        pruned(lines, rules, existing, upto).len() <= if upto < 0 {
            0
        } else {
            upto
        },
    decreases upto,
{
    if upto > 0 {
        lemma_pruned_length(lines, rules, existing, upto - 1);
    }
}

/// Entering modules makes a list no shorter.
pub proof fn lemma_entries_length(
    lines: Seq<Seq<char>>,
    at: int,
    modules: Seq<Seq<char>>,
    upto: int,
)
    ensures
        with_entries(lines, at, modules, upto).len() >= lines.len(),
    decreases upto,
{
    if upto > 0 {
        lemma_entries_length(lines, at, modules, upto - 1);
    }
}

pub proof fn lemma_entered_length(lines: Seq<Seq<char>>, modules: Seq<Seq<char>>)
    ensures
        entered(lines, modules).len() >= lines.len(),
        modules.len() > 0 && !(0 <= line_with(lines, unmapped_header(), 0) < lines.len())
            ==> entered(lines, modules).len() > lines.len(),
{
    if modules.len() > 0 {
        let h = line_with(lines, unmapped_header(), 0);
        if 0 <= h < lines.len() {
            lemma_entries_length(lines, h + 1, modules, modules.len() as int);
        } else {
            let longer = lines.push(Seq::empty()).push(unmapped_header());
            lemma_entries_length(longer, longer.len() as int, modules, modules.len() as int);
        }
    }
}

/// How many of the first `upto` names end in `.md`.
pub open spec fn md_count(names: Seq<Seq<char>>, upto: int) -> nat
    decreases upto,
{
    if upto <= 0 {
        0
    } else {
        md_count(names, upto - 1) + if ends_with_seq(names[upto - 1], ".md"@) {
            1nat
        } else {
            0nat
        }
    }
}

/// The text of the task that asks to sum up completed tasks.
pub open spec fn aggregate_body(id: nat, count: nat) -> Seq<char> {
    "# Task "@ + decimal(id)
        + ": Aggregate Completed Tasks\n\n## 🚨 Trigger\nCompleted tasks count exceeds 90 (Current: "@
        + decimal(count)
        + ").\n\n## Objective\nAggregate the oldest 50 completed tasks into `tasks/completed/_CONCISE_SUMMARY.md` and cleanup.\n\n## AI Prompt\n\"Please perform the following maintenance on the task system:\n1. Identify the oldest 50 task files in `tasks/completed/` (based on their numerical prefix).\n2. Read these 50 files and the existing `tasks/completed/_CONCISE_SUMMARY.md`.\n3. Integrate the core accomplishments from these 50 tasks into `tasks/completed/_CONCISE_SUMMARY.md`, following its established style (categorized, bullet points, extremely concise).\n4. After successful integration and verification, delete the 50 original task files from `tasks/completed/`.\n5. Ensure the `_CONCISE_SUMMARY.md` remains the definitive high-level history of the project.\"\n"@
}

/// Completed tasks are to be summed up: there are more than ninety of them,
/// and no open task asks for it yet.
pub open spec fn aggregate_due(completed: Seq<Seq<char>>, open: Seq<Seq<char>>) -> bool {
    md_count(completed, completed.len() as int) > 90 && !any_holds(
        open,
        "Aggregate_Completed_Tasks"@,
        open.len() as int,
    )
}

/// The task that asks to sum up completed tasks, where it is due. `completed`
/// names the completed tasks, `open` the pending, active and postponed ones,
/// and `all` every task file, for the number of the new task.
pub fn check_tasks_count(completed: &Vec<String>, open: &Vec<String>, all: &Vec<String>) -> (r:
    Option<Document>)
    ensures
        r is Some <==> aggregate_due(strs(completed@), strs(open@)),
        r is Some ==> r->Some_0.name@ == decimal_padded(next_id_of(strs(all@)), 3)
            + "_Aggregate_Completed_Tasks.md"@ && r->Some_0.body@ == aggregate_body(
            next_id_of(strs(all@)),
            md_count(strs(completed@), completed@.len() as int),
        ),
{
    let ending = to_chars(".md");
    let mut count: usize = 0;
    let mut i: usize = 0;
    while i < completed.len()
        invariant
            i <= completed.len(),
            count <= i,
            ending@ == ".md"@,
            count as nat == md_count(strs(completed@), i as int),
        decreases completed.len() - i,
    {
        if ends_with(&to_chars(completed[i].as_str()), &ending) {
            count += 1;
        }
        i += 1;
    }
    if count > 90 && !task_exists(open, "Aggregate_Completed_Tasks") {
        let id = crate::guard::get_next_id(all);
        let mut name = decimal_chars_3(id as u128);
        append_str(&mut name, "_Aggregate_Completed_Tasks.md");
        let mut body = to_chars("# Task ");
        append_number(&mut body, id);
        append_str(
            &mut body,
            ": Aggregate Completed Tasks\n\n## 🚨 Trigger\nCompleted tasks count exceeds 90 (Current: ",
        );
        append_number(&mut body, count);
        append_str(
            &mut body,
            ").\n\n## Objective\nAggregate the oldest 50 completed tasks into `tasks/completed/_CONCISE_SUMMARY.md` and cleanup.\n\n## AI Prompt\n\"Please perform the following maintenance on the task system:\n1. Identify the oldest 50 task files in `tasks/completed/` (based on their numerical prefix).\n2. Read these 50 files and the existing `tasks/completed/_CONCISE_SUMMARY.md`.\n3. Integrate the core accomplishments from these 50 tasks into `tasks/completed/_CONCISE_SUMMARY.md`, following its established style (categorized, bullet points, extremely concise).\n4. After successful integration and verification, delete the 50 original task files from `tasks/completed/`.\n5. Ensure the `_CONCISE_SUMMARY.md` remains the definitive high-level history of the project.\"\n",
        );
        Some(Document { name: to_string(&name), body: to_string(&body) })
    } else {
        None
    }
}

/// The text of the task that asks to place the new entries of the map.
pub open spec fn classify_body(id: nat) -> Seq<char> {
    "# Task "@ + decimal(id)
        + ": Classify New Map Entries\n\n## 🚨 Trigger\nNew modules were detected and added to the 'Unmapped Modules' section of `MAP.md`.\n\n## Objective\nMove the entries from 'Unmapped Modules' to their appropriate semantic sections in `MAP.md`.\n"@
}

/// The task that asks to place the new entries of the map, unless an open
/// task asks for it already.
pub fn classify_map_task(open: &Vec<String>, all: &Vec<String>) -> (r: Option<Document>)
    ensures
        r is Some <==> !any_holds(strs(open@), "Classify_Map_Entries"@, open@.len() as int),
        r is Some ==> r->Some_0.name@ == decimal_padded(next_id_of(strs(all@)), 3)
            + "_Classify_Map_Entries.md"@ && r->Some_0.body@ == classify_body(
            next_id_of(strs(all@)),
        ),
{
    if task_exists(open, "Classify_Map_Entries") {
        return None;
    }
    let id = crate::guard::get_next_id(all);
    let mut name = decimal_chars_3(id as u128);
    append_str(&mut name, "_Classify_Map_Entries.md");
    let mut body = to_chars("# Task ");
    append_number(&mut body, id);
    append_str(
        &mut body,
        ": Classify New Map Entries\n\n## 🚨 Trigger\nNew modules were detected and added to the 'Unmapped Modules' section of `MAP.md`.\n\n## Objective\nMove the entries from 'Unmapped Modules' to their appropriate semantic sections in `MAP.md`.\n",
    );
    Some(Document { name: to_string(&name), body: to_string(&body) })
}

/// `item` stands in `s` at or after `from` with white space right behind it.
pub open spec fn is_listed(s: Seq<char>, item: Seq<char>, from: int) -> bool
    decreases s.len() - from,
{
    let k = find_spec(s, item, from);
    if from < 0 || k < from || k + item.len() >= s.len() {
        false
    } else if is_whitespace(s[k + item.len()]) {
        true
    } else {
        is_listed(s, item, k + 1)
    }
}

/// The open item of a test task.
pub open spec fn test_item(task_name: Seq<char>) -> Seq<char> {
    "- [ ] "@ + task_name
}

/// The text that a new list of test tasks starts with.
pub open spec fn unified_head(id: nat) -> Seq<char> {
    "# Task "@ + decimal(id)
        + ": Test Generation Unified\n\n## Objective\nConsolidated tracking of all pending unit test tasks (New & Update) to reduce file fragmentation.\n\n## Tasks\n"@
}

/// The list of test tasks with the task added, or nothing where the list
/// names the task already. `content` is the list so far.
pub open spec fn unified_with(
    content: Seq<char>,
    task_name: Seq<char>,
    description: Seq<char>,
) -> Option<Seq<char>> {
    if is_listed(content, test_item(task_name), 0) {
        None
    } else {
        Some(
            content + (if content.len() > 0 && content.last() == '\n' {
                Seq::empty()
            } else {
                "\n"@
            }) + test_item(task_name) + " ("@ + description + ")\n"@,
        )
    }
}

/// The name of the file of a new list of test tasks.
pub fn unified_task_start(id: usize) -> (r: Document)
    ensures
        r.name@ == decimal_padded(id as nat, 3) + "_Test_Generation_Unified.md"@,
        r.body@ == unified_head(id as nat),
{
    let mut name = decimal_chars_3(id as u128);
    append_str(&mut name, "_Test_Generation_Unified.md");
    let mut body = to_chars("# Task ");
    append_number(&mut body, id);
    append_str(
        &mut body,
        ": Test Generation Unified\n\n## Objective\nConsolidated tracking of all pending unit test tasks (New & Update) to reduce file fragmentation.\n\n## Tasks\n",
    );
    Document { name: to_string(&name), body: to_string(&body) }
}

fn listed(text: &Vec<char>, item: &Vec<char>) -> (b: bool)
    ensures
        b == is_listed(text@, item@, 0),
{
    let mut from: usize = 0;
    loop
        invariant
            from <= text.len(),
            is_listed(text@, item@, from as int) == is_listed(text@, item@, 0),
        decreases text.len() - from,
    {
        proof {
            lemma_find_spec(text@, item@, from as int);
        }
        match find_from(text, item, from) {
            None => {
                return false;
            },
            Some(k) => {
                if k + item.len() >= text.len() {
                    return false;
                }
                if char_is_whitespace(text[k + item.len()]) {
                    return true;
                }
                from = k + 1;
            },
        }
    }
}

/// The list of test tasks with the task `task_name` added, or nothing where
/// the list names it already.
pub fn append_to_unified_task(content: &str, task_name: &str, description: &str) -> (r: Option<
    String,
>)
    ensures
        crate::drivers::opt_str(r) == unified_with(content@, task_name@, description@),
{
    let text = to_chars(content);
    let mut item = to_chars("- [ ] ");
    append_str(&mut item, task_name);
    if listed(&text, &item) {
        return None;
    }
    let mut out = to_chars(content);
    if out.len() == 0 || out[out.len() - 1] != '\n' {
        append_str(&mut out, "\n");
    }
    append(&mut out, &item);
    append_str(&mut out, " (");
    append_str(&mut out, description);
    append_str(&mut out, ")\n");
    assert(out@ =~= unified_with(content@, task_name@, description@)->Some_0);
    Some(to_string(&out))
}

} // verus!
