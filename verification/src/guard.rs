//! What counts as a source file of the project, and the book-keeping of
//! task files and of the map document.

use crate::paths::{extension_or_blank, extension_or_empty, file_name};
use crate::pattern::{first_groups, groups_view, regex_first_groups};
use crate::synth::name_of;
use crate::tasks::{max_number};
use crate::text::{
    append, contains, contains_seq, ends_with, ends_with_seq, find_from, find_spec,
    lemma_find_spec, lemma_strs_push, replace, replace_seq, same_text, slice, starts_with,
    starts_with_seq, strs, to_chars, to_string,
};
use vstd::prelude::*;

verus! {

/// What is left out of the scan: folders by a part of their path, files by
/// their name, and files by the end of their name.
#[derive(Debug)]
pub struct ExclusionRules {
    pub folders: Vec<String>,
    pub files: Vec<String>,
    pub extensions: Vec<String>,
}

/// A file is read if its extension is one of these.
pub open spec fn is_source_extension(ext: Seq<char>) -> bool {
    ext == "rs"@ || ext == "res"@ || ext == "css"@ || ext == "html"@ || ext == "js"@ || ext
        == "jsx"@
}

/// One of the first `upto` folders is part of the path.
pub open spec fn in_excluded_folder(p: Seq<char>, folders: Seq<String>, upto: int) -> bool
    decreases upto,
{
    if upto <= 0 {
        false
    } else {
        in_excluded_folder(p, folders, upto - 1) || contains_seq(p, folders[upto - 1]@)
    }
}

/// One of the first `upto` files is the name.
pub open spec fn is_excluded_file(name: Seq<char>, files: Seq<String>, upto: int) -> bool
    decreases upto,
{
    if upto <= 0 {
        false
    } else {
        is_excluded_file(name, files, upto - 1) || name == files[upto - 1]@
    }
}

/// The name ends in one of the first `upto` endings.
pub open spec fn has_excluded_ending(name: Seq<char>, endings: Seq<String>, upto: int) -> bool
    decreases upto,
{
    if upto <= 0 {
        false
    } else {
        has_excluded_ending(name, endings, upto - 1) || ends_with_seq(name, endings[upto - 1]@)
    }
}

/// The file at `path` is a source file of the project: it has a source
/// extension, and no rule leaves it out. Folders are matched against the
/// path with `\` read as `/`.
pub open spec fn project_source(path: Seq<char>, rules: ExclusionRules) -> bool {
    &&& is_source_extension(extension_or_empty(path))
    &&& !in_excluded_folder(
        replace_seq(path, "\\"@, "/"@),
        rules.folders@,
        rules.folders@.len() as int,
    )
    &&& !is_excluded_file(name_of(path), rules.files@, rules.files@.len() as int)
    &&& !has_excluded_ending(name_of(path), rules.extensions@, rules.extensions@.len() as int)
}

/// Whether the file at `path` is a source file of the project.
#[verifier::loop_isolation(false)]
pub fn is_project_source(path: &str, rules: &ExclusionRules) -> (b: bool)
    ensures
        b == project_source(path@, *rules),
{
    let chars = to_chars(path);
    let ext = extension_or_blank(&chars);
    let valid = same_text(&ext, &to_chars("rs")) || same_text(&ext, &to_chars("res")) || same_text(
        &ext,
        &to_chars("css"),
    ) || same_text(&ext, &to_chars("html")) || same_text(&ext, &to_chars("js")) || same_text(
        &ext,
        &to_chars("jsx"),
    );
    if !valid {
        return false;
    }
    let p = replace(&chars, &to_chars("\\"), &to_chars("/"));
    let name = match file_name(&chars) {
        Some(n) => n,
        None => Vec::new(),
    };
    let mut i: usize = 0;
    while i < rules.folders.len()
        invariant
            i <= rules.folders.len(),
            !in_excluded_folder(p@, rules.folders@, i as int),
        decreases rules.folders.len() - i,
    {
        if contains(&p, &to_chars(rules.folders[i].as_str())) {
            assert(in_excluded_folder(p@, rules.folders@, i + 1));
            proof {
                lemma_folder_stays(p@, rules.folders@, i + 1, rules.folders@.len() as int);
            }
            return false;
        }
        i += 1;
    }
    i = 0;
    while i < rules.files.len()
        invariant
            i <= rules.files.len(),
            !is_excluded_file(name@, rules.files@, i as int),
        decreases rules.files.len() - i,
    {
        if same_text(&name, &to_chars(rules.files[i].as_str())) {
            proof {
                lemma_file_stays(name@, rules.files@, i + 1, rules.files@.len() as int);
            }
            return false;
        }
        i += 1;
    }
    i = 0;
    while i < rules.extensions.len()
        invariant
            i <= rules.extensions.len(),
            !has_excluded_ending(name@, rules.extensions@, i as int),
        decreases rules.extensions.len() - i,
    {
        if ends_with(&name, &to_chars(rules.extensions[i].as_str())) {
            proof {
                lemma_ending_stays(name@, rules.extensions@, i + 1, rules.extensions@.len() as int);
            }
            return false;
        }
        i += 1;
    }
    true
}

pub proof fn lemma_folder_stays(p: Seq<char>, folders: Seq<String>, from: int, upto: int)
    requires
        from <= upto,
        in_excluded_folder(p, folders, from),
    ensures
        in_excluded_folder(p, folders, upto),
    decreases upto - from,
{
    if from < upto {
        lemma_folder_stays(p, folders, from, upto - 1);
    }
}

pub proof fn lemma_file_stays(name: Seq<char>, files: Seq<String>, from: int, upto: int)
    requires
        from <= upto,
        is_excluded_file(name, files, from),
    ensures
        is_excluded_file(name, files, upto),
    decreases upto - from,
{
    if from < upto {
        lemma_file_stays(name, files, from, upto - 1);
    }
}

pub proof fn lemma_ending_stays(name: Seq<char>, endings: Seq<String>, from: int, upto: int)
    requires
        from <= upto,
        has_excluded_ending(name, endings, from),
    ensures
        has_excluded_ending(name, endings, upto),
    decreases upto - from,
{
    if from < upto {
        lemma_ending_stays(name, endings, from, upto - 1);
    }
}

/// Where the tasks and the map document lie.
pub struct GuardConfig {
    pub tasks_dir: String,
    pub map_file: String,
}

impl Default for GuardConfig {
    fn default() -> (c: GuardConfig)
        ensures
            c.tasks_dir@ == "../../tasks"@,
            c.map_file@ == "../../MAP.md"@,
    {
        GuardConfig { tasks_dir: "../../tasks".to_owned(), map_file: "../../MAP.md".to_owned() }
    }
}

/// Checks that the file at `file_path` has its tests. Test generation is
/// suspended, so every file passes.
pub fn check_tests(_config: &GuardConfig, _file_path: &str) -> (r: Result<(), String>)
    ensures
        r is Ok,
{
    Ok(())
}

/// The number for the next task, given the names of the task files there
/// are: one more than the greatest number, as far as numbers go.
pub open spec fn next_id_of(names: Seq<Seq<char>>) -> nat {
    let m = max_number(names, names.len() as int);
    if m < usize::MAX {
        m + 1
    } else {
        m
    }
}

/// The number for the next task, given the names of the task files there
/// are.
pub fn get_next_id(names: &Vec<String>) -> (id: usize)
    ensures
        id as nat == next_id_of(strs(names@)),
{
    let m = crate::tasks::greatest_number_of(names);
    if m < usize::MAX {
        m + 1
    } else {
        m
    }
}

/// One of the first `upto` names holds `pattern`.
pub open spec fn any_holds(names: Seq<Seq<char>>, pattern: Seq<char>, upto: int) -> bool
    decreases upto,
{
    if upto <= 0 {
        false
    } else {
        any_holds(names, pattern, upto - 1) || contains_seq(names[upto - 1], pattern)
    }
}

/// Whether a task whose name holds `pattern` is among `names`.
pub fn task_exists(names: &Vec<String>, pattern: &str) -> (b: bool)
    ensures
        b == any_holds(strs(names@), pattern@, names@.len() as int),
{
    let pat = to_chars(pattern);
    let mut i: usize = 0;
    let mut found = false;
    while i < names.len()
        invariant
            i <= names.len(),
            pat@ == pattern@,
            found == any_holds(strs(names@), pattern@, i as int),
        decreases names.len() - i,
    {
        if contains(&to_chars(names[i].as_str()), &pat) {
            found = true;
        }
        i += 1;
    }
    found
}

/// The pattern that finds a link of the map document and captures its
/// target.
pub open spec fn link_pattern() -> Seq<char> {
    " \\[.*?\\]\\((.*?)\\)"@
}

/// The pattern that finds a link of the map document and captures its label.
pub open spec fn label_pattern() -> Seq<char> {
    "\\[(.*?)\\]\\("@
}

/// The path that the target of a link stands for. Of a `file://` target
/// only what follows the folder of the project counts. `\` is read as `/`,
/// and the path is taken from two levels up.
pub open spec fn target_path(target: Seq<char>) -> Seq<char> {
    let marker = "/robust-virtual-tour-builder/"@;
    let k = find_spec(target, marker, 0);
    let rel = if starts_with_seq(target, "file://"@) && 0 <= k && k + marker.len()
        <= target.len() {
        target.subrange(k + marker.len(), target.len() as int)
    } else {
        target
    };
    "../../"@ + replace_seq(rel, "\\"@, "/"@)
}

/// Whether the label of a link is itself a path of the project.
pub open spec fn is_path_label(label: Seq<char>) -> bool {
    contains_seq(label, "."@) && (starts_with_seq(label, "src/"@) || starts_with_seq(
        label,
        "backend/src/"@,
    ))
}

/// `list` with `x`, unless it is there already.
pub open spec fn with_once(list: Seq<Seq<char>>, x: Seq<char>) -> Seq<Seq<char>> {
    if list.contains(x) {
        list
    } else {
        list.push(x)
    }
}

/// `acc` with the paths of the first `upto` targets.
pub open spec fn with_targets(
    acc: Seq<Seq<char>>,
    targets: Seq<Option<Seq<char>>>,
    upto: int,
) -> Seq<Seq<char>>
    decreases upto,
{
    if upto <= 0 {
        acc
    } else {
        match targets[upto - 1] {
            Some(t) => with_once(with_targets(acc, targets, upto - 1), target_path(t)),
            None => with_targets(acc, targets, upto - 1),
        }
    }
}

/// `acc` with the paths of the first `upto` labels that are paths.
pub open spec fn with_labels(
    acc: Seq<Seq<char>>,
    labels: Seq<Option<Seq<char>>>,
    upto: int,
) -> Seq<Seq<char>>
    decreases upto,
{
    if upto <= 0 {
        acc
    } else {
        match labels[upto - 1] {
            Some(l) => if is_path_label(l) {
                with_once(
                    with_labels(acc, labels, upto - 1),
                    "../../"@ + replace_seq(l, "\\"@, "/"@),
                )
            } else {
                with_labels(acc, labels, upto - 1)
            },
            None => with_labels(acc, labels, upto - 1),
        }
    }
}

/// The files that the map document names, given the targets and the labels
/// of its links: the paths of the targets, then the labels that are paths
/// themselves, each path once.
pub open spec fn mapped_of(
    targets: Seq<Option<Seq<char>>>,
    labels: Seq<Option<Seq<char>>>,
) -> Seq<Seq<char>> {
    with_labels(
        with_targets(Seq::empty(), targets, targets.len() as int),
        labels,
        labels.len() as int,
    )
}

pub open spec fn captures_view(c: Seq<Option<String>>) -> Seq<Option<Seq<char>>> {
    Seq::new(
        c.len(),
        |i: int|
            match c[i] {
                Some(g) => Some(g@),
                None => None,
            },
    )
}

fn add_once(list: &mut Vec<String>, x: Vec<char>)
    ensures
        strs(final(list)@) == with_once(strs(old(list)@), x@),
{
    let item = to_string(&x);
    let mut i: usize = 0;
    while i < list.len()
        invariant
            i <= list.len(),
            item@ == x@,
            forall|j: int| 0 <= j < i ==> strs(list@)[j] != x@,
        decreases list.len() - i,
    {
        if list[i] == item {
            assert(strs(list@)[i as int] == x@);
            return ;
        }
        i += 1;
    }
    proof {
        lemma_strs_push(list@, item);
    }
    list.push(item);
}

/// The files that the map document names, given the targets and the labels
/// of its links.
pub fn mapped_files_from(targets: &Vec<Option<String>>, labels: &Vec<Option<String>>) -> (r: Vec<
    String,
>)
    ensures
        strs(r@) == mapped_of(captures_view(targets@), captures_view(labels@)),
{
    let mut out: Vec<String> = Vec::new();
    let marker = to_chars("/robust-virtual-tour-builder/");
    let mut i: usize = 0;
    assert(strs(out@) =~= with_targets(Seq::empty(), captures_view(targets@), 0));
    while i < targets.len()
        invariant
            i <= targets.len(),
            marker@ == "/robust-virtual-tour-builder/"@,
            strs(out@) == with_targets(Seq::empty(), captures_view(targets@), i as int),
        decreases targets.len() - i,
    {
        match &targets[i] {
            Some(t) => {
                let chars = to_chars(t.as_str());
                proof {
                    lemma_find_spec(chars@, marker@, 0);
                }
                let found = find_from(&chars, &marker, 0);
                let rel = match found {
                    Some(k) => {
                        if starts_with(&chars, &to_chars("file://")) {
                            assert(k + marker.len() <= chars.len());
                            slice(&chars, k + marker.len(), chars.len())
                        } else {
                            chars
                        }
                    },
                    None => chars,
                };
                let mut path = to_chars("../../");
                append(&mut path, &replace(&rel, &to_chars("\\"), &to_chars("/")));
                add_once(&mut out, path);
            },
            None => {},
        }
        i += 1;
    }
    let ghost base = strs(out@);
    i = 0;
    while i < labels.len()
        invariant
            i <= labels.len(),
            strs(out@) == with_labels(base, captures_view(labels@), i as int),
        decreases labels.len() - i,
    {
        match &labels[i] {
            Some(l) => {
                let chars = to_chars(l.as_str());
                if contains(&chars, &to_chars(".")) && (starts_with(&chars, &to_chars("src/"))
                    || starts_with(&chars, &to_chars("backend/src/"))) {
                    let mut path = to_chars("../../");
                    append(&mut path, &replace(&chars, &to_chars("\\"), &to_chars("/")));
                    add_once(&mut out, path);
                }
            },
            None => {},
        }
        i += 1;
    }
    out
}

/// What a pattern captured, or nothing where it could not be matched.
pub open spec fn captures_or_none(found: Option<Seq<Option<Seq<char>>>>) -> Seq<
    Option<Seq<char>>,
> {
    match found {
        Some(c) => c,
        None => Seq::empty(),
    }
}

/// The files that the map document with the text `map_content` names. The
/// targets of its links are what `link_pattern()` captures, their labels
/// what `label_pattern()` captures.
pub fn get_mapped_files(map_content: &str) -> (r: Vec<String>)
    ensures
        strs(r@) == mapped_of(
            captures_or_none(regex_first_groups(link_pattern(), map_content@)),
            captures_or_none(regex_first_groups(label_pattern(), map_content@)),
        ),
{
    let found_targets = first_groups(" \\[.*?\\]\\((.*?)\\)", map_content);
    let targets = match found_targets {
        Some(t) => t,
        None => Vec::new(),
    };
    assert(captures_view(targets@) =~= captures_or_none(groups_view(found_targets)));
    let found_labels = first_groups("\\[(.*?)\\]\\(", map_content);
    let labels = match found_labels {
        Some(t) => t,
        None => Vec::new(),
    };
    assert(captures_view(labels@) =~= captures_or_none(groups_view(found_labels)));
    mapped_files_from(&targets, &labels)
}

} // verus!
