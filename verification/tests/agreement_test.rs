use efficiency_analyzer::order::{sort_dedup, sort_texts};
use efficiency_analyzer::paths::{
    components, extension, file_name, file_stem, join, parent,
};
use efficiency_analyzer::text::{
    char_is_whitespace, contains, count_matches, ends_with, find_from, lines, replace, split,
    starts_with, trim, trim_end_matches, trim_start_matches,
};
use std::path::Path;

fn chars(s: &str) -> Vec<char> {
    s.chars().collect()
}

fn text(v: &Vec<char>) -> String {
    v.iter().collect()
}

fn texts(v: &Vec<Vec<char>>) -> Vec<String> {
    v.iter().map(text).collect()
}

const SAMPLES: [&str; 16] = [
    "",
    "a",
    "\n",
    "a\nb",
    "a\r\nb\r\n",
    "  lead and trail \t\n",
    "ünï cödé — ✓\nzweite Zeile\n\n",
    "x::y::z",
    "::x::",
    "aaaa",
    "abcabcabc",
    "one.two.three",
    "open Module;\ninclude Other\n",
    "\r\r\n\n\r",
    "tabs\tand spaces  ",
    "{ nested { braces } } // done",
];

const PATTERNS: [&str; 10] = ["a", "aa", "::", ".", "\n", "abc", "x", " ", "\r\n", "ö"];

#[test]
fn lines_agree_with_the_standard_library() {
    for s in SAMPLES {
        let expected: Vec<String> = s.lines().map(|l| l.to_string()).collect();
        assert_eq!(texts(&lines(&chars(s))), expected, "lines of {:?}", s);
    }
}

#[test]
fn white_space_agrees_with_the_standard_library() {
    for code in 0u32..=0x10ffff {
        if let Some(c) = char::from_u32(code) {
            assert_eq!(char_is_whitespace(c), c.is_whitespace(), "white space at {:x}", code);
        }
    }
    assert_eq!(text(&trim(&chars("\u{3000}\u{a0} a\u{200b}\u{85}\u{2003}"))), "a\u{200b}");
}

#[test]
fn trim_agrees_with_the_standard_library() {
    for s in SAMPLES {
        assert_eq!(text(&trim(&chars(s))), s.trim(), "trim of {:?}", s);
    }
}

#[test]
fn search_agrees_with_the_standard_library() {
    for s in SAMPLES {
        for p in PATTERNS {
            let sc = chars(s);
            let pc = chars(p);
            assert_eq!(contains(&sc, &pc), s.contains(p), "{:?} contains {:?}", s, p);
            assert_eq!(starts_with(&sc, &pc), s.starts_with(p), "{:?} starts with {:?}", s, p);
            assert_eq!(ends_with(&sc, &pc), s.ends_with(p), "{:?} ends with {:?}", s, p);
            let found = find_from(&sc, &pc, 0);
            let expected = s.find(p).map(|byte| s[..byte].chars().count());
            assert_eq!(found, expected, "{:?} find {:?}", s, p);
            assert_eq!(count_matches(&sc, &pc), s.matches(p).count(), "{:?} count {:?}", s, p);
        }
    }
}

#[test]
fn split_and_replace_agree_with_the_standard_library() {
    for s in SAMPLES {
        for p in PATTERNS {
            let expected: Vec<String> = s.split(p).map(|x| x.to_string()).collect();
            assert_eq!(texts(&split(&chars(s), &chars(p))), expected, "{:?} split {:?}", s, p);
            assert_eq!(
                text(&replace(&chars(s), &chars(p), &chars("<>"))),
                s.replace(p, "<>"),
                "{:?} replace {:?}",
                s,
                p
            );
            assert_eq!(
                text(&trim_start_matches(&chars(s), &chars(p))),
                s.trim_start_matches(p),
                "{:?} trim start {:?}",
                s,
                p
            );
        }
        assert_eq!(text(&trim_end_matches(&chars(s), ';')), s.trim_end_matches(';'));
        assert_eq!(text(&trim_end_matches(&chars(s), '\n')), s.trim_end_matches('\n'));
    }
}

#[test]
fn sorting_agrees_with_the_standard_library() {
    let list: Vec<Vec<char>> = SAMPLES.iter().chain(PATTERNS.iter()).map(|s| chars(s)).collect();
    let mut expected: Vec<String> =
        SAMPLES.iter().chain(PATTERNS.iter()).map(|s| s.to_string()).collect();
    expected.sort();
    assert_eq!(texts(&sort_texts(&list)), expected);
    expected.dedup();
    assert_eq!(texts(&sort_dedup(&list)), expected);
}

const PATHS: [&str; 38] = [
    "src/core/User.res",
    "../../src/systems/Nav.res",
    "backend/src/main.rs",
    "a/b/c.tar.gz",
    "file",
    ".hidden",
    "dir/.hidden",
    "dir/file.",
    "/rooted/file.rs",
    "/top",
    "a//b/c.rs",
    "trailing/slash/",
    "../x",
    "./here/there.js",
    "foo.txt/.",
    "a/./b",
    "a/b/.",
    "a/b/./.",
    "a/.//",
    "a/.b/.",
    "/.",
    "/./a",
    "./.",
    "./",
    "./a",
    ".",
    "..",
    "a/..",
    "/..",
    "../..",
    "",
    "/",
    "//",
    "//a",
    "a.",
    "..a",
    "a/...",
    "./.a/./b.c/",
];

fn opt(v: Option<Vec<char>>) -> Option<String> {
    v.map(|c| c.iter().collect())
}

#[test]
fn paths_agree_with_the_standard_library() {
    for p in PATHS {
        let std_path = Path::new(p);
        let c = chars(p);
        assert_eq!(opt(file_name(&c)), std_path.file_name().map(|x| x.to_string_lossy().to_string()), "file name of {:?}", p);
        assert_eq!(opt(file_stem(&c)), std_path.file_stem().map(|x| x.to_string_lossy().to_string()), "stem of {:?}", p);
        assert_eq!(opt(extension(&c)), std_path.extension().map(|x| x.to_string_lossy().to_string()), "extension of {:?}", p);
        assert_eq!(
            opt(parent(&c)),
            std_path.parent().map(|x| x.to_string_lossy().to_string()),
            "parent of {:?}",
            p
        );
        assert_eq!(components(&c), std_path.components().count(), "components of {:?}", p);
        for q in ["x.rs", "sub/x.rs", "/abs/x.rs", ""] {
            assert_eq!(
                text(&join(&c, &chars(q))),
                std_path.join(q).to_string_lossy().to_string(),
                "{:?} joined with {:?}",
                p,
                q
            );
        }
    }
}
