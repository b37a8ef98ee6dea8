//! The plain values of the assistant that goes with the analyzer: messages,
//! usage, prompts, and what it reads off the map document.

use crate::text::{
    append, contains, decimal, decimal_chars, lemma_views_push, lines, lines_seq, slice, strs,
    to_chars, to_string, to_strings, views,
};
use vstd::prelude::*;

verus! {

/// The prompts of the assistant.
#[derive(Debug)]
pub struct PromptConfig {
    pub system_prompt: String,
    pub codebase_map_template: String,
    pub intent_analysis_prompt: String,
    pub summary_prompt: String,
}

/// The colours of the assistant.
#[derive(Debug)]
pub struct UiConfig {
    pub color_primary: String,
    pub color_bold: String,
    pub color_reset: String,
}

/// One message of a conversation.
#[derive(Debug)]
pub struct ChatMessage {
    pub role: String,
    pub content: String,
}

/// The tokens that a completion took.
#[derive(Debug, Clone, Copy)]
pub struct Usage {
    pub prompt_tokens: u32,
    pub completion_tokens: u32,
    pub total_tokens: u32,
}

/// How hard a request is.
#[derive(Debug, PartialEq, Eq, Structural)]
pub enum Complexity {
    Simple,
    Complex,
}

/// What a tool gave back.
pub struct ToolResult {
    pub tool_name: String,
    pub output: String,
    pub success: bool,
}

/// A session of the assistant: its name and where it is kept.
pub struct SessionManager {
    pub session_id: String,
    pub session_path: String,
}

/// The name of the session that starts at `seconds`.
pub open spec fn session_name(seconds: nat) -> Seq<char> {
    "SID_"@ + decimal(seconds)
}

impl SessionManager {
    /// The session that starts at `seconds` since the start of 1970, kept
    /// under `sessions`.
    pub fn starting_at(seconds: u64) -> (s: SessionManager)
        ensures
            s.session_id@ == session_name(seconds as nat),
            s.session_path@ == "sessions/"@ + session_name(seconds as nat),
    {
        let mut id = to_chars("SID_");
        append(&mut id, &decimal_chars(seconds as u128));
        let mut path = to_chars("sessions/");
        append(&mut path, &id);
        SessionManager { session_id: to_string(&id), session_path: to_string(&path) }
    }
}

/// Names thought processes.
pub struct ThinkingEngine;

impl ThinkingEngine {
    /// The name of the thought process that starts at `seconds` since the
    /// start of 1970.
    pub fn generate_tp_id(seconds: u64) -> (id: String)
        ensures
            id@ == "TP_"@ + decimal(seconds as nat),
    {
        let mut id = to_chars("TP_");
        append(&mut id, &decimal_chars(seconds as u128));
        to_string(&id)
    }
}

/// The index of the first `c` in `line` at or after `from`, or -1.
pub open spec fn char_index(line: Seq<char>, c: char, from: int) -> int
    decreases line.len() - from,
{
    if from < 0 || from >= line.len() {
        -1
    } else if line[from] == c {
        from
    } else {
        char_index(line, c, from + 1)
    }
}

/// The file that a line of the map names: what stands between its first `[`
/// and its first `]`, where that holds a dot.
pub open spec fn known_file(line: Seq<char>) -> Option<Seq<char>> {
    let a = char_index(line, '[', 0);
    let b = char_index(line, ']', 0);
    if 0 <= a < b <= line.len() && line.subrange(a + 1, b).contains('.') {
        Some(line.subrange(a + 1, b))
    } else {
        None
    }
}

/// The files that the first `upto` lines name.
pub open spec fn known_files(lines: Seq<Seq<char>>, upto: int) -> Seq<Seq<char>>
    decreases upto,
{
    if upto <= 0 {
        Seq::empty()
    } else {
        match known_file(lines[upto - 1]) {
            Some(f) => known_files(lines, upto - 1).push(f),
            None => known_files(lines, upto - 1),
        }
    }
}

fn index_of_char(line: &Vec<char>, c: char) -> (r: Option<usize>)
    ensures
        match r {
            Some(i) => i as int == char_index(line@, c, 0) && i < line.len(),
            None => char_index(line@, c, 0) == -1,
        },
{
    let mut i: usize = 0;
    while i < line.len()
        invariant
            i <= line.len(),
            char_index(line@, c, i as int) == char_index(line@, c, 0),
        decreases line.len() - i,
    {
        if line[i] == c {
            return Some(i);
        }
        i += 1;
    }
    None
}

fn has_dot(text: &Vec<char>) -> (b: bool)
    ensures
        b == text@.contains('.'),
{
    let mut i: usize = 0;
    while i < text.len()
        invariant
            i <= text.len(),
            forall|j: int| 0 <= j < i ==> text@[j] != '.',
        decreases text.len() - i,
    {
        if text[i] == '.' {
            return true;
        }
        i += 1;
    }
    false
}

/// Reads the map document.
pub struct MapParser;

impl MapParser {
    /// The files that the map document with the text `content` names, line
    /// by line.
    pub fn get_known_files(content: &str) -> (files: Vec<String>)
        ensures
            strs(files@) == known_files(lines_seq(content@), lines_seq(content@).len() as int),
    {
        let ls = lines(&to_chars(content));
        let mut found: Vec<Vec<char>> = Vec::new();
        let mut i: usize = 0;
        assert(views(found@) =~= known_files(views(ls@), 0));
        while i < ls.len()
            invariant
                i <= ls.len(),
                views(found@) == known_files(views(ls@), i as int),
            decreases ls.len() - i,
        {
            let line = &ls[i];
            assert(views(ls@)[i as int] == line@);
            match index_of_char(line, '[') {
                Some(a) => {
                    match index_of_char(line, ']') {
                        Some(b) => {
                            if a < b {
                                let path = slice(line, a + 1, b);
                                if has_dot(&path) {
                                    proof {
                                        lemma_views_push(found@, path);
                                    }
                                    found.push(path);
                                }
                            }
                        },
                        None => {},
                    }
                },
                None => {},
            }
            i += 1;
        }
        to_strings(&found)
    }
}

} // verus!
