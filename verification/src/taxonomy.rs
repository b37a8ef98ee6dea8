//! The role of a file, from its header or from where it lies.

use crate::drivers::{header_of, parse_header, EfficiencyOverride, HeaderTag};
use crate::paths::{extension_or_blank, extension_or_empty, file_name};
use crate::synth::name_of;
use crate::text::{contains, contains_seq, lowercase, lowercase_of, same_text, to_chars, to_string};
use vstd::prelude::*;

verus! {

/// The role that the place of a file gives it, where `p` is its path and `f`
/// its name, both in lower case, and `ext` its extension. The first rule
/// that applies decides.
pub open spec fn role_by_place(p: Seq<char>, f: Seq<char>, ext: Seq<char>) -> Seq<char> {
    if f == "cargo.toml"@ || f == "package.json"@ || contains_seq(f, "config"@) || contains_seq(
        p,
        "/scripts/"@,
    ) || ext == "json"@ || ext == "toml"@ || ext == "yaml"@ {
        "infra-config"@
    } else if f == "main.rs"@ || f == "lib.rs"@ || f == "mod.rs"@ || f == "main.res"@ || f
        == "app.res"@ || f == "index.js"@ || contains_seq(p, "actions"@) || contains_seq(
        p,
        "serviceworker"@,
    ) {
        "orchestrator"@
    } else if contains_seq(p, "/systems/"@) || contains_seq(p, "logic"@) || contains_seq(
        p,
        "manager"@,
    ) {
        "service-orchestrator"@
    } else if contains_seq(p, "/core/"@) && !contains_seq(p, "types"@) {
        "domain-logic"@
    } else if contains_seq(p, "/components/"@) || contains_seq(p, "view"@) || contains_seq(
        p,
        "/public/"@,
    ) || ext == "css"@ || ext == "html"@ || ext == "jsx"@ {
        "ui-component"@
    } else if contains_seq(p, "reducer"@) || contains_seq(p, "state"@) {
        "state-reducer"@
    } else if contains_seq(p, "types"@) || contains_seq(p, "models"@) || contains_seq(
        p,
        "schemas"@,
    ) {
        "data-model"@
    } else if contains_seq(p, "api"@) || contains_seq(p, "client"@) || contains_seq(
        p,
        "bindings"@,
    ) || contains_seq(p, "context"@) {
        "infra-adapter"@
    } else if contains_seq(p, "utils"@) || contains_seq(p, "helpers"@) {
        "util-pure"@
    } else {
        "unknown"@
    }
}

/// The role of the file at `path` with the text `content`.
///
/// Unless the file is JSON or YAML, its header decides where it asks to be
/// ignored or names a role. Else the place of the file decides.
pub open spec fn taxonomy_of(path: Seq<char>, content: Seq<char>) -> Seq<char> {
    let ext = extension_or_empty(path);
    let by_place = role_by_place(lowercase_of(path), lowercase_of(name_of(path)), ext);
    if ext != "json"@ && ext != "yaml"@ {
        match header_of(content) {
            HeaderTag::Ignore => "ignored"@,
            HeaderTag::Role(name) => name,
            _ => by_place,
        }
    } else {
        by_place
    }
}

fn equals(text: &Vec<char>, lit: &str) -> (b: bool)
    ensures
        b == (text@ == lit@),
{
    same_text(text, &to_chars(lit))
}

fn holds(text: &Vec<char>, lit: &str) -> (b: bool)
    ensures
        b == contains_seq(text@, lit@),
{
    contains(text, &to_chars(lit))
}

fn place_role(p: &Vec<char>, f: &Vec<char>, ext: &Vec<char>) -> (r: String)
    ensures
        r@ == role_by_place(p@, f@, ext@),
{
    if equals(f, "cargo.toml") || equals(f, "package.json") || holds(f, "config") || holds(p, "/scripts/")
        || equals(ext, "json") || equals(ext, "toml") || equals(ext, "yaml") {
        "infra-config".to_owned()
    } else if equals(f, "main.rs") || equals(f, "lib.rs") || equals(f, "mod.rs") || equals(f, "main.res") || equals(
        f,
        "app.res",
    ) || equals(f, "index.js") || holds(p, "actions") || holds(p, "serviceworker") {
        "orchestrator".to_owned()
    } else if holds(p, "/systems/") || holds(p, "logic") || holds(p, "manager") {
        "service-orchestrator".to_owned()
    } else if holds(p, "/core/") && !holds(p, "types") {
        "domain-logic".to_owned()
    } else if holds(p, "/components/") || holds(p, "view") || holds(p, "/public/") || equals(ext, "css")
        || equals(ext, "html") || equals(ext, "jsx") {
        "ui-component".to_owned()
    } else if holds(p, "reducer") || holds(p, "state") {
        "state-reducer".to_owned()
    } else if holds(p, "types") || holds(p, "models") || holds(p, "schemas") {
        "data-model".to_owned()
    } else if holds(p, "api") || holds(p, "client") || holds(p, "bindings") || holds(p, "context") {
        "infra-adapter".to_owned()
    } else if holds(p, "utils") || holds(p, "helpers") {
        "util-pure".to_owned()
    } else {
        "unknown".to_owned()
    }
}

/// The role of the file at `path` with the text `content`.
pub fn infer_taxonomy(path: &str, content: &str) -> (role: String)
    ensures
        role@ == taxonomy_of(path@, content@),
{
    let chars = to_chars(path);
    let ext = extension_or_blank(&chars);
    if !equals(&ext, "json") && !equals(&ext, "yaml") {
        match parse_header(content) {
            EfficiencyOverride::Ignore => {
                return "ignored".to_owned();
            },
            EfficiencyOverride::Role(name) => {
                return name;
            },
            _ => {},
        }
    }
    let p = to_chars(lowercase(path).as_str());
    let name = match file_name(&chars) {
        Some(n) => n,
        None => Vec::new(),
    };
    let f = to_chars(lowercase(to_string(&name).as_str()).as_str());
    place_role(&p, &f, &ext)
}

/// The driver that reads files of the extension `ext`.
pub open spec fn driver_of(ext: Seq<char>) -> Seq<char> {
    if ext == "rs"@ {
        "rust"@
    } else if ext == "res"@ {
        "rescript"@
    } else if ext == "jsx"@ || ext == "js"@ || ext == "html"@ {
        "web"@
    } else if ext == "css"@ {
        "css"@
    } else {
        "config"@
    }
}

/// The driver that reads the file at `path`.
pub fn driver_for(path: &str) -> (driver: String)
    ensures
        driver@ == driver_of(extension_or_empty(path@)),
{
    let ext = extension_or_blank(&to_chars(path));
    if equals(&ext, "rs") {
        "rust".to_owned()
    } else if equals(&ext, "res") {
        "rescript".to_owned()
    } else if equals(&ext, "jsx") || equals(&ext, "js") || equals(&ext, "html") {
        "web".to_owned()
    } else if equals(&ext, "css") {
        "css".to_owned()
    } else {
        "config".to_owned()
    }
}

/// The platform of the file at `path`: `backend` for Rust files and for
/// files whose path holds `backend`, else `frontend`.
pub open spec fn platform_of(path: Seq<char>) -> Seq<char> {
    if extension_or_empty(path) == "rs"@ || contains_seq(path, "backend"@) {
        "backend"@
    } else {
        "frontend"@
    }
}

/// The platform of the file at `path`.
pub fn platform_for(path: &str) -> (platform: String)
    ensures
        platform@ == platform_of(path@),
{
    let chars = to_chars(path);
    if equals(&extension_or_blank(&chars), "rs") || holds(&chars, "backend") {
        "backend".to_owned()
    } else {
        "frontend".to_owned()
    }
}

/// The text asks outright to be left out of the scan.
pub open spec fn asks_to_be_ignored(content: Seq<char>) -> bool {
    contains_seq(content, "@efficiency-role: ignored"@) || contains_seq(
        content,
        "@efficiency-role ignored"@,
    )
}

/// Whether the text asks outright to be left out of the scan.
pub fn is_marked_ignored(content: &str) -> (b: bool)
    ensures
        b == asks_to_be_ignored(content@),
{
    let chars = to_chars(content);
    holds(&chars, "@efficiency-role: ignored") || holds(&chars, "@efficiency-role ignored")
}

/// The place to scan for the root `root`: the root itself where it starts
/// two levels up, else the root taken from two levels up.
pub open spec fn scan_root_of(root: Seq<char>) -> Seq<char> {
    if crate::text::starts_with_seq(root, "../../"@) {
        root
    } else {
        "../../"@ + root
    }
}

/// The place to scan for the root `root`.
pub fn scan_root(root: &str) -> (r: String)
    ensures
        r@ == scan_root_of(root@),
{
    let chars = to_chars(root);
    if crate::text::starts_with(&chars, &to_chars("../../")) {
        to_string(&chars)
    } else {
        let mut out = to_chars("../../");
        crate::text::append(&mut out, &chars);
        to_string(&out)
    }
}

} // verus!
