//! The configuration driver.

use crate::drivers::{penalty_of, penalty_of_chars, CommonMetrics, MetricsView};
use crate::text::{count_nonblank, lines, nonblank_lines, to_chars};
use vstd::prelude::*;

verus! {

/// How many keys the JSON object has that `text` holds; `None` where `text`
/// is no JSON document or holds no object.
pub uninterp spec fn json_object_len(text: Seq<char>) -> Option<nat>;

pub open spec fn opt_nat(o: Option<usize>) -> Option<nat> {
    match o {
        Some(n) => Some(n as nat),
        None => None,
    }
}

/// Parses `content` as JSON and counts the keys of its top-level object.
///
/// Trusted: `serde_json::from_str` reads the text as a JSON value or refuses
/// it, and `Map::len` is the number of keys of an object; both depend on the
/// text alone.
#[verifier::external_body]
pub(crate) fn top_level_keys(content: &str) -> (r: Option<usize>)
    ensures
        opt_nat(r) == json_object_len(content@),
{
    match serde_json::from_str::<serde_json::Value>(content) {
        Ok(serde_json::Value::Object(map)) => Some(map.len()),
        _ => None,
    }
}

/// What the configuration driver reports of `content`, where `keys` is the
/// number of keys of its top-level JSON object, if it holds one: the lines
/// that are not blank, one branch for every key, and the pattern penalty.
pub open spec fn config_metrics(
    content: Seq<char>,
    keys: Option<nat>,
    dict: Seq<(String, u64)>,
) -> MetricsView {
    MetricsView {
        loc: nonblank_lines(content),
        logic_count: match keys {
            Some(n) => n,
            None => 0,
        },
        max_nesting: 0,
        complexity_penalty: penalty_of(content, dict),
        hotspot_lines: None,
        hotspot_reason: None,
        hotspot_symbol: None,
        external_calls: 0,
        internal_calls: 0,
        state_count: 0,
        dependencies: Seq::empty(),
    }
}

/// What the configuration driver reports of `content`, given the number of
/// keys of its top-level object.
pub fn config_metrics_with(content: &str, keys: Option<usize>, dict: &Vec<(String, u64)>) -> (m:
    CommonMetrics)
    ensures
        m@ == config_metrics(content@, opt_nat(keys), dict@),
{
    let chars = to_chars(content);
    let ls = lines(&chars);
    let m = CommonMetrics {
        loc: count_nonblank(&ls),
        logic_count: match keys {
            Some(n) => n,
            None => 0,
        },
        max_nesting: 0,
        complexity_penalty: penalty_of_chars(&chars, dict),
        hotspot_lines: None,
        hotspot_reason: None,
        hotspot_symbol: None,
        external_calls: 0,
        internal_calls: 0,
        state_count: 0,
        dependencies: Vec::new(),
    };
    assert(m@.dependencies =~= Seq::<Seq<char>>::empty());
    m
}

/// What the configuration driver reports of `content`.
pub fn analyze_config(content: &str, dict: &Vec<(String, u64)>) -> (r: Result<CommonMetrics, String>)
    ensures
        r is Ok,
        r->Ok_0@ == config_metrics(content@, json_object_len(content@), dict@),
{
    let keys = top_level_keys(content);
    Ok(config_metrics_with(content, keys, dict))
}

} // verus!
