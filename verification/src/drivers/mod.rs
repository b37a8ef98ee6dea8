//! Per-file analysis: what every driver reports, and the preprocessing the
//! drivers share.

pub mod config;
pub mod css;
pub mod html;
pub mod rescript;
pub mod rust;

use crate::text::{
    char_is_alphanumeric, count_matches, count_seq, find_from, find_spec, is_alphanumeric,
    is_nonblank, lemma_find_spec, lemma_nonblank_count_positive, lines_seq, same_text, slice,
    strs, to_chars, to_string, trim, trim_seq,
};
use vstd::prelude::*;

verus! {

/// What a driver reports of one file.
///
/// `complexity_penalty` is carried in thousandths.
#[derive(Debug)]
pub struct CommonMetrics {
    pub loc: usize,
    pub logic_count: usize,
    pub max_nesting: usize,
    pub complexity_penalty: u64,
    pub hotspot_lines: Option<(usize, usize)>,
    pub hotspot_reason: Option<String>,
    pub hotspot_symbol: Option<String>,
    pub external_calls: usize,
    pub internal_calls: usize,
    pub state_count: usize,
    pub dependencies: Vec<String>,
}

/// A `CommonMetrics` with its texts as sequences of characters.
pub struct MetricsView {
    pub loc: nat,
    pub logic_count: nat,
    pub max_nesting: nat,
    pub complexity_penalty: nat,
    pub hotspot_lines: Option<(nat, nat)>,
    pub hotspot_reason: Option<Seq<char>>,
    pub hotspot_symbol: Option<Seq<char>>,
    pub external_calls: nat,
    pub internal_calls: nat,
    pub state_count: nat,
    pub dependencies: Seq<Seq<char>>,
}

/// The view of an optional string.
pub open spec fn opt_str(o: Option<String>) -> Option<Seq<char>> {
    match o {
        Some(s) => Some(s@),
        None => None,
    }
}

impl View for CommonMetrics {
    type V = MetricsView;

    open spec fn view(&self) -> MetricsView {
        MetricsView {
            loc: self.loc as nat,
            logic_count: self.logic_count as nat,
            max_nesting: self.max_nesting as nat,
            complexity_penalty: self.complexity_penalty as nat,
            hotspot_lines: match self.hotspot_lines {
                Some((a, b)) => Some((a as nat, b as nat)),
                None => None,
            },
            hotspot_reason: opt_str(self.hotspot_reason),
            hotspot_symbol: opt_str(self.hotspot_symbol),
            external_calls: self.external_calls as nat,
            internal_calls: self.internal_calls as nat,
            state_count: self.state_count as nat,
            dependencies: strs(self.dependencies@),
        }
    }
}

impl CommonMetrics {
    /// Nothing counted, nothing found.
    pub open spec fn is_blank(&self) -> bool {
        &&& self.loc == 0
        &&& self.logic_count == 0
        &&& self.max_nesting == 0
        &&& self.complexity_penalty == 0
        &&& self.hotspot_lines is None
        &&& self.hotspot_reason is None
        &&& self.hotspot_symbol is None
        &&& self.external_calls == 0
        &&& self.internal_calls == 0
        &&& self.state_count == 0
        &&& self.dependencies@.len() == 0
    }
}

impl Default for CommonMetrics {
    fn default() -> (m: CommonMetrics)
        ensures
            m.is_blank(),
    {
        CommonMetrics {
            loc: 0,
            logic_count: 0,
            max_nesting: 0,
            complexity_penalty: 0,
            hotspot_lines: None,
            hotspot_reason: None,
            hotspot_symbol: None,
            external_calls: 0,
            internal_calls: 0,
            state_count: 0,
            dependencies: Vec::new(),
        }
    }
}

/// What a file's header pragma asks for.
#[derive(Debug)]
pub enum EfficiencyOverride {
    Absent,
    Ignore,
    Strict,
    Role(String),
}

/// An `EfficiencyOverride` with its role as a sequence of characters.
pub enum HeaderTag {
    Absent,
    Ignore,
    Strict,
    Role(Seq<char>),
}

impl View for EfficiencyOverride {
    type V = HeaderTag;

    open spec fn view(&self) -> HeaderTag {
        match self {
            EfficiencyOverride::Absent => HeaderTag::Absent,
            EfficiencyOverride::Ignore => HeaderTag::Ignore,
            EfficiencyOverride::Strict => HeaderTag::Strict,
            EfficiencyOverride::Role(name) => HeaderTag::Role(name@),
        }
    }
}

/// A character that may stand in a pragma's tag.
pub open spec fn is_tag_char(c: char) -> bool {
    is_alphanumeric(c) || c == '-' || c == '_'
}

/// The first index at or after `i` that holds a tag character, or the length.
pub open spec fn tag_start(s: Seq<char>, i: int) -> int
    decreases s.len() - i,
{
    if i < 0 || i >= s.len() {
        s.len() as int
    } else if is_tag_char(s[i]) {
        i
    } else {
        tag_start(s, i + 1)
    }
}

/// The first index at or after `i` that holds no tag character, or the length.
pub open spec fn tag_end(s: Seq<char>, i: int) -> int
    decreases s.len() - i,
{
    if i < 0 || i >= s.len() {
        s.len() as int
    } else if is_tag_char(s[i]) {
        tag_end(s, i + 1)
    } else {
        i
    }
}

/// The tag that follows the first occurrence of `prefix`: the first run of tag
/// characters after it, trimmed. Empty where the prefix does not occur or no
/// tag character follows it.
pub open spec fn tag_after(content: Seq<char>, prefix: Seq<char>) -> Seq<char> {
    let k = find_spec(content, prefix, 0);
    if k < 0 || k + prefix.len() > content.len() {
        Seq::empty()
    } else {
        let a = tag_start(content, k + prefix.len());
        let b = tag_end(content, a);
        if a <= b <= content.len() {
            trim_seq(content.subrange(a, b))
        } else {
            Seq::empty()
        }
    }
}

/// What a tag stands for.
pub open spec fn classify_tag(tag: Seq<char>) -> HeaderTag {
    if tag == "ignore"@ || tag == "ignored"@ {
        HeaderTag::Ignore
    } else if tag == "strict"@ {
        HeaderTag::Strict
    } else if tag == "singleton"@ {
        HeaderTag::Role("orchestrator"@)
    } else {
        HeaderTag::Role(tag)
    }
}

/// The pragma of a file: the tag after `@efficiency:`, else the one after
/// `@efficiency-role:`, else the one after `@efficiency-role `; the first of
/// the three that is followed by a tag decides.
pub open spec fn header_of(content: Seq<char>) -> HeaderTag {
    let t1 = tag_after(content, "@efficiency:"@);
    let t2 = tag_after(content, "@efficiency-role:"@);
    let t3 = tag_after(content, "@efficiency-role "@);
    if t1.len() > 0 {
        classify_tag(t1)
    } else if t2.len() > 0 {
        classify_tag(t2)
    } else if t3.len() > 0 {
        classify_tag(t3)
    } else {
        HeaderTag::Absent
    }
}

fn is_tag(c: char) -> (b: bool)
    ensures
        b == is_tag_char(c),
{
    char_is_alphanumeric(c) || c == '-' || c == '_'
}

fn read_tag(content: &Vec<char>, prefix: &str) -> (tag: Vec<char>)
    ensures
        tag@ == tag_after(content@, prefix@),
{
    let pre = to_chars(prefix);
    match find_from(content, &pre, 0) {
        None => Vec::new(),
        Some(k) => {
            proof {
                lemma_find_spec(content@, pre@, 0);
                assert(k + pre.len() <= content.len());
            }
            let mut a: usize = k + pre.len();
            while a < content.len() && !is_tag(content[a])
                invariant
                    a <= content.len(),
                    tag_start(content@, a as int) == tag_start(content@, k + pre@.len()),
                decreases content.len() - a,
            {
                a += 1;
            }
            let mut b: usize = a;
            while b < content.len() && is_tag(content[b])
                invariant
                    a <= b <= content.len(),
                    tag_end(content@, b as int) == tag_end(content@, a as int),
                decreases content.len() - b,
            {
                b += 1;
            }
            let run = slice(content, a, b);
            trim(&run)
        },
    }
}

fn classify(tag: Vec<char>) -> (r: EfficiencyOverride)
    ensures
        r@ == classify_tag(tag@),
{
    if same_text(&tag, &to_chars("ignore")) || same_text(&tag, &to_chars("ignored")) {
        EfficiencyOverride::Ignore
    } else if same_text(&tag, &to_chars("strict")) {
        EfficiencyOverride::Strict
    } else if same_text(&tag, &to_chars("singleton")) {
        EfficiencyOverride::Role("orchestrator".to_string())
    } else {
        EfficiencyOverride::Role(to_string(&tag))
    }
}

/// Reads the pragma of a file.
pub fn parse_header(content: &str) -> (r: EfficiencyOverride)
    ensures
        r@ == header_of(content@),
{
    let chars = to_chars(content);
    let t1 = read_tag(&chars, "@efficiency:");
    if t1.len() > 0 {
        return classify(t1);
    }
    let t2 = read_tag(&chars, "@efficiency-role:");
    if t2.len() > 0 {
        return classify(t2);
    }
    let t3 = read_tag(&chars, "@efficiency-role ");
    if t3.len() > 0 {
        return classify(t3);
    }
    EfficiencyOverride::Absent
}

/// Where the stripper stands: in code, in a line comment, in a block comment,
/// or in a string opened by the given quote.
#[derive(Clone, Copy)]
pub enum Lex {
    Code,
    Line,
    Block,
    Quote(char),
}

/// Whether `c` opens a string.
pub open spec fn opens_string(c: char, single_quote: bool) -> bool {
    c == '"' || c == '`' || (single_quote && c == '\'')
}

/// What is left of `s` from `i` on, read in state `st`, once comments and
/// strings are taken out.
///
/// Code is kept character by character. `//` opens a line comment and `/*` a
/// block comment; a quote opens a string. A line comment ends at a line feed.
/// A block comment ends after `*/`. In a string a backslash takes the next
/// character with it, whatever it is, and the string ends at the quote that
/// opened it. Every line feed is kept, wherever it stands, so that the lines
/// of the result are the lines of the text.
pub open spec fn strip_from(s: Seq<char>, single_quote: bool, i: int, st: Lex) -> Seq<char>
    decreases s.len() - i,
{
    if i < 0 || i >= s.len() {
        Seq::empty()
    } else {
        let c = s[i];
        let more = i + 1 < s.len();
        match st {
            Lex::Line => if c == '\n' {
                seq!['\n'] + strip_from(s, single_quote, i + 1, Lex::Code)
            } else {
                strip_from(s, single_quote, i + 1, Lex::Line)
            },
            Lex::Block => if c == '*' && more && s[i + 1] == '/' {
                strip_from(s, single_quote, i + 2, Lex::Code)
            } else if c == '\n' {
                seq!['\n'] + strip_from(s, single_quote, i + 1, Lex::Block)
            } else {
                strip_from(s, single_quote, i + 1, Lex::Block)
            },
            Lex::Quote(q) => if c == '\\' && more {
                if s[i + 1] == '\n' {
                    seq!['\n'] + strip_from(s, single_quote, i + 2, Lex::Quote(q))
                } else {
                    strip_from(s, single_quote, i + 2, Lex::Quote(q))
                }
            } else if c == q {
                strip_from(s, single_quote, i + 1, Lex::Code)
            } else if c == '\n' {
                seq!['\n'] + strip_from(s, single_quote, i + 1, Lex::Quote(q))
            } else {
                strip_from(s, single_quote, i + 1, Lex::Quote(q))
            },
            Lex::Code => if c == '/' && more && s[i + 1] == '/' {
                strip_from(s, single_quote, i + 2, Lex::Line)
            } else if c == '/' && more && s[i + 1] == '*' {
                strip_from(s, single_quote, i + 2, Lex::Block)
            } else if opens_string(c, single_quote) {
                strip_from(s, single_quote, i + 1, Lex::Quote(c))
            } else {
                seq![c] + strip_from(s, single_quote, i + 1, Lex::Code)
            },
        }
    }
}

/// `s` without its comments and strings.
pub open spec fn strip_spec(s: Seq<char>, single_quote: bool) -> Seq<char> {
    strip_from(s, single_quote, 0, Lex::Code)
}

/// `chars` without its comments and strings.
pub fn strip_chars(chars: &Vec<char>, treat_single_quote_as_string: bool) -> (out: Vec<char>)
    ensures
        out@ == strip_spec(chars@, treat_single_quote_as_string),
{
    let sq = treat_single_quote_as_string;
    let mut out: Vec<char> = Vec::new();
    let mut st = Lex::Code;
    let mut i: usize = 0;
    while i < chars.len()
        invariant
            i <= chars.len(),
            out@ + strip_from(chars@, sq, i as int, st) == strip_spec(chars@, sq),
        decreases chars.len() - i,
    {
        let c = chars[i];
        let more = i + 1 < chars.len();
        let ghost before = out@;
        let ghost rest = strip_from(chars@, sq, i as int, st);
        let mut step: usize = 1;
        match st {
            Lex::Line => {
                if c == '\n' {
                    out.push(c);
                    st = Lex::Code;
                }
            },
            Lex::Block => {
                if c == '*' && more && chars[i + 1] == '/' {
                    st = Lex::Code;
                    step = 2;
                } else if c == '\n' {
                    out.push(c);
                }
            },
            Lex::Quote(q) => {
                if c == '\\' && more {
                    if chars[i + 1] == '\n' {
                        out.push('\n');
                    }
                    step = 2;
                } else if c == q {
                    st = Lex::Code;
                } else if c == '\n' {
                    out.push(c);
                }
            },
            Lex::Code => {
                if c == '/' && more && chars[i + 1] == '/' {
                    st = Lex::Line;
                    step = 2;
                } else if c == '/' && more && chars[i + 1] == '*' {
                    st = Lex::Block;
                    step = 2;
                } else if c == '"' || c == '`' || (sq && c == '\'') {
                    st = Lex::Quote(c);
                } else {
                    out.push(c);
                }
            },
        }
        i += step;
        proof {
            let after = strip_from(chars@, sq, i as int, st);
            if out@.len() > before.len() {
                let kept = out@[before.len() as int];
                assert(out@ + after =~= before + (seq![kept] + after));
            }
        }
    }
    proof {
        assert(out@ + Seq::<char>::empty() =~= out@);
    }
    out
}

/// `content` without its comments and strings; `'` opens a string only where
/// `treat_single_quote_as_string` is set.
pub fn strip_code_modular(content: &str, treat_single_quote_as_string: bool) -> (out: String)
    ensures
        out@ == strip_spec(content@, treat_single_quote_as_string),
        line_feeds(out@) == line_feeds(content@),
{
    proof {
        lemma_strip_keeps_lines(content@, treat_single_quote_as_string);
    }
    let chars = to_chars(content);
    let kept = strip_chars(&chars, treat_single_quote_as_string);
    to_string(&kept)
}

/// `content` without its comments and strings, `'` opening a string too.
pub fn strip_code(content: &str) -> (out: String)
    ensures
        out@ == strip_spec(content@, true),
        line_feeds(out@) == line_feeds(content@),
{
    strip_code_modular(content, true)
}

/// `a` can be had from `b`, read from `i` on, by leaving characters out.
pub open spec fn embeds(a: Seq<char>, b: Seq<char>, i: int) -> bool
    decreases b.len() - i,
{
    if a.len() == 0 {
        true
    } else if i < 0 || i >= b.len() {
        false
    } else {
        (a[0] == b[i] && embeds(a.drop_first(), b, i + 1)) || embeds(a, b, i + 1)
    }
}

/// What can be had from the text read from `i + 1` on can be had from it
/// read from `i` on.
pub proof fn lemma_embeds_later(a: Seq<char>, b: Seq<char>, i: int)
    requires
        0 <= i,
        embeds(a, b, i + 1),
    ensures
        embeds(a, b, i),
{
}

/// Stripping only leaves characters out: what is kept stands in the text, in
/// the same order.
pub proof fn lemma_strip_keeps_order(s: Seq<char>, single_quote: bool, i: int, st: Lex)
    requires
        0 <= i,
    ensures
        embeds(strip_from(s, single_quote, i, st), s, i),
    decreases s.len() - i,
{
    if i < s.len() {
        let out = strip_from(s, single_quote, i, st);
        let c = s[i];
        let more = i + 1 < s.len();
        let (kept, step, next) = match st {
            Lex::Line => if c == '\n' {
                (true, 1int, Lex::Code)
            } else {
                (false, 1int, Lex::Line)
            },
            Lex::Block => if c == '*' && more && s[i + 1] == '/' {
                (false, 2int, Lex::Code)
            } else {
                (c == '\n', 1int, Lex::Block)
            },
            Lex::Quote(q) => if c == '\\' && more {
                (s[i + 1] == '\n', 2int, Lex::Quote(q))
            } else if c == q {
                (false, 1int, Lex::Code)
            } else {
                (c == '\n', 1int, Lex::Quote(q))
            },
            Lex::Code => if c == '/' && more && s[i + 1] == '/' {
                (false, 2int, Lex::Line)
            } else if c == '/' && more && s[i + 1] == '*' {
                (false, 2int, Lex::Block)
            } else if opens_string(c, single_quote) {
                (false, 1int, Lex::Quote(c))
            } else {
                (true, 1int, Lex::Code)
            },
        };
        let rest = strip_from(s, single_quote, i + step, next);
        lemma_strip_keeps_order(s, single_quote, i + step, next);
        if kept {
            let k = s[i + step - 1];
            assert(out == seq![k] + rest);
            assert(out.drop_first() =~= rest);
            if step == 2 {
                assert(embeds(out, s, i + 1));
            }
        } else {
            assert(out == rest);
            if out.len() > 0 {
                if step == 2 {
                    lemma_embeds_later(out, s, i + 1);
                }
                lemma_embeds_later(out, s, i);
            }
        }
    }
}

/// How many line feeds `s` holds.
pub open spec fn line_feeds(s: Seq<char>) -> nat
    decreases s.len(),
{
    if s.len() == 0 {
        0
    } else {
        line_feeds(s.drop_first()) + if s[0] == '\n' {
            1nat
        } else {
            0nat
        }
    }
}

/// Stripping keeps every line feed.
pub proof fn lemma_strip_keeps_lines(s: Seq<char>, single_quote: bool)
    ensures
        line_feeds(strip_spec(s, single_quote)) == line_feeds(s),
{
    lemma_strip_keeps_lines_from(s, single_quote, 0, Lex::Code);
    assert(s.subrange(0, s.len() as int) =~= s);
}

/// From any place, and in any state but that of a string which a line feed
/// opened, what is left holds as many line feeds as the text read.
pub proof fn lemma_strip_keeps_lines_from(s: Seq<char>, single_quote: bool, i: int, st: Lex)
    requires
        0 <= i <= s.len(),
        st matches Lex::Quote(q) ==> q != '\n',
    ensures
        line_feeds(strip_from(s, single_quote, i, st)) == line_feeds(s.subrange(i, s.len() as int)),
    decreases s.len() - i,
{
    let end = s.len() as int;
    if i < s.len() {
        let out = strip_from(s, single_quote, i, st);
        let c = s[i];
        let more = i + 1 < s.len();
        assert(s.subrange(i, end).drop_first() =~= s.subrange(i + 1, end));
        if more {
            assert(s.subrange(i + 1, end).drop_first() =~= s.subrange(i + 2, end));
        }
        let (step, next) = match st {
            Lex::Line => if c == '\n' {
                (1int, Lex::Code)
            } else {
                (1int, Lex::Line)
            },
            Lex::Block => if c == '*' && more && s[i + 1] == '/' {
                (2int, Lex::Code)
            } else {
                (1int, Lex::Block)
            },
            Lex::Quote(q) => if c == '\\' && more {
                (2int, Lex::Quote(q))
            } else if c == q {
                (1int, Lex::Code)
            } else {
                (1int, Lex::Quote(q))
            },
            Lex::Code => if c == '/' && more && s[i + 1] == '/' {
                (2int, Lex::Line)
            } else if c == '/' && more && s[i + 1] == '*' {
                (2int, Lex::Block)
            } else if opens_string(c, single_quote) {
                (1int, Lex::Quote(c))
            } else {
                (1int, Lex::Code)
            },
        };
        let rest = strip_from(s, single_quote, i + step, next);
        lemma_strip_keeps_lines_from(s, single_quote, i + step, next);
        let head = s.subrange(i, end);
        assert(head[0] == c);
        assert(line_feeds(head) == line_feeds(s.subrange(i + 1, end)) + if c == '\n' {
            1nat
        } else {
            0nat
        });
        if step == 2 {
            let mid = s.subrange(i + 1, end);
            assert(mid[0] == s[i + 1]);
            assert(line_feeds(mid) == line_feeds(s.subrange(i + 2, end)) + if s[i + 1] == '\n' {
                1nat
            } else {
                0nat
            });
        }
        if out.len() != rest.len() {
            let k = s[i + step - 1];
            assert(out == seq![k] + rest);
            assert(out.drop_first() =~= rest);
            assert(out[0] == k);
        } else {
            assert(out == rest);
        }
    } else {
        assert(s.subrange(i, end) =~= Seq::<char>::empty());
    }
}

/// Text without a slash or a quote has nothing to strip.
pub proof fn lemma_strip_plain(s: Seq<char>, single_quote: bool, i: int)
    requires
        0 <= i <= s.len(),
        forall|j: int| i <= j < s.len() ==> s[j] != '/' && !opens_string(#[trigger] s[j], single_quote),
    ensures
        strip_from(s, single_quote, i, Lex::Code) == s.subrange(i, s.len() as int),
    decreases s.len() - i,
{
    if i < s.len() {
        lemma_strip_plain(s, single_quote, i + 1);
        assert(s.subrange(i, s.len() as int) =~= seq![s[i]] + s.subrange(i + 1, s.len() as int));
    } else {
        assert(s.subrange(i, s.len() as int) =~= Seq::<char>::empty());
    }
}

/// How often `pat` occurs in `s`, as far as a `usize` can count.
pub open spec fn occurrences(s: Seq<char>, pat: Seq<char>) -> nat {
    if count_seq(s, pat) <= usize::MAX {
        count_seq(s, pat)
    } else {
        usize::MAX as nat
    }
}

/// The weighted occurrences of the first `upto` patterns of `dict` in `content`.
pub open spec fn penalty_sum(content: Seq<char>, dict: Seq<(String, u64)>, upto: int) -> nat
    decreases upto,
{
    if upto <= 0 {
        0
    } else {
        penalty_sum(content, dict, upto - 1) + occurrences(content, dict[upto - 1].0@) * (dict[upto
            - 1].1 as nat)
    }
}

/// The pattern penalty of `content`: each pattern's occurrences times its
/// weight, summed, and held at `u64::MAX` where the sum goes beyond it.
pub open spec fn penalty_of(content: Seq<char>, dict: Seq<(String, u64)>) -> nat {
    let sum = penalty_sum(content, dict, dict.len() as int);
    if sum <= u64::MAX {
        sum
    } else {
        u64::MAX as nat
    }
}

/// The pattern penalty of `chars` under `dict`, weights and result in thousandths.
pub fn penalty_of_chars(chars: &Vec<char>, dict: &Vec<(String, u64)>) -> (penalty: u64)
    ensures
        penalty as nat == penalty_of(chars@, dict@),
{
    let mut acc: u64 = 0;
    let mut i: usize = 0;
    while i < dict.len()
        invariant
            i <= dict.len(),
            acc as nat == if penalty_sum(chars@, dict@, i as int) <= u64::MAX {
                penalty_sum(chars@, dict@, i as int)
            } else {
                u64::MAX as nat
            },
        decreases dict.len() - i,
    {
        let pat = to_chars(dict[i].0.as_str());
        let n: usize = count_matches(chars, &pat);
        let w: u64 = dict[i].1;
        assert((n as u128) * (w as u128) <= 0xffff_ffff_ffff_ffff * 0xffff_ffff_ffff_ffff)
            by (nonlinear_arith)
            requires
                n <= 0xffff_ffff_ffff_ffff,
                w <= 0xffff_ffff_ffff_ffff,
        ;
        let add: u128 = (n as u128) * (w as u128);
        let total: u128 = (acc as u128) + add;
        assert(penalty_sum(chars@, dict@, i + 1) == penalty_sum(chars@, dict@, i as int) + add);
        acc = if total > 0xffff_ffff_ffff_ffff {
            0xffff_ffff_ffff_ffff
        } else {
            total as u64
        };
        i += 1;
    }
    acc
}

/// The pattern penalty of `content` under `dict`, weights and result in thousandths.
pub fn apply_complexity_dictionary(content: &str, dict: &Vec<(String, u64)>) -> (penalty: u64)
    ensures
        penalty as nat == penalty_of(content@, dict@),
{
    let chars = to_chars(content);
    penalty_of_chars(&chars, dict)
}

/// Every driver reports a line count above zero of a text that has a line
/// with more than white space in it.
pub proof fn lemma_driver_totality(
    content: Seq<char>,
    dict: Seq<(String, u64)>,
    tags: Seq<Option<Seq<char>>>,
    keys: Option<nat>,
    walked: Option<MetricsView>,
    i: int,
)
    requires
        0 <= i < lines_seq(content).len(),
        is_nonblank(lines_seq(content)[i]),
    ensures
        rescript::rescript_metrics(content, dict, tags).loc > 0,
        css::css_metrics(content, dict).loc > 0,
        html::html_metrics(content, dict).loc > 0,
        config::config_metrics(content, keys, dict).loc > 0,
        rust::rust_metrics(content, walked, dict).loc > 0,
{
    lemma_nonblank_count_positive(lines_seq(content), lines_seq(content).len() as int, i);
}

} // verus!
