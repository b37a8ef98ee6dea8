//! The structural driver: the counting that goes with a walk over a syntax
//! tree. Whoever walks the tree tells the walker what it meets.

use crate::drivers::{penalty_of, penalty_of_chars, CommonMetrics, MetricsView};
use crate::text::{
    count_nonblank, lemma_strs_push, lines, nonblank_lines, replace, replace_seq, to_chars,
    to_string,
};
use vstd::prelude::*;

verus! {

/// The counters of a walk over a syntax tree.
pub struct RustWalker {
    pub metrics: CommonMetrics,
    pub current_depth: usize,
}

/// `n + 1`, held at `usize::MAX`.
pub open spec fn next_count(n: nat) -> nat {
    if n < usize::MAX {
        n + 1
    } else {
        n
    }
}

fn tick(n: usize) -> (r: usize)
    ensures
        r as nat == next_count(n as nat),
{
    if n < usize::MAX {
        n + 1
    } else {
        n
    }
}

impl Default for RustWalker {
    fn default() -> (w: RustWalker)
        ensures
            w.metrics.is_blank(),
            w.depth() == 0,
    {
        RustWalker { metrics: CommonMetrics::default(), current_depth: 0 }
    }
}

impl RustWalker {
    /// How many blocks are open around the walker, counted from the function
    /// it is in.
    pub open spec fn depth(&self) -> nat {
        self.current_depth as nat
    }

    /// A block opens: one level deeper, and the nesting follows.
    pub fn enter_block(&mut self)
        ensures
            final(self).depth() == next_count(old(self).depth()),
            final(self).metrics@ == (MetricsView {
                max_nesting: if final(self).depth() > old(self).metrics@.max_nesting {
                    final(self).depth()
                } else {
                    old(self).metrics@.max_nesting
                },
                ..old(self).metrics@
            }),
    {
        self.current_depth = tick(self.current_depth);
        if self.current_depth > self.metrics.max_nesting {
            self.metrics.max_nesting = self.current_depth;
        }
    }

    /// A block closes.
    pub fn leave_block(&mut self)
        ensures
            final(self).depth() == if old(self).depth() > 0 {
                (old(self).depth() - 1) as nat
            } else {
                0
            },
            final(self).metrics@ == old(self).metrics@,
    {
        if self.current_depth > 0 {
            self.current_depth -= 1;
        }
    }

    /// A conditional, a loop or a pattern match: one branch more.
    pub fn branch(&mut self)
        ensures
            final(self).depth() == old(self).depth(),
            final(self).metrics@ == (MetricsView {
                logic_count: next_count(old(self).metrics@.logic_count),
                ..old(self).metrics@
            }),
    {
        self.metrics.logic_count = tick(self.metrics.logic_count);
    }

    /// A function item starts: depth is counted anew inside it. Returns the
    /// depth to go back to when it ends.
    pub fn enter_fn(&mut self) -> (outer: usize)
        ensures
            outer as nat == old(self).depth(),
            final(self).depth() == 0,
            final(self).metrics@ == old(self).metrics@,
    {
        let outer = self.current_depth;
        self.current_depth = 0;
        outer
    }

    /// A function item ends.
    pub fn leave_fn(&mut self, outer: usize)
        ensures
            final(self).depth() == outer as nat,
            final(self).metrics@ == old(self).metrics@,
    {
        self.current_depth = outer;
    }

    /// A `use` item: the path it names, written without spaces, is a
    /// dependency.
    pub fn use_item(&mut self, tree: &str)
        ensures
            final(self).depth() == old(self).depth(),
            final(self).metrics@ == (MetricsView {
                dependencies: old(self).metrics@.dependencies.push(
                    replace_seq(tree@, " "@, ""@),
                ),
                external_calls: next_count(old(self).metrics@.external_calls),
                ..old(self).metrics@
            }),
    {
        let dep = to_string(&replace(&to_chars(tree), &to_chars(" "), &to_chars("")));
        proof {
            lemma_strs_push(self.metrics.dependencies@, dep);
        }
        self.metrics.dependencies.push(dep);
        self.metrics.external_calls = tick(self.metrics.external_calls);
    }

    /// A `mod` item: without a body it stands for a file, which is a
    /// dependency; with one it stands for nothing outside.
    pub fn mod_item(&mut self, name: &str, has_body: bool)
        ensures
            final(self).depth() == old(self).depth(),
            final(self).metrics@ == if has_body {
                old(self).metrics@
            } else {
                MetricsView {
                    dependencies: old(self).metrics@.dependencies.push(name@),
                    external_calls: next_count(old(self).metrics@.external_calls),
                    ..old(self).metrics@
                }
            },
    {
        if !has_body {
            let dep = name.to_string();
            proof {
                lemma_strs_push(self.metrics.dependencies@, dep);
            }
            self.metrics.dependencies.push(dep);
            self.metrics.external_calls = tick(self.metrics.external_calls);
        }
    }

    /// A typed pattern: a mutable binding is state.
    pub fn typed_pattern(&mut self, binds_mutable: bool)
        ensures
            final(self).depth() == old(self).depth(),
            final(self).metrics@ == if binds_mutable {
                MetricsView {
                    state_count: next_count(old(self).metrics@.state_count),
                    ..old(self).metrics@
                }
            } else {
                old(self).metrics@
            },
    {
        if binds_mutable {
            self.metrics.state_count = tick(self.metrics.state_count);
        }
    }

    /// An assignment is state.
    pub fn assignment(&mut self)
        ensures
            final(self).depth() == old(self).depth(),
            final(self).metrics@ == (MetricsView {
                state_count: next_count(old(self).metrics@.state_count),
                ..old(self).metrics@
            }),
    {
        self.metrics.state_count = tick(self.metrics.state_count);
    }
}

/// What the structural driver reports of `content`, where `walked` is what a
/// walk over its syntax tree counted, if the text could be parsed.
///
/// Lines count unless blank. After a walk the pattern penalty of the text is added
/// to what the walk found. Without one, the lines and the pattern penalty are
/// all that is reported.
pub open spec fn rust_metrics(
    content: Seq<char>,
    walked: Option<MetricsView>,
    dict: Seq<(String, u64)>,
) -> MetricsView {
    match walked {
        Some(w) => MetricsView {
            loc: nonblank_lines(content),
            complexity_penalty: if w.complexity_penalty + penalty_of(content, dict) > u64::MAX {
                u64::MAX as nat
            } else {
                w.complexity_penalty + penalty_of(content, dict)
            },
            hotspot_lines: None,
            hotspot_reason: None,
            internal_calls: 0,
            ..w
        },
        None => MetricsView {
            loc: nonblank_lines(content),
            logic_count: 0,
            max_nesting: 0,
            complexity_penalty: penalty_of(content, dict),
            hotspot_lines: None,
            hotspot_reason: None,
            hotspot_symbol: None,
            external_calls: 0,
            internal_calls: 0,
            state_count: 0,
            dependencies: Seq::empty(),
        },
    }
}

pub open spec fn walked_view(walked: Option<RustWalker>) -> Option<MetricsView> {
    match walked {
        Some(w) => Some(w.metrics@),
        None => None,
    }
}

/// What the structural driver reports of `content`, given the walker that
/// went over its syntax tree, or `None` where the text could not be parsed.
pub fn analyze_rust(content: &str, walked: Option<RustWalker>, dict: &Vec<(String, u64)>) -> (r:
    Result<CommonMetrics, String>)
    ensures
        r is Ok,
        r->Ok_0@ == rust_metrics(content@, walked_view(walked), dict@),
{
    let chars = to_chars(content);
    let loc = count_nonblank(&lines(&chars));
    match walked {
        Some(w) => {
            let mut m = w.metrics;
            m.loc = loc;
            m.hotspot_lines = None;
            m.hotspot_reason = None;
            m.internal_calls = 0;
            m.complexity_penalty = m.complexity_penalty.saturating_add(
                penalty_of_chars(&chars, dict),
            );
            Ok(m)
        },
        None => {
            let mut m = CommonMetrics::default();
            m.loc = loc;
            m.complexity_penalty = penalty_of_chars(&chars, dict);
            assert(m@.dependencies =~= Seq::<Seq<char>>::empty());
            Ok(m)
        },
    }
}

} // verus!
