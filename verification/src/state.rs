//! What the planner remembers from run to run: for each file the last
//! action taken on it and the failures seen.

use crate::text::{lemma_strs_push, strs};
use vstd::prelude::*;

verus! {

/// The seconds in a day.
pub const DAY: u64 = 86400;

/// The seconds in an hour.
pub const HOUR: u64 = 3600;

/// What is remembered of one file. `stability_score` runs from 0 to 100,
/// where 100 is very stable.
#[derive(Debug)]
pub struct FileHistory {
    pub last_action: Option<String>,
    pub last_action_timestamp: u64,
    pub stability_score: u64,
    pub failure_count: usize,
    pub last_failure_timestamp: Option<u64>,
}

impl Default for FileHistory {
    fn default() -> (h: FileHistory)
        ensures
            h.last_action is None,
            h.last_action_timestamp == 0,
            h.stability_score == 0,
            h.failure_count == 0,
            h.last_failure_timestamp is None,
    {
        FileHistory {
            last_action: None,
            last_action_timestamp: 0,
            stability_score: 0,
            failure_count: 0,
            last_failure_timestamp: None,
        }
    }
}

/// What is remembered, file by file.
pub struct AnalyzerState {
    pub paths: Vec<String>,
    pub histories: Vec<FileHistory>,
    pub dirty: bool,
}

/// The index of the first path at or after `from` that is `path`, or -1.
pub open spec fn history_index(paths: Seq<String>, path: Seq<char>, from: int) -> int
    decreases paths.len() - from,
{
    if from < 0 || from >= paths.len() {
        -1
    } else if paths[from]@ == path {
        from
    } else {
        history_index(paths, path, from + 1)
    }
}

/// The time now, in seconds since the start of 1970.
///
/// Trusted: `SystemTime::now` with `duration_since` and `as_secs`. Nothing is
/// claimed of the result, which differs from call to call.
#[verifier::external_body]
pub(crate) fn now() -> u64 {
    std::time::SystemTime::now().duration_since(std::time::UNIX_EPOCH).unwrap_or_default().as_secs()
}

impl Default for AnalyzerState {
    fn default() -> (s: AnalyzerState)
        ensures
            s.wf(),
            s.paths@.len() == 0,
            !s.dirty,
    {
        AnalyzerState { paths: Vec::new(), histories: Vec::new(), dirty: false }
    }
}

impl AnalyzerState {
    /// Every path has its history.
    pub open spec fn wf(&self) -> bool {
        self.paths@.len() == self.histories@.len()
    }

    /// Whether something is remembered of `path`.
    pub open spec fn knows(&self, path: Seq<char>) -> bool {
        0 <= history_index(self.paths@, path, 0) < self.histories@.len()
    }

    /// What is remembered of `path`.
    pub open spec fn history(&self, path: Seq<char>) -> FileHistory {
        self.histories@[history_index(self.paths@, path, 0)]
    }

    fn position(&self, path: &str) -> (r: Option<usize>)
        requires
            self.wf(),
        ensures
            match r {
                Some(i) => i as int == history_index(self.paths@, path@, 0) && i
                    < self.paths@.len(),
                None => history_index(self.paths@, path@, 0) == -1,
            },
    {
        let wanted: String = path.to_owned();
        let mut i: usize = 0;
        while i < self.paths.len()
            invariant
                i <= self.paths.len(),
                wanted@ == path@,
                history_index(self.paths@, path@, i as int) == history_index(
                    self.paths@,
                    path@,
                    0,
                ),
            decreases self.paths.len() - i,
        {
            if self.paths[i] == wanted {
                return Some(i);
            }
            i += 1;
        }
        None
    }

    /// Notes at the time `at` that the file at `file_path` has failed: one
    /// failure more, and a fifth of the stability less, as far as there is
    /// any.
    pub fn mark_failure_at(&mut self, file_path: &str, at: u64)
        requires
            old(self).wf(),
        ensures
            final(self).wf(),
            final(self).dirty,
            final(self).knows(file_path@),
            final(self).history(file_path@).last_failure_timestamp == Some(at),
            final(self).history(file_path@).failure_count == if old(self).knows(file_path@) {
                if old(self).history(file_path@).failure_count < usize::MAX {
                    (old(self).history(file_path@).failure_count + 1) as usize
                } else {
                    usize::MAX
                }
            } else {
                1usize
            },
            final(self).history(file_path@).stability_score == if old(self).knows(file_path@)
                && old(self).history(file_path@).stability_score >= 20 {
                (old(self).history(file_path@).stability_score - 20) as u64
            } else {
                0u64
            },
            final(self).history(file_path@).last_action_timestamp == if old(self).knows(
                file_path@,
            ) {
                old(self).history(file_path@).last_action_timestamp
            } else {
                0u64
            },
            forall|other: Seq<char>|
                other != file_path@ ==> final(self).knows(other) == old(self).knows(other) && (
                old(self).knows(other) ==> final(self).history(other) == old(self).history(other)),
    {
        let found = self.position(file_path);
        let i = match found {
            Some(i) => i,
            None => {
                self.paths.push(file_path.to_owned());
                self.histories.push(FileHistory::default());
                self.paths.len() - 1
            },
        };
        proof {
            lemma_history_index_bounds(old(self).paths@, file_path@, 0);
            if found is None {
                lemma_history_index_pushed(
                    old(self).paths@,
                    self.paths@[self.paths@.len() - 1],
                    file_path@,
                    0,
                );
                assert(self.paths@ =~= old(self).paths@.push(self.paths@[self.paths@.len() - 1]));
            }
        }
        let ghost mid_paths = self.paths@;
        let ghost mid_histories = self.histories@;
        let mut h = self.histories.remove(i);
        h.failure_count = if h.failure_count < usize::MAX {
            h.failure_count + 1
        } else {
            h.failure_count
        };
        h.last_failure_timestamp = Some(at);
        h.stability_score = if h.stability_score >= 20 {
            h.stability_score - 20
        } else {
            0
        };
        self.histories.insert(i, h);
        self.dirty = true;
        proof {
            assert forall|other: Seq<char>| other != file_path@ implies final(self).knows(other)
                == old(self).knows(other) && (old(self).knows(other) ==> final(self).history(
                other,
            ) == old(self).history(other)) by {
                lemma_history_index_bounds(old(self).paths@, other, 0);
                if found is None {
                    lemma_history_index_pushed(
                        old(self).paths@,
                        mid_paths[mid_paths.len() - 1],
                        other,
                        0,
                    );
                }
                let j = history_index(old(self).paths@, other, 0);
                if j >= 0 {
                    assert(j != i);
                    assert(mid_histories[j] == old(self).histories@[j]);
                }
            }
        }
    }

    /// Notes that the file at `file_path` has failed now. Whatever the time
    /// is, the file has one failure more and a fifth of its stability less,
    /// and nothing changes for other files.
    pub fn mark_failure(&mut self, file_path: &str)
        requires
            old(self).wf(),
        ensures
            final(self).wf(),
            final(self).dirty,
            final(self).knows(file_path@),
            final(self).history(file_path@).last_failure_timestamp is Some,
            final(self).history(file_path@).failure_count == if old(self).knows(file_path@) {
                if old(self).history(file_path@).failure_count < usize::MAX {
                    (old(self).history(file_path@).failure_count + 1) as usize
                } else {
                    usize::MAX
                }
            } else {
                1usize
            },
            final(self).history(file_path@).stability_score == if old(self).knows(file_path@)
                && old(self).history(file_path@).stability_score >= 20 {
                (old(self).history(file_path@).stability_score - 20) as u64
            } else {
                0u64
            },
            forall|other: Seq<char>|
                other != file_path@ ==> final(self).knows(other) == old(self).knows(other) && (
                old(self).knows(other) ==> final(self).history(other) == old(self).history(other)),
    {
        let at = now();
        self.mark_failure_at(file_path, at);
    }

    /// Notes at the time `at` that `action` was taken on the file at
    /// `file_path`; its stability goes back to one half.
    pub fn record_action_at(&mut self, file_path: &str, action: &str, at: u64)
        requires
            old(self).wf(),
        ensures
            final(self).wf(),
            final(self).dirty,
            final(self).knows(file_path@),
            final(self).history(file_path@).last_action_timestamp == at,
            final(self).history(file_path@).stability_score == 50,
            final(self).history(file_path@).last_action is Some,
            final(self).history(file_path@).last_action->Some_0@ == action@,
            final(self).history(file_path@).failure_count == if old(self).knows(file_path@) {
                old(self).history(file_path@).failure_count
            } else {
                0usize
            },
            forall|other: Seq<char>|
                other != file_path@ ==> final(self).knows(other) == old(self).knows(other) && (
                old(self).knows(other) ==> final(self).history(other) == old(self).history(other)),
    {
        let found = self.position(file_path);
        let i = match found {
            Some(i) => i,
            None => {
                self.paths.push(file_path.to_owned());
                self.histories.push(FileHistory::default());
                self.paths.len() - 1
            },
        };
        proof {
            lemma_history_index_bounds(old(self).paths@, file_path@, 0);
            if found is None {
                lemma_history_index_pushed(
                    old(self).paths@,
                    self.paths@[self.paths@.len() - 1],
                    file_path@,
                    0,
                );
                assert(self.paths@ =~= old(self).paths@.push(self.paths@[self.paths@.len() - 1]));
            }
        }
        let ghost mid_paths = self.paths@;
        let ghost mid_histories = self.histories@;
        let mut h = self.histories.remove(i);
        h.last_action = Some(action.to_owned());
        h.last_action_timestamp = at;
        h.stability_score = 50;
        self.histories.insert(i, h);
        self.dirty = true;
        proof {
            assert forall|other: Seq<char>| other != file_path@ implies final(self).knows(other)
                == old(self).knows(other) && (old(self).knows(other) ==> final(self).history(
                other,
            ) == old(self).history(other)) by {
                lemma_history_index_bounds(old(self).paths@, other, 0);
                if found is None {
                    lemma_history_index_pushed(
                        old(self).paths@,
                        mid_paths[mid_paths.len() - 1],
                        other,
                        0,
                    );
                }
                let j = history_index(old(self).paths@, other, 0);
                if j >= 0 {
                    assert(j != i);
                    assert(mid_histories[j] == old(self).histories@[j]);
                }
            }
        }
    }

    /// Notes that `action` was taken now on the file at `file_path`. Whatever
    /// the time is, the action is noted, the stability of the file goes back
    /// to one half, and nothing changes for other files.
    pub fn record_action(&mut self, file_path: &str, action: &str)
        requires
            old(self).wf(),
        ensures
            final(self).wf(),
            final(self).dirty,
            final(self).knows(file_path@),
            final(self).history(file_path@).stability_score == 50,
            final(self).history(file_path@).last_action is Some,
            final(self).history(file_path@).last_action->Some_0@ == action@,
            final(self).history(file_path@).failure_count == if old(self).knows(file_path@) {
                old(self).history(file_path@).failure_count
            } else {
                0usize
            },
            forall|other: Seq<char>|
                other != file_path@ ==> final(self).knows(other) == old(self).knows(other) && (
                old(self).knows(other) ==> final(self).history(other) == old(self).history(other)),
    {
        let at = now();
        self.record_action_at(file_path, action, at);
    }

    /// The file has failed within the day before `at`.
    pub open spec fn failed_lately(&self, path: Seq<char>, at: u64) -> bool {
        self.knows(path) && match self.history(path).last_failure_timestamp {
            Some(ts) => at < ts || at - ts < DAY,
            None => false,
        }
    }

    /// The factor on the drag of a file at the time `at`, in hundredths: one
    /// and a half where the file has failed within the last day, else one.
    pub fn get_drag_multiplier_at(&self, file_path: &str, at: u64) -> (m: u64)
        requires
            self.wf(),
        ensures
            m == if self.failed_lately(file_path@, at) {
                150u64
            } else {
                100u64
            },
    {
        match self.position(file_path) {
            Some(i) => {
                match self.histories[i].last_failure_timestamp {
                    Some(ts) => {
                        if at < ts || at - ts < DAY {
                            150
                        } else {
                            100
                        }
                    },
                    None => 100,
                }
            },
            None => 100,
        }
    }

    /// The factor on the drag of a file now, in hundredths: that of
    /// `get_drag_multiplier_at` for the time that the clock gives. It is one
    /// and a half or one, and one for a file that has never failed.
    pub fn get_drag_multiplier(&self, file_path: &str) -> (m: u64)
        requires
            self.wf(),
        ensures
            exists|at: u64| (m == 150) == #[trigger] self.failed_lately(file_path@, at),
            m == 100 || m == 150,
            !self.knows(file_path@) || self.history(file_path@).last_failure_timestamp is None
                ==> m == 100,
    {
        let at = now();
        let m = self.get_drag_multiplier_at(file_path, at);
        assert((m == 150) == self.failed_lately(file_path@, at));
        m
    }

    /// An action was taken on the path within the hour before `at`.
    pub open spec fn acted_lately(&self, path: Seq<char>, at: u64) -> bool {
        self.knows(path) && (at < self.history(path).last_action_timestamp || at - self.history(
            path,
        ).last_action_timestamp < HOUR)
    }

    /// Whether the path is locked at the time `at`: whether an action was
    /// taken on it within the last hour.
    pub fn is_locked_at(&self, file_path: &str, at: u64) -> (b: bool)
        requires
            self.wf(),
        ensures
            b == self.acted_lately(file_path@, at),
    {
        match self.position(file_path) {
            Some(i) => {
                let ts = self.histories[i].last_action_timestamp;
                at < ts || at - ts < HOUR
            },
            None => false,
        }
    }

    /// Whether the path is locked now: the answer of `is_locked_at` for the
    /// time that the clock gives. A path of which nothing is remembered is
    /// never locked.
    pub fn is_locked(&self, file_path: &str) -> (b: bool)
        requires
            self.wf(),
        ensures
            exists|at: u64| b == #[trigger] self.acted_lately(file_path@, at),
            b ==> self.knows(file_path@),
    {
        let at = now();
        let b = self.is_locked_at(file_path, at);
        assert(b == self.acted_lately(file_path@, at));
        b
    }

    /// The paths among the first `upto` of `dirs` that are locked at `at`.
    pub open spec fn locked_of(&self, dirs: Seq<Seq<char>>, at: u64, upto: int) -> Seq<Seq<char>>
        decreases upto,
    {
        if upto <= 0 {
            Seq::empty()
        } else if self.acted_lately(dirs[upto - 1], at) {
            self.locked_of(dirs, at, upto - 1).push(dirs[upto - 1])
        } else {
            self.locked_of(dirs, at, upto - 1)
        }
    }

    /// The paths among `dirs` that are locked now.
    pub fn locked_now(&self, dirs: &Vec<String>) -> (r: Vec<String>)
        requires
            self.wf(),
        ensures
            exists|at: u64| strs(r@) == #[trigger] self.locked_of(strs(dirs@), at, dirs@.len() as int),
    {
        let at = now();
        self.locked_among(dirs, at)
    }

    /// The paths among `dirs` that are locked at the time `at`.
    pub fn locked_among(&self, dirs: &Vec<String>, at: u64) -> (r: Vec<String>)
        requires
            self.wf(),
        ensures
            strs(r@) == self.locked_of(strs(dirs@), at, dirs@.len() as int),
    {
        let mut out: Vec<String> = Vec::new();
        let mut i: usize = 0;
        assert(strs(out@) =~= self.locked_of(strs(dirs@), at, 0));
        while i < dirs.len()
            invariant
                i <= dirs.len(),
                self.wf(),
                strs(out@) == self.locked_of(strs(dirs@), at, i as int),
            decreases dirs.len() - i,
        {
            if self.is_locked_at(dirs[i].as_str(), at) {
                let item = dirs[i].clone();
                proof {
                    lemma_strs_push(out@, item);
                }
                out.push(item);
            }
            i += 1;
        }
        out
    }
}

pub proof fn lemma_history_index_bounds(paths: Seq<String>, path: Seq<char>, from: int)
    requires
        0 <= from,
    ensures
        history_index(paths, path, from) == -1 || (from <= history_index(paths, path, from)
            < paths.len() && paths[history_index(paths, path, from)]@ == path),
    decreases paths.len() - from,
{
    if from < paths.len() && paths[from]@ != path {
        lemma_history_index_bounds(paths, path, from + 1);
    }
}

pub proof fn lemma_history_index_pushed(paths: Seq<String>, extra: String, path: Seq<char>, from: int)
    requires
        0 <= from <= paths.len(),
    ensures
        history_index(paths.push(extra), path, from) == if history_index(paths, path, from) >= 0 {
            history_index(paths, path, from)
        } else if extra@ == path {
            paths.len() as int
        } else {
            -1
        },
    decreases paths.len() - from,
{
    let longer = paths.push(extra);
    if from < paths.len() {
        assert(longer[from] == paths[from]);
        if paths[from]@ != path {
            lemma_history_index_pushed(paths, extra, path, from + 1);
        }
    } else {
        assert(longer[from] == extra);
        assert(history_index(longer, path, from + 1) == -1);
    }
}

} // verus!
