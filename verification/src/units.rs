//! Work units: what the planner asks for.

use crate::text::{contains_seq, str_contains, strs, to_chars, to_string};
use vstd::prelude::*;

verus! {

/// One piece of refactoring work. `complexity` is carried in hundredths.
#[derive(Debug)]
pub enum WorkUnit {
    Ambiguity { file: String, strategy: String },
    Violation { file: String, pattern: String, strategy: String },
    Surgical {
        file: String,
        action: String,
        reason: String,
        strategy: String,
        platform: String,
        complexity: u64,
    },
    Merge { folder: String, files: Vec<String>, reason: String, strategy: String, platform: String },
    Structure { file: String, action: String, reason: String, strategy: String, platform: String },
}

/// A `WorkUnit` with its texts as sequences of characters.
pub enum UnitView {
    Ambiguity { file: Seq<char>, strategy: Seq<char> },
    Violation { file: Seq<char>, pattern: Seq<char>, strategy: Seq<char> },
    Surgical {
        file: Seq<char>,
        action: Seq<char>,
        reason: Seq<char>,
        strategy: Seq<char>,
        platform: Seq<char>,
        complexity: nat,
    },
    Merge {
        folder: Seq<char>,
        files: Seq<Seq<char>>,
        reason: Seq<char>,
        strategy: Seq<char>,
        platform: Seq<char>,
    },
    Structure {
        file: Seq<char>,
        action: Seq<char>,
        reason: Seq<char>,
        strategy: Seq<char>,
        platform: Seq<char>,
    },
}

impl View for WorkUnit {
    type V = UnitView;

    open spec fn view(&self) -> UnitView {
        match self {
            WorkUnit::Ambiguity { file, strategy } => UnitView::Ambiguity {
                file: file@,
                strategy: strategy@,
            },
            WorkUnit::Violation { file, pattern, strategy } => UnitView::Violation {
                file: file@,
                pattern: pattern@,
                strategy: strategy@,
            },
            WorkUnit::Surgical {
                file,
                action,
                reason,
                strategy,
                platform,
                complexity,
            } => UnitView::Surgical {
                file: file@,
                action: action@,
                reason: reason@,
                strategy: strategy@,
                platform: platform@,
                complexity: *complexity as nat,
            },
            WorkUnit::Merge { folder, files, reason, strategy, platform } => UnitView::Merge {
                folder: folder@,
                files: strs(files@),
                reason: reason@,
                strategy: strategy@,
                platform: platform@,
            },
            WorkUnit::Structure {
                file,
                action,
                reason,
                strategy,
                platform,
            } => UnitView::Structure {
                file: file@,
                action: action@,
                reason: reason@,
                strategy: strategy@,
                platform: platform@,
            },
        }
    }
}

/// The views of a list of work units.
pub open spec fn unit_views(units: Seq<WorkUnit>) -> Seq<UnitView> {
    Seq::new(units.len(), |i: int| units[i]@)
}

pub proof fn lemma_unit_views_push(units: Seq<WorkUnit>, u: WorkUnit)
    ensures
        unit_views(units.push(u)) == unit_views(units).push(u@),
{
    assert(unit_views(units.push(u)) =~= unit_views(units).push(u@));
}

/// The directive that goes with a unit: how to go about the work.
pub open spec fn directive_of(unit: UnitView) -> Seq<char> {
    match unit {
        UnitView::Surgical { reason, .. } => {
            if contains_seq(reason, "Nesting"@) && contains_seq(reason, "Density"@) {
                "Decompose & Flatten: Use guard clauses to reduce nesting and extract dense logic into private helper functions."@
            } else if contains_seq(reason, "Nesting"@) {
                "Flatten Control Flow: Replace nested if/switch blocks with early returns or pattern matching."@
            } else if contains_seq(reason, "Density"@) {
                "Extract Service Logic: Move complex calculations or data transformations into specialized sub-modules."@
            } else {
                "De-bloat: Reduce module size by identifying and extracting independent domain logic."@
            }
        },
        UnitView::Merge { .. } => {
            "Unified Context: Consolidate these fragmented files into a single cohesive module to reduce token overhead during analysis."@
        },
        UnitView::Structure { action, .. } => {
            if contains_seq(action, "Flatten"@) {
                "Hierarchy Cleanup: Move these modules 1-2 levels higher to reduce the directory traversal tax."@
            } else {
                "Vertical Slicing: Group related UI and Logic files into a single 'Feature Pod' folder."@
            }
        },
        UnitView::Violation { pattern, .. } => {
            "Pattern Fix: Replace the forbidden '"@ + pattern
                + "' pattern with the recommended functional alternative (Logger, Result/Option, etc)."@
        },
        UnitView::Ambiguity { .. } => {
            "Taxonomy Resolution: Add the required @efficiency-role: <role> tag (including colon) to help the analyzer apply the correct complexity limits."@
        },
    }
}

/// The directive that goes with a unit.
pub fn generate_strategic_directive(unit: &WorkUnit) -> (s: String)
    ensures
        s@ == directive_of(unit@),
{
    match unit {
        WorkUnit::Surgical { reason, .. } => {
            let nesting = str_contains(reason.as_str(), "Nesting");
            let density = str_contains(reason.as_str(), "Density");
            if nesting && density {
                "Decompose & Flatten: Use guard clauses to reduce nesting and extract dense logic into private helper functions.".to_owned()
            } else if nesting {
                "Flatten Control Flow: Replace nested if/switch blocks with early returns or pattern matching.".to_owned()
            } else if density {
                "Extract Service Logic: Move complex calculations or data transformations into specialized sub-modules.".to_owned()
            } else {
                "De-bloat: Reduce module size by identifying and extracting independent domain logic.".to_owned()
            }
        },
        WorkUnit::Merge { .. } => {
            "Unified Context: Consolidate these fragmented files into a single cohesive module to reduce token overhead during analysis.".to_owned()
        },
        WorkUnit::Structure { action, .. } => {
            if str_contains(action.as_str(), "Flatten") {
                "Hierarchy Cleanup: Move these modules 1-2 levels higher to reduce the directory traversal tax.".to_owned()
            } else {
                "Vertical Slicing: Group related UI and Logic files into a single 'Feature Pod' folder.".to_owned()
            }
        },
        WorkUnit::Violation { pattern, .. } => {
            let mut out = crate::text::to_chars("Pattern Fix: Replace the forbidden '");
            crate::text::append_string(&mut out, pattern);
            crate::text::append_str(
                &mut out,
                "' pattern with the recommended functional alternative (Logger, Result/Option, etc).",
            );
            crate::text::to_string(&out)
        },
        WorkUnit::Ambiguity { .. } => {
            "Taxonomy Resolution: Add the required @efficiency-role: <role> tag (including colon) to help the analyzer apply the correct complexity limits.".to_owned()
        },
    }
}

/// Where a unit is filed: under `system` if it is about more than one file
/// or about a role, else under the driver of its file.
pub open spec fn bucket_of(unit: UnitView, driver: Seq<char>) -> Seq<char> {
    match unit {
        UnitView::Surgical { .. } => driver,
        UnitView::Violation { .. } => driver,
        _ => "system"@,
    }
}

/// The index of the first of `names` at or after `from` that is `name`, or
/// -1.
pub open spec fn bucket_index(names: Seq<String>, name: Seq<char>, from: int) -> int
    decreases names.len() - from,
{
    if from < 0 || from >= names.len() {
        -1
    } else if names[from]@ == name {
        from
    } else {
        bucket_index(names, name, from + 1)
    }
}

/// The units of a run, filed by driver, in the order in which the drivers
/// first came up.
pub struct Buffer {
    pub names: Vec<String>,
    pub units: Vec<Vec<WorkUnit>>,
}

impl Buffer {
    /// Every name has its units.
    pub open spec fn wf(&self) -> bool {
        self.names@.len() == self.units@.len()
    }

    /// The units filed under `name`.
    pub open spec fn filed(&self, name: Seq<char>) -> Seq<UnitView> {
        let i = bucket_index(self.names@, name, 0);
        if 0 <= i < self.units@.len() {
            unit_views(self.units@[i]@)
        } else {
            Seq::empty()
        }
    }

    pub fn new() -> (b: Buffer)
        ensures
            b.wf(),
            b.names@.len() == 0,
    {
        Buffer { names: Vec::new(), units: Vec::new() }
    }

    /// Files `unit`, which is about a file of `driver`.
    pub fn file(&mut self, driver: &str, unit: WorkUnit)
        requires
            old(self).wf(),
        ensures
            final(self).wf(),
            final(self).filed(bucket_of(unit@, driver@)) == old(self).filed(
                bucket_of(unit@, driver@),
            ).push(unit@),
            old(self).names@.len() <= final(self).names@.len(),
            forall|i: int|
                0 <= i < old(self).names@.len() ==> (#[trigger] final(self).names@[i])
                    == old(self).names@[i],
            forall|i: int|
                0 <= i < old(self).names@.len() && old(self).names@[i]@ != bucket_of(
                    unit@,
                    driver@,
                ) ==> (#[trigger] final(self).units@[i]) == old(self).units@[i],
    {
        let name: String = match &unit {
            WorkUnit::Surgical { .. } => driver.to_owned(),
            WorkUnit::Violation { .. } => driver.to_owned(),
            _ => "system".to_owned(),
        };
        let mut i: usize = 0;
        while i < self.names.len() && !(self.names[i] == name)
            invariant
                i <= self.names.len(),
                self.wf(),
                self.names@ == old(self).names@,
                self.units@ == old(self).units@,
                bucket_index(self.names@, name@, i as int) == bucket_index(self.names@, name@, 0),
            decreases self.names.len() - i,
        {
            i += 1;
        }
        if i == self.names.len() {
            proof {
                lemma_bucket_pushed(self.names@, name, name@, 0);
            }
            self.names.push(name);
            self.units.push(Vec::new());
            assert(unit_views(self.units@[i as int]@) =~= Seq::<UnitView>::empty());
        }
        let ghost mid = self.names@;
        let mut row = self.units.remove(i);
        proof {
            lemma_unit_views_push(row@, unit);
        }
        row.push(unit);
        self.units.insert(i, row);
    }
}

pub proof fn lemma_bucket_pushed(names: Seq<String>, extra: String, name: Seq<char>, from: int)
    requires
        0 <= from <= names.len(),
    ensures
        bucket_index(names.push(extra), name, from) == if bucket_index(names, name, from) >= 0 {
            bucket_index(names, name, from)
        } else if extra@ == name {
            names.len() as int
        } else {
            -1
        },
    decreases names.len() - from,
{
    let longer = names.push(extra);
    if from < names.len() {
        assert(longer[from] == names[from]);
        if names[from]@ != name {
            lemma_bucket_pushed(names, extra, name, from + 1);
        }
    } else {
        assert(longer[from] == extra);
        assert(bucket_index(longer, name, from + 1) == -1);
    }
}

} // verus!
