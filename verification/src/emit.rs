//! What a run writes down: the plan of each driver and the task files, as
//! texts. Writing them to disk is left to the caller.

use crate::order::{
    lemma_sort_order_free, lemma_sort_unique, lemma_strictly_sorted_same, sort_all, sort_dedup,
    sort_texts, sort_unique,
};
use crate::paths::{join, join_of, parent, parent_of};

use crate::text::{
    append, append_number, append_str, append_string, contains, contains_seq, decimal,
    ends_with, ends_with_seq, extend_texts, find_from, find_spec, lemma_find_spec, push_text,
    same_text, slice, strs, to_chars, to_string, uppercase, uppercase_of, views,
};
use crate::units::{directive_of, generate_strategic_directive, unit_views, UnitView, WorkUnit};
use vstd::prelude::*;

verus! {

/// The entry of a unit in the ambiguity section of a plan; empty for other
/// units.
pub open spec fn ambiguity_entry(u: UnitView) -> Seq<char> {
    match u {
        UnitView::Ambiguity { file, .. } => "- [ ] `"@ + file + "`\n"@,
        _ => Seq::empty(),
    }
}

/// The entry of a unit in the surgical section of a plan.
pub open spec fn surgical_entry(u: UnitView) -> Seq<char> {
    match u {
        UnitView::Surgical { file, reason, .. } => "- [ ] **"@ + file + "**\n  - *Reason:* "@
            + reason + "\n"@,
        _ => Seq::empty(),
    }
}

/// The entry of a unit in the structural section of a plan.
pub open spec fn structural_entry(u: UnitView) -> Seq<char> {
    match u {
        UnitView::Structure { file, action, reason, .. } => "- [ ] **"@ + file
            + "** (Action: "@ + action + ")\n  - *Reason:* "@ + reason + "\n"@,
        _ => Seq::empty(),
    }
}

/// The lines that list the first `upto` files of a merge, each below the
/// folder.
pub open spec fn merge_files(folder: Seq<char>, files: Seq<Seq<char>>, upto: int) -> Seq<char>
    decreases upto,
{
    if upto <= 0 {
        Seq::empty()
    } else {
        merge_files(folder, files, upto - 1) + "  - `"@ + join_of(folder, files[upto - 1])
            + "`\n"@
    }
}

/// The entry of a unit in the merge section of a plan.
pub open spec fn merge_entry(u: UnitView) -> Seq<char> {
    match u {
        UnitView::Merge { folder, files, reason, .. } => "### Merge Folder: `"@ + folder
            + "`\n- **Reason:** "@ + reason + "\n- **Files:**\n"@ + merge_files(
            folder,
            files,
            files.len() as int,
        ),
        _ => Seq::empty(),
    }
}

/// The sections of a plan, in their order.
pub enum Section {
    Ambiguity,
    Surgical,
    Structure,
    Merge,
}

/// Whether the unit belongs in the section.
pub open spec fn in_section(u: UnitView, s: Section) -> bool {
    match s {
        Section::Ambiguity => u is Ambiguity,
        Section::Surgical => u is Surgical,
        Section::Structure => u is Structure,
        Section::Merge => u is Merge,
    }
}

pub open spec fn entry_of(u: UnitView, s: Section) -> Seq<char> {
    match s {
        Section::Ambiguity => ambiguity_entry(u),
        Section::Surgical => surgical_entry(u),
        Section::Structure => structural_entry(u),
        Section::Merge => merge_entry(u),
    }
}

/// The entries of the first `upto` units that belong in the section, in the
/// order of the units.
pub open spec fn section_list(units: Seq<UnitView>, s: Section, upto: int) -> Seq<Seq<char>>
    decreases upto,
{
    if upto <= 0 {
        Seq::empty()
    } else if in_section(units[upto - 1], s) {
        section_list(units, s, upto - 1).push(entry_of(units[upto - 1], s))
    } else {
        section_list(units, s, upto - 1)
    }
}

/// The first `upto` texts, one after the other.
pub open spec fn joined(texts: Seq<Seq<char>>, upto: int) -> Seq<char>
    decreases upto,
{
    if upto <= 0 {
        Seq::empty()
    } else {
        joined(texts, upto - 1) + texts[upto - 1]
    }
}

/// The entries of a section as they are written: sorted, whatever the order
/// of the units.
pub open spec fn section_entries(units: Seq<UnitView>, s: Section) -> Seq<char> {
    let list = section_list(units, s, units.len() as int);
    joined(sort_all(list, list.len() as int), list.len() as int)
}

pub open spec fn section_title(s: Section) -> Seq<char> {
    match s {
        Section::Ambiguity => "## ⚠️ PRECURSOR: AMBIGUITY RESOLUTION ("@,
        Section::Surgical => "## 🛠️ SURGICAL REFACTOR TASKS ("@,
        Section::Structure => "## 🏗️ STRUCTURAL REFACTOR TASKS ("@,
        Section::Merge => "## 🧩 MERGE TASKS ("@,
    }
}

/// A section of a plan: its title with the number of its entries, the
/// entries, and a rule below all sections but the last. A section without
/// entries is left out.
pub open spec fn section_text(units: Seq<UnitView>, s: Section) -> Seq<char> {
    let n = section_list(units, s, units.len() as int).len();
    if n == 0 {
        Seq::empty()
    } else {
        section_title(s) + decimal(n) + ")\n"@ + section_entries(units, s) + (if s is Merge {
            Seq::empty()
        } else {
            "\n---\n\n"@
        })
    }
}

/// The plan of a driver: a heading, the legend, and the sections for
/// ambiguities, surgery, structure and merges.
pub open spec fn plan_text(driver: Seq<char>, legend: Seq<char>, units: Seq<UnitView>) -> Seq<
    char,
> {
    "# "@ + uppercase_of(driver) + " MASTER PLAN\n"@ + legend + section_text(
        units,
        Section::Ambiguity,
    ) + section_text(units, Section::Surgical) + section_text(units, Section::Structure)
        + section_text(units, Section::Merge)
}

/// The name of the file that holds the plan of a driver.
pub open spec fn plan_name(driver: Seq<char>) -> Seq<char> {
    uppercase_of(driver) + "_PLAN.md"@
}

fn belongs(u: &WorkUnit, s: &Section) -> (b: bool)
    ensures
        b == in_section(u@, *s),
{
    match s {
        Section::Ambiguity => match u {
            WorkUnit::Ambiguity { .. } => true,
            _ => false,
        },
        Section::Surgical => match u {
            WorkUnit::Surgical { .. } => true,
            _ => false,
        },
        Section::Structure => match u {
            WorkUnit::Structure { .. } => true,
            _ => false,
        },
        Section::Merge => match u {
            WorkUnit::Merge { .. } => true,
            _ => false,
        },
    }
}

fn entry_text(u: &WorkUnit, s: &Section) -> (r: Vec<char>)
    requires
        in_section(u@, *s),
    ensures
        r@ == entry_of(u@, *s),
{
    let mut out: Vec<char> = Vec::new();
    match u {
        WorkUnit::Ambiguity { file, .. } => {
            append_str(&mut out, "- [ ] `");
            append_string(&mut out, file);
            append_str(&mut out, "`\n");
            assert(out@ =~= entry_of(u@, *s));
        },
        WorkUnit::Surgical { file, reason, .. } => {
            append_str(&mut out, "- [ ] **");
            append_string(&mut out, file);
            append_str(&mut out, "**\n  - *Reason:* ");
            append_string(&mut out, reason);
            append_str(&mut out, "\n");
            assert(out@ =~= entry_of(u@, *s));
        },
        WorkUnit::Structure { file, action, reason, .. } => {
            append_str(&mut out, "- [ ] **");
            append_string(&mut out, file);
            append_str(&mut out, "** (Action: ");
            append_string(&mut out, action);
            append_str(&mut out, ")\n  - *Reason:* ");
            append_string(&mut out, reason);
            append_str(&mut out, "\n");
            assert(out@ =~= entry_of(u@, *s));
        },
        WorkUnit::Merge { folder, files, reason, .. } => {
            append_str(&mut out, "### Merge Folder: `");
            append_string(&mut out, folder);
            append_str(&mut out, "`\n- **Reason:** ");
            append_string(&mut out, reason);
            append_str(&mut out, "\n- **Files:**\n");
            let ghost head = out@;
            let base = to_chars(folder.as_str());
            let mut i: usize = 0;
            assert(out@ =~= head + merge_files(folder@, strs(files@), 0));
            while i < files.len()
                invariant
                    i <= files.len(),
                    base@ == folder@,
                    out@ == head + merge_files(folder@, strs(files@), i as int),
                decreases files.len() - i,
            {
                let ghost before = out@;
                append_str(&mut out, "  - `");
                append(&mut out, &join(&base, &to_chars(files[i].as_str())));
                append_str(&mut out, "`\n");
                assert(out@ =~= head + (merge_files(folder@, strs(files@), i as int) + "  - `"@
                    + join_of(folder@, strs(files@)[i as int]) + "`\n"@));
                i += 1;
            }
            assert(out@ =~= entry_of(u@, *s));
        },
        WorkUnit::Violation { .. } => {},
    }
    out
}

fn section(units: &Vec<WorkUnit>, s: Section) -> (r: Vec<char>)
    ensures
        r@ == section_text(unit_views(units@), s),
{
    let ghost all = unit_views(units@);
    let mut list: Vec<Vec<char>> = Vec::new();
    let mut i: usize = 0;
    assert(views(list@) =~= section_list(all, s, 0));
    while i < units.len()
        invariant
            i <= units.len(),
            all == unit_views(units@),
            views(list@) == section_list(all, s, i as int),
        decreases units.len() - i,
    {
        assert(all[i as int] == units@[i as int]@);
        if belongs(&units[i], &s) {
            let e = entry_text(&units[i], &s);
            push_text(&mut list, e);
        }
        i += 1;
    }
    let n = list.len();
    assert(n == views(list@).len());
    let ordered = sort_texts(&list);
    let ghost texts = views(ordered@);
    let mut entries: Vec<char> = Vec::new();
    let mut k: usize = 0;
    assert(entries@ =~= joined(texts, 0));
    while k < ordered.len()
        invariant
            k <= ordered.len(),
            texts == views(ordered@),
            entries@ == joined(texts, k as int),
        decreases ordered.len() - k,
    {
        assert(texts[k as int] == ordered@[k as int]@);
        append(&mut entries, &ordered[k]);
        k += 1;
    }
    assert(entries@ == section_entries(all, s));
    let mut out: Vec<char> = Vec::new();
    if n > 0 {
        match s {
            Section::Ambiguity => {
                append_str(&mut out, "## ⚠️ PRECURSOR: AMBIGUITY RESOLUTION (");
            },
            Section::Surgical => {
                append_str(&mut out, "## 🛠️ SURGICAL REFACTOR TASKS (");
            },
            Section::Structure => {
                append_str(&mut out, "## 🏗️ STRUCTURAL REFACTOR TASKS (");
            },
            Section::Merge => {
                append_str(&mut out, "## 🧩 MERGE TASKS (");
            },
        }
        append_number(&mut out, n);
        append_str(&mut out, ")\n");
        append(&mut out, &entries);
        match s {
            Section::Merge => {},
            _ => {
                append_str(&mut out, "\n---\n\n");
            },
        }
        assert(out@ =~= section_text(all, s));
    }
    out
}

/// A text to be written to a file of the given name.
pub struct Document {
    pub name: String,
    pub body: String,
}

/// The plan of a driver with these units; nothing where there are no units.
pub fn render_plan(driver: &str, legend: &str, units: &Vec<WorkUnit>) -> (r: Option<Document>)
    ensures
        units@.len() == 0 ==> r is None,
        units@.len() > 0 ==> r is Some && r->Some_0.name@ == plan_name(driver@)
            && r->Some_0.body@ == plan_text(driver@, legend@, unit_views(units@)),
{
    if units.len() == 0 {
        return None;
    }
    let upper = uppercase(driver);
    let mut name = to_chars(upper.as_str());
    append_str(&mut name, "_PLAN.md");
    let mut body = to_chars("# ");
    append_string(&mut body, &upper);
    append_str(&mut body, " MASTER PLAN\n");
    append_str(&mut body, legend);
    append(&mut body, &section(units, Section::Ambiguity));
    append(&mut body, &section(units, Section::Surgical));
    append(&mut body, &section(units, Section::Structure));
    append(&mut body, &section(units, Section::Merge));
    Some(Document { name: to_string(&name), body: to_string(&body) })
}

/// A line of a task file before it is grouped: the action it belongs to,
/// the directive that goes with it, and its text.
pub struct Row {
    pub key: Vec<char>,
    pub directive: Vec<char>,
    pub entry: Vec<char>,
}

pub struct RowView {
    pub key: Seq<char>,
    pub directive: Seq<char>,
    pub entry: Seq<char>,
}

impl View for Row {
    type V = RowView;

    open spec fn view(&self) -> RowView {
        RowView { key: self.key@, directive: self.directive@, entry: self.entry@ }
    }
}

pub open spec fn row_views(rows: Seq<Row>) -> Seq<RowView> {
    Seq::new(rows.len(), |i: int| rows[i]@)
}

/// The heading of a group of lines.
pub open spec fn group_header(key: Seq<char>, directive: Seq<char>) -> Seq<char> {
    "\n### 🔧 Action: "@ + key + "\n**Directive:** "@ + directive + "\n"@
}

/// The heading under which a row stands: that of its action and directive.
pub open spec fn head_of(row: RowView) -> Seq<char> {
    group_header(row.key, row.directive)
}

pub open spec fn row_heads(rows: Seq<RowView>) -> Seq<Seq<char>> {
    Seq::new(rows.len(), |i: int| head_of(rows[i]))
}

/// The texts of the first `upto` rows that stand under `head`.
pub open spec fn entries_with(rows: Seq<RowView>, head: Seq<char>, upto: int) -> Seq<Seq<char>>
    decreases upto,
{
    if upto <= 0 {
        Seq::empty()
    } else if head_of(rows[upto - 1]) == head {
        entries_with(rows, head, upto - 1).push(rows[upto - 1].entry)
    } else {
        entries_with(rows, head, upto - 1)
    }
}

/// The lines of the first `upto` of `heads`: each heading, and below it the
/// texts of its rows, sorted.
pub open spec fn group_lines(rows: Seq<RowView>, heads: Seq<Seq<char>>, upto: int) -> Seq<
    Seq<char>,
>
    decreases upto,
{
    if upto <= 0 {
        Seq::empty()
    } else {
        let head = heads[upto - 1];
        let entries = entries_with(rows, head, rows.len() as int);
        group_lines(rows, heads, upto - 1).push(head) + sort_all(entries, entries.len() as int)
    }
}

/// The lines of a task, grouped by action and directive: the headings
/// sorted, each written once, and the lines of each sorted below it. The
/// order of the rows makes no difference.
pub open spec fn grouped_lines(rows: Seq<RowView>) -> Seq<Seq<char>> {
    let heads = sort_unique(row_heads(rows), rows.len() as int);
    group_lines(rows, heads, heads.len() as int)
}

fn head_text(row: &Row) -> (r: Vec<char>)
    ensures
        r@ == head_of(row@),
{
    let mut head = to_chars("\n### 🔧 Action: ");
    append(&mut head, &row.key);
    append_str(&mut head, "\n**Directive:** ");
    append(&mut head, &row.directive);
    append_str(&mut head, "\n");
    assert(head@ =~= group_header(row.key@, row.directive@));
    head
}

/// The lines of a task, grouped by action and directive.
pub fn format_groups(rows: &Vec<Row>) -> (lines: Vec<Vec<char>>)
    ensures
        views(lines@) == grouped_lines(row_views(rows@)),
{
    let ghost all = row_views(rows@);
    let mut heads: Vec<Vec<char>> = Vec::new();
    let mut i: usize = 0;
    while i < rows.len()
        invariant
            i <= rows.len(),
            heads.len() == i,
            all == row_views(rows@),
            forall|j: int| 0 <= j < i ==> (#[trigger] heads@[j])@ == head_of(all[j]),
        decreases rows.len() - i,
    {
        assert(all[i as int] == rows@[i as int]@);
        heads.push(head_text(&rows[i]));
        i += 1;
    }
    assert(views(heads@) =~= row_heads(all));
    let sorted = sort_dedup(&heads);
    let ghost order = views(sorted@);
    let mut lines: Vec<Vec<char>> = Vec::new();
    let mut k: usize = 0;
    assert(views(lines@) =~= group_lines(all, order, 0));
    while k < sorted.len()
        invariant
            k <= sorted.len(),
            heads.len() == rows.len(),
            all == row_views(rows@),
            views(heads@) == row_heads(all),
            order == views(sorted@),
            views(lines@) == group_lines(all, order, k as int),
        decreases sorted.len() - k,
    {
        let head = &sorted[k];
        assert(order[k as int] == head@);
        let mut entries: Vec<Vec<char>> = Vec::new();
        let mut j: usize = 0;
        assert(views(entries@) =~= entries_with(all, head@, 0));
        while j < rows.len()
            invariant
                j <= rows.len(),
                heads.len() == rows.len(),
                all == row_views(rows@),
                views(heads@) == row_heads(all),
                views(entries@) == entries_with(all, head@, j as int),
            decreases rows.len() - j,
        {
            assert(all[j as int] == rows@[j as int]@);
            assert(views(heads@)[j as int] == heads@[j as int]@);
            if same_text(&heads[j], head) {
                let e = slice(&rows[j].entry, 0, rows[j].entry.len());
                assert(e@ =~= rows@[j as int].entry@);
                push_text(&mut entries, e);
            }
            j += 1;
        }
        let title = slice(head, 0, head.len());
        assert(title@ =~= head@);
        push_text(&mut lines, title);
        let ordered = sort_texts(&entries);
        extend_texts(&mut lines, &ordered);
        k += 1;
    }
    lines
}

/// What `pick` takes from the first `upto` items, in their order.
pub open spec fn picked<T, U>(items: Seq<T>, pick: spec_fn(T) -> Option<U>, upto: int) -> Seq<U>
    decreases upto,
{
    if upto <= 0 {
        Seq::empty()
    } else {
        match pick(items[upto - 1]) {
            Some(t) => picked(items, pick, upto - 1).push(t),
            None => picked(items, pick, upto - 1),
        }
    }
}

/// What `pick` takes from one item.
pub open spec fn pick_of<T, U>(pick: spec_fn(T) -> Option<U>, x: T) -> vstd::multiset::Multiset<U> {
    match pick(x) {
        Some(t) => vstd::multiset::Multiset::singleton(t),
        None => vstd::multiset::Multiset::empty(),
    }
}

/// What is picked from the first items depends on them alone.
pub proof fn lemma_picked_prefix<T, U>(
    a: Seq<T>,
    b: Seq<T>,
    pick: spec_fn(T) -> Option<U>,
    upto: int,
)
    requires
        upto <= a.len(),
        upto <= b.len(),
        forall|k: int| 0 <= k < upto ==> a[k] == b[k],
    ensures
        picked(a, pick, upto) == picked(b, pick, upto),
    decreases upto,
{
    if upto > 0 {
        lemma_picked_prefix(a, b, pick, upto - 1);
    }
}

/// Without the item at `i`, what is picked lacks what that item gave.
pub proof fn lemma_picked_remove<T, U>(
    b: Seq<T>,
    pick: spec_fn(T) -> Option<U>,
    i: int,
    upto: int,
)
    requires
        0 <= i < upto <= b.len(),
    ensures
        picked(b, pick, upto).to_multiset() == picked(b.remove(i), pick, upto - 1).to_multiset().add(
            pick_of(pick, b[i]),
        ),
    decreases upto,
{
    broadcast use vstd::seq_lib::group_to_multiset_ensures;

    let rest = b.remove(i);
    if upto == i + 1 {
        lemma_picked_prefix(b, rest, pick, i);
        assert(picked(b, pick, upto).to_multiset() =~= picked(rest, pick, upto - 1).to_multiset().add(
            pick_of(pick, b[i]),
        ));
    } else {
        lemma_picked_remove(b, pick, i, upto - 1);
        assert(rest[upto - 2] == b[upto - 1]);
        assert(picked(b, pick, upto).to_multiset() =~= picked(rest, pick, upto - 1).to_multiset().add(
            pick_of(pick, b[i]),
        ));
    }
}

/// What is picked from a list depends on its items alone, not on their
/// order: two lists that hold the same items, each as often, give the same
/// things, each as often.
pub proof fn lemma_picked_order_free<T, U>(a: Seq<T>, b: Seq<T>, pick: spec_fn(T) -> Option<U>)
    requires
        a.to_multiset() == b.to_multiset(),
    ensures
        picked(a, pick, a.len() as int).to_multiset() == picked(
            b,
            pick,
            b.len() as int,
        ).to_multiset(),
    decreases a.len(),
{
    broadcast use vstd::seq_lib::group_to_multiset_ensures;

    assert(a.len() == b.len()) by {
        assert(a.len() == a.to_multiset().len());
        assert(b.len() == b.to_multiset().len());
    }
    if a.len() > 0 {
        let n = a.len() - 1;
        let x = a[n];
        assert(a.contains(x));
        assert(b.contains(x)) by {
            assert(a.to_multiset().count(x) > 0);
        }
        let i = choose|i: int| 0 <= i < b.len() && b[i] == x;
        vstd::seq_lib::to_multiset_remove(a, n);
        vstd::seq_lib::to_multiset_remove(b, i);
        lemma_picked_order_free(a.remove(n), b.remove(i), pick);
        lemma_picked_remove(a, pick, n, a.len() as int);
        lemma_picked_remove(b, pick, i, b.len() as int);
    } else {
        assert(picked(a, pick, 0) =~= picked(b, pick, 0));
    }
}

/// What a section takes from a unit.
pub open spec fn section_pick(s: Section) -> spec_fn(UnitView) -> Option<Seq<char>> {
    |u: UnitView|
        if in_section(u, s) {
            Some(entry_of(u, s))
        } else {
            None
        }
}

pub proof fn lemma_section_is_picked(units: Seq<UnitView>, s: Section, upto: int)
    ensures
        section_list(units, s, upto) == picked(units, section_pick(s), upto),
    decreases upto,
{
    if upto > 0 {
        lemma_section_is_picked(units, s, upto - 1);
    }
}

/// A section does not depend on the order of the units.
pub proof fn lemma_section_order_free(a: Seq<UnitView>, b: Seq<UnitView>, s: Section)
    requires
        a.to_multiset() == b.to_multiset(),
    ensures
        section_text(a, s) == section_text(b, s),
{
    broadcast use vstd::seq_lib::group_to_multiset_ensures;

    let la = section_list(a, s, a.len() as int);
    let lb = section_list(b, s, b.len() as int);
    lemma_section_is_picked(a, s, a.len() as int);
    lemma_section_is_picked(b, s, b.len() as int);
    lemma_picked_order_free(a, b, section_pick(s));
    assert(la.len() == lb.len()) by {
        assert(la.len() == la.to_multiset().len());
        assert(lb.len() == lb.to_multiset().len());
    }
    lemma_sort_order_free(la, lb);
}

/// The plan of a driver does not depend on the order in which the units
/// are given: two lists that hold the same units, each as often, give the
/// same text.
pub proof fn lemma_plan_order_free(
    driver: Seq<char>,
    legend: Seq<char>,
    a: Seq<UnitView>,
    b: Seq<UnitView>,
)
    requires
        a.to_multiset() == b.to_multiset(),
    ensures
        plan_text(driver, legend, a) == plan_text(driver, legend, b),
{
    lemma_section_order_free(a, b, Section::Ambiguity);
    lemma_section_order_free(a, b, Section::Surgical);
    lemma_section_order_free(a, b, Section::Structure);
    lemma_section_order_free(a, b, Section::Merge);
}

/// What the group under `head` takes from a row.
pub open spec fn group_pick(head: Seq<char>) -> spec_fn(RowView) -> Option<Seq<char>> {
    |r: RowView|
        if head_of(r) == head {
            Some(r.entry)
        } else {
            None
        }
}

pub proof fn lemma_group_is_picked(rows: Seq<RowView>, head: Seq<char>, upto: int)
    ensures
        entries_with(rows, head, upto) == picked(rows, group_pick(head), upto),
    decreases upto,
{
    if upto > 0 {
        lemma_group_is_picked(rows, head, upto - 1);
    }
}

pub proof fn lemma_group_lines_order_free(
    a: Seq<RowView>,
    b: Seq<RowView>,
    heads: Seq<Seq<char>>,
    upto: int,
)
    requires
        a.to_multiset() == b.to_multiset(),
        upto <= heads.len(),
    ensures
        group_lines(a, heads, upto) == group_lines(b, heads, upto),
    decreases upto,
{
    if upto > 0 {
        lemma_group_lines_order_free(a, b, heads, upto - 1);
        let head = heads[upto - 1];
        lemma_group_is_picked(a, head, a.len() as int);
        lemma_group_is_picked(b, head, b.len() as int);
        lemma_picked_order_free(a, b, group_pick(head));
        lemma_sort_order_free(
            entries_with(a, head, a.len() as int),
            entries_with(b, head, b.len() as int),
        );
    }
}

/// The lines of a task do not depend on the order in which the rows are
/// given: two lists that hold the same rows, each as often, give the same
/// lines.
pub proof fn lemma_groups_order_free(a: Seq<RowView>, b: Seq<RowView>)
    requires
        a.to_multiset() == b.to_multiset(),
    ensures
        grouped_lines(a) == grouped_lines(b),
{
    broadcast use vstd::seq_lib::group_to_multiset_ensures;

    assert(a.len() == b.len()) by {
        assert(a.len() == a.to_multiset().len());
        assert(b.len() == b.to_multiset().len());
    }
    let ha = row_heads(a);
    let hb = row_heads(b);
    let sa = sort_unique(ha, a.len() as int);
    let sb = sort_unique(hb, b.len() as int);
    lemma_sort_unique(ha, a.len() as int);
    lemma_sort_unique(hb, b.len() as int);
    assert forall|y: Seq<char>| sa.contains(y) <==> sb.contains(y) by {
        if sa.contains(y) {
            let i = choose|i: int| 0 <= i < a.len() && ha[i] == y;
            assert(a.contains(a[i]));
            assert(a.to_multiset().count(a[i]) > 0);
            assert(b.contains(a[i]));
            let j = choose|j: int| 0 <= j < b.len() && b[j] == a[i];
            assert(hb[j] == y);
        }
        if sb.contains(y) {
            let i = choose|i: int| 0 <= i < b.len() && hb[i] == y;
            assert(b.contains(b[i]));
            assert(b.to_multiset().count(b[i]) > 0);
            assert(a.contains(b[i]));
            let j = choose|j: int| 0 <= j < a.len() && a[j] == b[i];
            assert(ha[j] == y);
        }
    }
    lemma_strictly_sorted_same(sa, sb);
    lemma_group_lines_order_free(a, b, sa, sa.len() as int);
}

/// What a task file is about.
pub enum RowKind {
    Ambiguity,
    Violation { backend: bool },
    Structure { backend: bool },
    Merge { backend: bool },
    Surgical { backend: bool, domain: Vec<char> },
}

pub enum RowKindView {
    Ambiguity,
    Violation { backend: bool },
    Structure { backend: bool },
    Merge { backend: bool },
    Surgical { backend: bool, domain: Seq<char> },
}

impl View for RowKind {
    type V = RowKindView;

    open spec fn view(&self) -> RowKindView {
        match self {
            RowKind::Ambiguity => RowKindView::Ambiguity,
            RowKind::Violation { backend } => RowKindView::Violation { backend: *backend },
            RowKind::Structure { backend } => RowKindView::Structure { backend: *backend },
            RowKind::Merge { backend } => RowKindView::Merge { backend: *backend },
            RowKind::Surgical { backend, domain } => RowKindView::Surgical {
                backend: *backend,
                domain: domain@,
            },
        }
    }
}

/// A file counts as backend if its path holds `backend` or ends in `.rs`.
pub open spec fn is_backend_file(file: Seq<char>) -> bool {
    contains_seq(file, "backend"@) || ends_with_seq(file, ".rs"@)
}

/// The directory that a surgical unit is filed under: the parent of its
/// file, or the empty text.
pub open spec fn domain_of(file: Seq<char>) -> Seq<char> {
    match parent_of(file) {
        Some(d) => d,
        None => Seq::empty(),
    }
}

/// The reason of a surgical unit up to where its explanation starts.
pub open spec fn short_reason(reason: Seq<char>) -> Seq<char> {
    let k = find_spec(reason, " (AI Context Fog"@, 0);
    if 0 <= k <= reason.len() {
        reason.subrange(0, k)
    } else {
        reason
    }
}

/// The lines that list the first `upto` files of a merge in a task.
pub open spec fn merge_lines(folder: Seq<char>, files: Seq<Seq<char>>, upto: int) -> Seq<char>
    decreases upto,
{
    if upto <= 0 {
        Seq::empty()
    } else {
        merge_lines(folder, files, upto - 1) + "\n    - `"@ + join_of(folder, files[upto - 1])
            + "`"@
    }
}

/// The row of a unit in a task of the given kind, if it belongs there.
pub open spec fn row_of_unit(u: UnitView, kind: RowKindView) -> Option<RowView> {
    match (u, kind) {
        (UnitView::Ambiguity { file, .. }, RowKindView::Ambiguity) => Some(
            RowView {
                key: "Classify Ambiguous Files"@,
                directive: directive_of(u),
                entry: "`"@ + file + "`"@,
            },
        ),
        (UnitView::Violation { file, pattern, .. }, RowKindView::Violation { backend }) => {
            if is_backend_file(file) == backend {
                Some(
                    RowView {
                        key: "Fix Pattern `"@ + pattern + "`"@,
                        directive: directive_of(u),
                        entry: "`"@ + file + "`"@,
                    },
                )
            } else {
                None
            }
        },
        (
            UnitView::Structure { file, action, reason, platform, .. },
            RowKindView::Structure { backend },
        ) => {
            if (platform == "backend"@) == backend {
                Some(
                    RowView {
                        key: action,
                        directive: directive_of(u),
                        entry: "**"@ + file + "** (Metric: "@ + reason + ")"@,
                    },
                )
            } else {
                None
            }
        },
        (
            UnitView::Merge { folder, files, reason, platform, .. },
            RowKindView::Merge { backend },
        ) => {
            if (platform == "backend"@) == backend {
                let sorted = sort_all(files, files.len() as int);
                Some(
                    RowView {
                        key: "Merge Fragmented Folders"@,
                        directive: directive_of(u),
                        entry: "Folder: `"@ + folder + "` (Metric: "@ + reason + ")"@
                            + merge_lines(folder, sorted, sorted.len() as int),
                    },
                )
            } else {
                None
            }
        },
        (
            UnitView::Surgical { file, action, reason, platform, .. },
            RowKindView::Surgical { backend, domain },
        ) => {
            if (platform == "backend"@) == backend && domain_of(file) == domain {
                Some(
                    RowView {
                        key: action,
                        directive: directive_of(u),
                        entry: "- **"@ + file + "** (Metric: "@ + short_reason(reason) + ")\n"@,
                    },
                )
            } else {
                None
            }
        },
        _ => None,
    }
}

/// The rows of the first `upto` units in a task of the given kind.
pub open spec fn rows_of(units: Seq<UnitView>, kind: RowKindView, upto: int) -> Seq<RowView>
    decreases upto,
{
    if upto <= 0 {
        Seq::empty()
    } else {
        match row_of_unit(units[upto - 1], kind) {
            Some(r) => rows_of(units, kind, upto - 1).push(r),
            None => rows_of(units, kind, upto - 1),
        }
    }
}

fn string_chars(s: &String) -> (r: Vec<char>)
    ensures
        r@ == s@,
{
    to_chars(s.as_str())
}

fn is_backend(platform: &String) -> (b: bool)
    ensures
        b == (platform@ == "backend"@),
{
    same_text(&string_chars(platform), &to_chars("backend"))
}

fn domain(file: &String) -> (r: Vec<char>)
    ensures
        r@ == domain_of(file@),
{
    match parent(&string_chars(file)) {
        Some(d) => d,
        None => Vec::new(),
    }
}

fn make_row(u: &WorkUnit, kind: &RowKind) -> (r: Option<Row>)
    ensures
        match r {
            Some(row) => row_of_unit(u@, kind@) == Some(row@),
            None => row_of_unit(u@, kind@) is None,
        },
{
    let directive = string_chars(&generate_strategic_directive(u));
    match (u, kind) {
        (WorkUnit::Ambiguity { file, .. }, RowKind::Ambiguity) => {
            let mut entry = to_chars("`");
            append_string(&mut entry, file);
            append_str(&mut entry, "`");
            Some(Row { key: to_chars("Classify Ambiguous Files"), directive, entry })
        },
        (WorkUnit::Violation { file, pattern, .. }, RowKind::Violation { backend }) => {
            let chars = string_chars(file);
            let back = contains(&chars, &to_chars("backend")) || ends_with(&chars, &to_chars(".rs"));
            if back == *backend {
                let mut key = to_chars("Fix Pattern `");
                append_string(&mut key, pattern);
                append_str(&mut key, "`");
                let mut entry = to_chars("`");
                append_string(&mut entry, file);
                append_str(&mut entry, "`");
                Some(Row { key, directive, entry })
            } else {
                None
            }
        },
        (
            WorkUnit::Structure { file, action, reason, platform, .. },
            RowKind::Structure { backend },
        ) => {
            if is_backend(platform) == *backend {
                let mut entry = to_chars("**");
                append_string(&mut entry, file);
                append_str(&mut entry, "** (Metric: ");
                append_string(&mut entry, reason);
                append_str(&mut entry, ")");
                Some(Row { key: string_chars(action), directive, entry })
            } else {
                None
            }
        },
        (WorkUnit::Merge { folder, files, reason, platform, .. }, RowKind::Merge { backend }) => {
            if is_backend(platform) == *backend {
                let mut names: Vec<Vec<char>> = Vec::new();
                let mut i: usize = 0;
                while i < files.len()
                    invariant
                        i <= files.len(),
                        names.len() == i,
                        forall|j: int| 0 <= j < i ==> (#[trigger] names@[j])@ == files@[j]@,
                    decreases files.len() - i,
                {
                    names.push(string_chars(&files[i]));
                    i += 1;
                }
                assert(views(names@) =~= strs(files@));
                let sorted = sort_texts(&names);
                let base = string_chars(folder);
                let mut entry = to_chars("Folder: `");
                append_string(&mut entry, folder);
                append_str(&mut entry, "` (Metric: ");
                append_string(&mut entry, reason);
                append_str(&mut entry, ")");
                let ghost head = entry@;
                let mut k: usize = 0;
                assert(entry@ =~= head + merge_lines(folder@, views(sorted@), 0));
                while k < sorted.len()
                    invariant
                        k <= sorted.len(),
                        base@ == folder@,
                        entry@ == head + merge_lines(folder@, views(sorted@), k as int),
                    decreases sorted.len() - k,
                {
                    append_str(&mut entry, "\n    - `");
                    append(&mut entry, &join(&base, &sorted[k]));
                    append_str(&mut entry, "`");
                    assert(views(sorted@)[k as int] == sorted@[k as int]@);
                    assert(entry@ =~= head + (merge_lines(folder@, views(sorted@), k as int)
                        + "\n    - `"@ + join_of(folder@, views(sorted@)[k as int]) + "`"@));
                    k += 1;
                }
                Some(Row { key: to_chars("Merge Fragmented Folders"), directive, entry })
            } else {
                None
            }
        },
        (
            WorkUnit::Surgical { file, action, reason, platform, .. },
            RowKind::Surgical { backend, domain: wanted },
        ) => {
            if is_backend(platform) == *backend && same_text(&domain(file), wanted) {
                let chars = string_chars(reason);
                let fog = to_chars(" (AI Context Fog");
                proof {
                    lemma_find_spec(chars@, fog@, 0);
                }
                let short = match find_from(&chars, &fog, 0) {
                    Some(k) => slice(&chars, 0, k),
                    None => chars,
                };
                let mut entry = to_chars("- **");
                append_string(&mut entry, file);
                append_str(&mut entry, "** (Metric: ");
                append(&mut entry, &short);
                append_str(&mut entry, ")\n");
                Some(Row { key: string_chars(action), directive, entry })
            } else {
                None
            }
        },
        _ => None,
    }
}

/// The rows of `units` in a task of the given kind.
pub fn collect_rows(units: &Vec<WorkUnit>, kind: &RowKind) -> (rows: Vec<Row>)
    ensures
        row_views(rows@) == rows_of(unit_views(units@), kind@, units@.len() as int),
{
    let ghost all = unit_views(units@);
    let mut rows: Vec<Row> = Vec::new();
    let mut i: usize = 0;
    assert(row_views(rows@) =~= rows_of(all, kind@, 0));
    while i < units.len()
        invariant
            i <= units.len(),
            all == unit_views(units@),
            row_views(rows@) == rows_of(all, kind@, i as int),
        decreases units.len() - i,
    {
        assert(all[i as int] == units@[i as int]@);
        match make_row(&units[i], kind) {
            Some(row) => {
                assert(row_views(rows@.push(row)) =~= row_views(rows@).push(row@));
                rows.push(row);
            },
            None => {},
        }
        i += 1;
    }
    rows
}

} // verus!
