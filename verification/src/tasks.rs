//! Task files: what goes into each, under which name and number, and which
//! files of earlier runs are left over.

use crate::emit::{
    collect_rows, domain_of, format_groups, grouped_lines, lemma_groups_order_free,
    lemma_picked_order_free, picked, row_of_unit, rows_of, Document, RowKind, RowKindView, RowView,
};
use crate::order::{sort_dedup, sort_unique};
use crate::paths::{file_name, parent};
use crate::synth::{name_of, Settings};
use crate::text::{
    append, append_str, append_string, centi, centi_chars, contains, contains_seq, decimal,
    decimal_chars_3, decimal_padded, lemma_strs_push, push_text, replace, replace_seq,
    same_text, split, split_from, starts_with, starts_with_seq, strs, to_chars, to_string,
    to_strings, trim, trim_seq, uppercase, uppercase_of, views,
};
use crate::units::{unit_views, UnitView, WorkUnit};
use vstd::prelude::*;

verus! {

/// The texts that tasks and plans are made from.
pub struct Templates {
    pub legend: String,
    pub surgical_objective: String,
    pub violation_objective: String,
    pub structural_objective: String,
    pub merge_objective: String,
    pub ambiguity_objective: String,
}

/// A role of the taxonomy: the multiplier of the size budget, in hundredths,
/// and what the role is for.
pub struct TaxonomyRole {
    pub multiplier: u64,
    pub desc: Option<String>,
}

/// A number given in hundredths, which may be below zero, with two decimals.
pub open spec fn signed_centi(n: int) -> Seq<char> {
    if n < 0 {
        "-"@ + centi((-n) as nat)
    } else {
        centi(n as nat)
    }
}

/// The objective of surgical tasks: the template with the weights of nesting
/// and density and the drag target filled in.
pub open spec fn surgical_objective_of(t: Seq<char>, s: Settings) -> Seq<char> {
    replace_seq(
        replace_seq(
            replace_seq(t, "{nesting_w}"@, centi(s.nesting_weight as nat)),
            "{density_w}"@,
            centi(s.density_weight as nat),
        ),
        "{drag_t}"@,
        centi(s.drag_target as nat),
    )
}

/// The objective of merge tasks: the template with the score threshold
/// filled in.
pub open spec fn merge_objective_of(t: Seq<char>, s: Settings) -> Seq<char> {
    replace_seq(t, "{merge_t}"@, signed_centi(s.merge_score_threshold as int))
}

/// The first `upto` roles, one to a line, each with what it is for.
pub open spec fn role_list(taxonomy: Seq<(String, TaxonomyRole)>, upto: int) -> Seq<char>
    decreases upto,
{
    if upto <= 0 {
        Seq::empty()
    } else {
        role_list(taxonomy, upto - 1) + "*   **"@ + taxonomy[upto - 1].0@ + "**: "@ + (
        match taxonomy[upto - 1].1.desc {
            Some(d) => d@,
            None => Seq::empty(),
        }) + "\n"@
    }
}

/// The objective of the ambiguity task: the template with the roles filled
/// in.
pub open spec fn ambiguity_objective_of(
    t: Seq<char>,
    taxonomy: Seq<(String, TaxonomyRole)>,
) -> Seq<char> {
    replace_seq(t, "{roles}"@, role_list(taxonomy, taxonomy.len() as int))
}

/// What goes into one task file.
pub struct TaskDoc {
    pub category: String,
    pub platform: String,
    pub lines: Vec<String>,
    pub objective: String,
}

pub struct TaskDocView {
    pub category: Seq<char>,
    pub platform: Seq<char>,
    pub lines: Seq<Seq<char>>,
    pub objective: Seq<char>,
}

impl View for TaskDoc {
    type V = TaskDocView;

    open spec fn view(&self) -> TaskDocView {
        TaskDocView {
            category: self.category@,
            platform: self.platform@,
            lines: strs(self.lines@),
            objective: self.objective@,
        }
    }
}

pub open spec fn doc_views(docs: Seq<TaskDoc>) -> Seq<TaskDocView> {
    Seq::new(docs.len(), |i: int| docs[i]@)
}

/// The task of the given kind, if any unit belongs to it.
pub open spec fn doc_of(
    units: Seq<UnitView>,
    kind: RowKindView,
    category: Seq<char>,
    platform: Seq<char>,
    objective: Seq<char>,
) -> Seq<TaskDocView> {
    let lines = grouped_lines(rows_of(units, kind, units.len() as int));
    if lines.len() == 0 {
        Seq::empty()
    } else {
        seq![TaskDocView { category, platform, lines, objective }]
    }
}

/// The label of a platform.
pub open spec fn platform_label(backend: bool) -> Seq<char> {
    if backend {
        "Backend"@
    } else {
        "Frontend"@
    }
}

/// The directories of the surgical units of a platform among the first
/// `upto` units.
pub open spec fn surgical_domains(units: Seq<UnitView>, backend: bool, upto: int) -> Seq<Seq<char>>
    decreases upto,
{
    if upto <= 0 {
        Seq::empty()
    } else {
        match units[upto - 1] {
            UnitView::Surgical { file, platform, .. } => {
                if (platform == "backend"@) == backend {
                    surgical_domains(units, backend, upto - 1).push(domain_of(file))
                } else {
                    surgical_domains(units, backend, upto - 1)
                }
            },
            _ => surgical_domains(units, backend, upto - 1),
        }
    }
}

/// The category of the surgical task of a directory.
pub open spec fn surgical_category(domain: Seq<char>) -> Seq<char> {
    "Surgical_Refactor_"@ + uppercase_of(name_of(domain))
}

/// The surgical tasks of a platform for the first `upto` of `domains`.
pub open spec fn surgical_docs(
    units: Seq<UnitView>,
    backend: bool,
    domains: Seq<Seq<char>>,
    objective: Seq<char>,
    upto: int,
) -> Seq<TaskDocView>
    decreases upto,
{
    if upto <= 0 {
        Seq::empty()
    } else {
        surgical_docs(units, backend, domains, objective, upto - 1) + doc_of(
            units,
            RowKindView::Surgical { backend, domain: domains[upto - 1] },
            surgical_category(domains[upto - 1]),
            platform_label(backend),
            objective,
        )
    }
}

/// All surgical tasks of a platform: one for each directory, the
/// directories sorted.
pub open spec fn all_surgical_docs(units: Seq<UnitView>, backend: bool, objective: Seq<char>)
    -> Seq<TaskDocView> {
    let found = surgical_domains(units, backend, units.len() as int);
    let domains = sort_unique(found, found.len() as int);
    surgical_docs(units, backend, domains, objective, domains.len() as int)
}

/// The tasks of a run, in the order in which they are to be taken up:
/// ambiguities, structure, violations, surgery, merges; frontend before
/// backend.
pub open spec fn task_docs_of(
    units: Seq<UnitView>,
    t: Templates,
    s: Settings,
    taxonomy: Seq<(String, TaxonomyRole)>,
) -> Seq<TaskDocView> {
    let surgical = surgical_objective_of(t.surgical_objective@, s);
    let merge = merge_objective_of(t.merge_objective@, s);
    doc_of(
        units,
        RowKindView::Ambiguity,
        "Classify_Ambiguous_Files"@,
        Seq::empty(),
        ambiguity_objective_of(t.ambiguity_objective@, taxonomy),
    ) + doc_of(
        units,
        RowKindView::Structure { backend: false },
        "Structural_Refactor"@,
        "Frontend"@,
        t.structural_objective@,
    ) + doc_of(
        units,
        RowKindView::Structure { backend: true },
        "Structural_Refactor"@,
        "Backend"@,
        t.structural_objective@,
    ) + doc_of(
        units,
        RowKindView::Violation { backend: false },
        "Fix_Violations"@,
        "Frontend"@,
        t.violation_objective@,
    ) + doc_of(
        units,
        RowKindView::Violation { backend: true },
        "Fix_Violations"@,
        "Backend"@,
        t.violation_objective@,
    ) + all_surgical_docs(units, false, surgical) + all_surgical_docs(units, true, surgical)
        + doc_of(units, RowKindView::Merge { backend: false }, "Merge_Folders"@, "Frontend"@, merge)
        + doc_of(units, RowKindView::Merge { backend: true }, "Merge_Folders"@, "Backend"@, merge)
}

/// What a task of the given kind takes from a unit.
pub open spec fn row_pick(kind: RowKindView) -> spec_fn(UnitView) -> Option<RowView> {
    |u: UnitView| row_of_unit(u, kind)
}

pub proof fn lemma_rows_are_picked(units: Seq<UnitView>, kind: RowKindView, upto: int)
    ensures
        rows_of(units, kind, upto) == picked(units, row_pick(kind), upto),
    decreases upto,
{
    if upto > 0 {
        lemma_rows_are_picked(units, kind, upto - 1);
    }
}

/// A task does not depend on the order of the units.
pub proof fn lemma_doc_order_free(
    a: Seq<UnitView>,
    b: Seq<UnitView>,
    kind: RowKindView,
    category: Seq<char>,
    platform: Seq<char>,
    objective: Seq<char>,
)
    requires
        a.to_multiset() == b.to_multiset(),
    ensures
        doc_of(a, kind, category, platform, objective) == doc_of(
            b,
            kind,
            category,
            platform,
            objective,
        ),
{
    lemma_rows_are_picked(a, kind, a.len() as int);
    lemma_rows_are_picked(b, kind, b.len() as int);
    lemma_picked_order_free(a, b, row_pick(kind));
    lemma_groups_order_free(
        rows_of(a, kind, a.len() as int),
        rows_of(b, kind, b.len() as int),
    );
}

/// The directory that the surgical tasks of a platform take from a unit.
pub open spec fn domain_pick(backend: bool) -> spec_fn(UnitView) -> Option<Seq<char>> {
    |u: UnitView|
        match u {
            UnitView::Surgical { file, platform, .. } => {
                if (platform == "backend"@) == backend {
                    Some(domain_of(file))
                } else {
                    None
                }
            },
            _ => None,
        }
}

pub proof fn lemma_domains_are_picked(units: Seq<UnitView>, backend: bool, upto: int)
    ensures
        surgical_domains(units, backend, upto) == picked(units, domain_pick(backend), upto),
    decreases upto,
{
    if upto > 0 {
        lemma_domains_are_picked(units, backend, upto - 1);
    }
}

pub proof fn lemma_surgical_docs_order_free(
    a: Seq<UnitView>,
    b: Seq<UnitView>,
    backend: bool,
    domains: Seq<Seq<char>>,
    objective: Seq<char>,
    upto: int,
)
    requires
        a.to_multiset() == b.to_multiset(),
    ensures
        surgical_docs(a, backend, domains, objective, upto) == surgical_docs(
            b,
            backend,
            domains,
            objective,
            upto,
        ),
    decreases upto,
{
    if upto > 0 {
        lemma_surgical_docs_order_free(a, b, backend, domains, objective, upto - 1);
        lemma_doc_order_free(
            a,
            b,
            RowKindView::Surgical { backend, domain: domains[upto - 1] },
            surgical_category(domains[upto - 1]),
            platform_label(backend),
            objective,
        );
    }
}

pub proof fn lemma_all_surgical_order_free(
    a: Seq<UnitView>,
    b: Seq<UnitView>,
    backend: bool,
    objective: Seq<char>,
)
    requires
        a.to_multiset() == b.to_multiset(),
    ensures
        all_surgical_docs(a, backend, objective) == all_surgical_docs(b, backend, objective),
{
    broadcast use vstd::seq_lib::group_to_multiset_ensures;

    let fa = surgical_domains(a, backend, a.len() as int);
    let fb = surgical_domains(b, backend, b.len() as int);
    lemma_domains_are_picked(a, backend, a.len() as int);
    lemma_domains_are_picked(b, backend, b.len() as int);
    lemma_picked_order_free(a, b, domain_pick(backend));
    let sa = sort_unique(fa, fa.len() as int);
    let sb = sort_unique(fb, fb.len() as int);
    crate::order::lemma_sort_unique(fa, fa.len() as int);
    crate::order::lemma_sort_unique(fb, fb.len() as int);
    assert forall|y: Seq<char>| sa.contains(y) <==> sb.contains(y) by {
        if sa.contains(y) {
            let i = choose|i: int| 0 <= i < fa.len() && fa[i] == y;
            assert(fa.contains(y));
            assert(fa.to_multiset().count(y) > 0);
            assert(fb.contains(y));
            let j = choose|j: int| 0 <= j < fb.len() && fb[j] == y;
        }
        if sb.contains(y) {
            let i = choose|i: int| 0 <= i < fb.len() && fb[i] == y;
            assert(fb.contains(y));
            assert(fb.to_multiset().count(y) > 0);
            assert(fa.contains(y));
            let j = choose|j: int| 0 <= j < fa.len() && fa[j] == y;
        }
    }
    crate::order::lemma_strictly_sorted_same(sa, sb);
    lemma_surgical_docs_order_free(a, b, backend, sa, objective, sa.len() as int);
}

/// The tasks of a run do not depend on the order in which the units are
/// given: two lists that hold the same units, each as often, give the same
/// tasks with the same lines.
pub proof fn lemma_tasks_order_free(
    a: Seq<UnitView>,
    b: Seq<UnitView>,
    t: Templates,
    s: Settings,
    taxonomy: Seq<(String, TaxonomyRole)>,
)
    requires
        a.to_multiset() == b.to_multiset(),
    ensures
        task_docs_of(a, t, s, taxonomy) == task_docs_of(b, t, s, taxonomy),
{
    let surgical = surgical_objective_of(t.surgical_objective@, s);
    let merge = merge_objective_of(t.merge_objective@, s);
    lemma_doc_order_free(
        a,
        b,
        RowKindView::Ambiguity,
        "Classify_Ambiguous_Files"@,
        Seq::empty(),
        ambiguity_objective_of(t.ambiguity_objective@, taxonomy),
    );
    lemma_doc_order_free(
        a,
        b,
        RowKindView::Structure { backend: false },
        "Structural_Refactor"@,
        "Frontend"@,
        t.structural_objective@,
    );
    lemma_doc_order_free(
        a,
        b,
        RowKindView::Structure { backend: true },
        "Structural_Refactor"@,
        "Backend"@,
        t.structural_objective@,
    );
    lemma_doc_order_free(
        a,
        b,
        RowKindView::Violation { backend: false },
        "Fix_Violations"@,
        "Frontend"@,
        t.violation_objective@,
    );
    lemma_doc_order_free(
        a,
        b,
        RowKindView::Violation { backend: true },
        "Fix_Violations"@,
        "Backend"@,
        t.violation_objective@,
    );
    lemma_all_surgical_order_free(a, b, false, surgical);
    lemma_all_surgical_order_free(a, b, true, surgical);
    lemma_doc_order_free(
        a,
        b,
        RowKindView::Merge { backend: false },
        "Merge_Folders"@,
        "Frontend"@,
        merge,
    );
    lemma_doc_order_free(
        a,
        b,
        RowKindView::Merge { backend: true },
        "Merge_Folders"@,
        "Backend"@,
        merge,
    );
}

fn add_doc(
    docs: &mut Vec<TaskDoc>,
    units: &Vec<WorkUnit>,
    kind: &RowKind,
    category: String,
    platform: &str,
    objective: &String,
)
    ensures
        doc_views(final(docs)@) == doc_views(old(docs)@) + doc_of(
            unit_views(units@),
            kind@,
            category@,
            platform@,
            objective@,
        ),
{
    let rows = collect_rows(units, kind);
    let lines = format_groups(&rows);
    if lines.len() > 0 {
        let doc = TaskDoc {
            category,
            platform: platform.to_owned(),
            lines: to_strings(&lines),
            objective: objective.clone(),
        };
        assert(doc_views(docs@.push(doc)) =~= doc_views(docs@) + seq![doc@]);
        docs.push(doc);
    } else {
        assert(doc_views(docs@) =~= doc_views(docs@) + Seq::<TaskDocView>::empty());
    }
}

fn add_surgical_docs(
    docs: &mut Vec<TaskDoc>,
    units: &Vec<WorkUnit>,
    backend: bool,
    objective: &String,
)
    ensures
        doc_views(final(docs)@) == doc_views(old(docs)@) + all_surgical_docs(
            unit_views(units@),
            backend,
            objective@,
        ),
{
    let ghost all = unit_views(units@);
    let mut found: Vec<Vec<char>> = Vec::new();
    let mut i: usize = 0;
    assert(views(found@) =~= surgical_domains(all, backend, 0));
    while i < units.len()
        invariant
            i <= units.len(),
            all == unit_views(units@),
            views(found@) == surgical_domains(all, backend, i as int),
        decreases units.len() - i,
    {
        assert(all[i as int] == units@[i as int]@);
        match &units[i] {
            WorkUnit::Surgical { file, platform, .. } => {
                if same_text(&to_chars(platform.as_str()), &to_chars("backend")) == backend {
                    let d = match parent(&to_chars(file.as_str())) {
                        Some(d) => d,
                        None => Vec::new(),
                    };
                    push_text(&mut found, d);
                }
            },
            _ => {},
        }
        i += 1;
    }
    let domains = sort_dedup(&found);
    let label = if backend {
        "Backend"
    } else {
        "Frontend"
    };
    let mut k: usize = 0;
    assert(doc_views(docs@) =~= doc_views(old(docs)@) + surgical_docs(
        all,
        backend,
        views(domains@),
        objective@,
        0,
    ));
    while k < domains.len()
        invariant
            k <= domains.len(),
            all == unit_views(units@),
            label@ == platform_label(backend),
            doc_views(docs@) == doc_views(old(docs)@) + surgical_docs(
                all,
                backend,
                views(domains@),
                objective@,
                k as int,
            ),
        decreases domains.len() - k,
    {
        let ghost before = doc_views(docs@);
        assert(views(domains@)[k as int] == domains@[k as int]@);
        let name = match file_name(&domains[k]) {
            Some(n) => n,
            None => Vec::new(),
        };
        let mut category = to_chars("Surgical_Refactor_");
        append_string(&mut category, &uppercase(to_string(&name).as_str()));
        let kind = RowKind::Surgical {
            backend,
            domain: crate::text::slice(&domains[k], 0, domains[k].len()),
        };
        assert(kind@ == (RowKindView::Surgical { backend, domain: domains@[k as int]@ })) by {
            assert(kind->Surgical_domain@ =~= domains@[k as int]@);
        }
        add_doc(docs, units, &kind, to_string(&category), label, objective);
        assert(doc_views(docs@) =~= doc_views(old(docs)@) + surgical_docs(
            all,
            backend,
            views(domains@),
            objective@,
            k + 1,
        ));
        k += 1;
    }
}

fn fill(template: &String, hole: &str, with: &Vec<char>) -> (r: Vec<char>)
    ensures
        r@ == replace_seq(template@, hole@, with@),
{
    replace(&to_chars(template.as_str()), &to_chars(hole), with)
}

fn roles_text(taxonomy: &Vec<(String, TaxonomyRole)>) -> (r: Vec<char>)
    ensures
        r@ == role_list(taxonomy@, taxonomy@.len() as int),
{
    let mut out: Vec<char> = Vec::new();
    let mut i: usize = 0;
    while i < taxonomy.len()
        invariant
            i <= taxonomy.len(),
            out@ == role_list(taxonomy@, i as int),
        decreases taxonomy.len() - i,
    {
        let ghost before = out@;
        append_str(&mut out, "*   **");
        append_string(&mut out, &taxonomy[i].0);
        append_str(&mut out, "**: ");
        match &taxonomy[i].1.desc {
            Some(d) => {
                append_string(&mut out, d);
            },
            None => {},
        }
        append_str(&mut out, "\n");
        assert(out@ =~= role_list(taxonomy@, i + 1));
        i += 1;
    }
    out
}

fn signed_centi_chars(n: i64) -> (r: Vec<char>)
    ensures
        r@ == signed_centi(n as int),
{
    if n < 0 {
        let mut out = to_chars("-");
        let magnitude: u128 = (-(n as i128)) as u128;
        append(&mut out, &centi_chars(magnitude));
        out
    } else {
        centi_chars(n as u128)
    }
}

/// The tasks of a run, in the order in which they are to be taken up.
pub fn task_docs(
    units: &Vec<WorkUnit>,
    templates: &Templates,
    settings: &Settings,
    taxonomy: &Vec<(String, TaxonomyRole)>,
) -> (docs: Vec<TaskDoc>)
    ensures
        doc_views(docs@) == task_docs_of(unit_views(units@), *templates, *settings, taxonomy@),
{
    let s1 = fill(
        &templates.surgical_objective,
        "{nesting_w}",
        &centi_chars(settings.nesting_weight as u128),
    );
    let s2 = replace(&s1, &to_chars("{density_w}"), &centi_chars(settings.density_weight as u128));
    let surgical = to_string(
        &replace(&s2, &to_chars("{drag_t}"), &centi_chars(settings.drag_target as u128)),
    );
    let merge = to_string(
        &fill(
            &templates.merge_objective,
            "{merge_t}",
            &signed_centi_chars(settings.merge_score_threshold),
        ),
    );
    let ambiguity = to_string(&fill(&templates.ambiguity_objective, "{roles}", &roles_text(taxonomy)));
    let mut docs: Vec<TaskDoc> = Vec::new();
    assert(doc_views(docs@) =~= Seq::<TaskDocView>::empty());
    add_doc(
        &mut docs,
        units,
        &RowKind::Ambiguity,
        "Classify_Ambiguous_Files".to_owned(),
        "",
        &ambiguity,
    );
    add_doc(
        &mut docs,
        units,
        &RowKind::Structure { backend: false },
        "Structural_Refactor".to_owned(),
        "Frontend",
        &templates.structural_objective,
    );
    add_doc(
        &mut docs,
        units,
        &RowKind::Structure { backend: true },
        "Structural_Refactor".to_owned(),
        "Backend",
        &templates.structural_objective,
    );
    add_doc(
        &mut docs,
        units,
        &RowKind::Violation { backend: false },
        "Fix_Violations".to_owned(),
        "Frontend",
        &templates.violation_objective,
    );
    add_doc(
        &mut docs,
        units,
        &RowKind::Violation { backend: true },
        "Fix_Violations".to_owned(),
        "Backend",
        &templates.violation_objective,
    );
    add_surgical_docs(&mut docs, units, false, &surgical);
    add_surgical_docs(&mut docs, units, true, &surgical);
    add_doc(
        &mut docs,
        units,
        &RowKind::Merge { backend: false },
        "Merge_Folders".to_owned(),
        "Frontend",
        &merge,
    );
    add_doc(
        &mut docs,
        units,
        &RowKind::Merge { backend: true },
        "Merge_Folders".to_owned(),
        "Backend",
        &merge,
    );
    proof {
        reveal_strlit("");
        assert(""@ =~= Seq::<char>::empty());
    }
    docs
}

/// The name of a task without number and ending: the category, and the
/// platform in upper case behind it where there is one.
pub open spec fn full_name_of(category: Seq<char>, platform: Seq<char>) -> Seq<char> {
    if platform.len() == 0 {
        category
    } else {
        category + "_"@ + uppercase_of(platform)
    }
}

/// The index of the first name at or after `from` that holds `full`, or -1.
pub open spec fn existing_index(names: Seq<Seq<char>>, full: Seq<char>, from: int) -> int
    decreases names.len() - from,
{
    if from < 0 || from >= names.len() {
        -1
    } else if contains_seq(names[from], full) {
        from
    } else {
        existing_index(names, full, from + 1)
    }
}

/// What stands before the first `_` of a name.
pub open spec fn id_prefix(name: Seq<char>) -> Seq<char> {
    split_from(name, "_"@, 0)[0]
}

/// The value of a decimal digit, or -1.
pub open spec fn digit_value(c: char) -> int {
    if c == '0' {
        0
    } else if c == '1' {
        1
    } else if c == '2' {
        2
    } else if c == '3' {
        3
    } else if c == '4' {
        4
    } else if c == '5' {
        5
    } else if c == '6' {
        6
    } else if c == '7' {
        7
    } else if c == '8' {
        8
    } else if c == '9' {
        9
    } else {
        -1
    }
}

/// The number that the first `upto` characters of `t` spell in decimal, or -1
/// where one of them is no digit.
pub open spec fn number_of(t: Seq<char>, upto: int) -> int
    decreases upto,
{
    if upto <= 0 {
        0
    } else {
        let head = number_of(t, upto - 1);
        let d = digit_value(t[upto - 1]);
        if head < 0 || d < 0 {
            -1
        } else {
            head * 10 + d
        }
    }
}

/// The number of a task file: what its name spells before the first `_`, if
/// that is a number that fits.
pub open spec fn task_number(name: Seq<char>) -> Option<nat> {
    let p = id_prefix(name);
    let n = number_of(p, p.len() as int);
    if p.len() > 0 && 0 <= n <= usize::MAX {
        Some(n as nat)
    } else {
        None
    }
}

/// The greatest number among the first `upto` names, or 0.
pub open spec fn max_number(names: Seq<Seq<char>>, upto: int) -> nat
    decreases upto,
{
    if upto <= 0 {
        0
    } else {
        let rest = max_number(names, upto - 1);
        match task_number(names[upto - 1]) {
            Some(n) => if n > rest {
                n
            } else {
                rest
            },
            None => rest,
        }
    }
}

/// The number for a new task: one more than the greatest number in use, as
/// far as numbers go.
pub open spec fn next_number(pending: Seq<Seq<char>>, others: Seq<Seq<char>>) -> nat {
    let a = max_number(pending, pending.len() as int);
    let b = max_number(others, others.len() as int);
    let m = if a > b {
        a
    } else {
        b
    };
    if m < usize::MAX {
        m + 1
    } else {
        m
    }
}

/// The line of a task as it is written: a heading as it is, anything else
/// as an open item.
pub open spec fn written_line(line: Seq<char>) -> Seq<char> {
    if starts_with_seq(trim_seq(line), "#"@) {
        line + "\n"@
    } else {
        "- [ ] "@ + line + "\n"@
    }
}

pub open spec fn written_lines(lines: Seq<Seq<char>>, upto: int) -> Seq<char>
    decreases upto,
{
    if upto <= 0 {
        Seq::empty()
    } else {
        written_lines(lines, upto - 1) + written_line(lines[upto - 1])
    }
}

/// The text of a task file.
pub open spec fn task_body(id: Seq<char>, doc: TaskDocView) -> Seq<char> {
    "# Task "@ + id + ": "@ + replace_seq(full_name_of(doc.category, doc.platform), "_"@, " "@)
        + "\n\n## Objective\n"@ + doc.objective + "\n\n## Tasks\n"@ + written_lines(
        doc.lines,
        doc.lines.len() as int,
    )
}

/// The number of a task as its file name and heading show it: that of the
/// first pending file that holds its name already, else that of the first
/// such file in the other task directories, else the next number.
pub open spec fn task_id(doc: TaskDocView, pending: Seq<Seq<char>>, others: Seq<Seq<char>>) -> Seq<
    char,
> {
    let full = full_name_of(doc.category, doc.platform);
    let k = existing_index(pending, full, 0);
    let j = existing_index(others, full, 0);
    if 0 <= k < pending.len() {
        id_prefix(pending[k])
    } else if 0 <= j < others.len() {
        id_prefix(others[j])
    } else {
        decimal_padded(next_number(pending, others), 3)
    }
}

/// The name of the file of a task: that of the pending file that holds its
/// name already, or else a new one under the number of the task.
pub open spec fn task_file_name(
    doc: TaskDocView,
    pending: Seq<Seq<char>>,
    others: Seq<Seq<char>>,
) -> Seq<char> {
    let full = full_name_of(doc.category, doc.platform);
    let k = existing_index(pending, full, 0);
    if 0 <= k < pending.len() {
        pending[k]
    } else {
        task_id(doc, pending, others) + "_"@ + full + ".md"@
    }
}

/// The pending files once the task has its file.
pub open spec fn pending_with(
    doc: TaskDocView,
    pending: Seq<Seq<char>>,
    others: Seq<Seq<char>>,
) -> Seq<Seq<char>> {
    let k = existing_index(pending, full_name_of(doc.category, doc.platform), 0);
    if 0 <= k < pending.len() {
        pending
    } else {
        pending.push(task_file_name(doc, pending, others))
    }
}

/// The pending files once the first `upto` tasks have their files.
pub open spec fn pending_after(
    docs: Seq<TaskDocView>,
    pending: Seq<Seq<char>>,
    others: Seq<Seq<char>>,
    upto: int,
) -> Seq<Seq<char>>
    decreases upto,
{
    if upto <= 0 {
        pending
    } else {
        pending_with(docs[upto - 1], pending_after(docs, pending, others, upto - 1), others)
    }
}

pub struct DocumentView {
    pub name: Seq<char>,
    pub body: Seq<char>,
}

pub open spec fn document_views(files: Seq<Document>) -> Seq<DocumentView> {
    Seq::new(files.len(), |i: int| DocumentView { name: files[i].name@, body: files[i].body@ })
}

/// The files of the first `upto` tasks. Each task is placed among the
/// pending files as the tasks before it have left them.
pub open spec fn task_files_of(
    docs: Seq<TaskDocView>,
    pending: Seq<Seq<char>>,
    others: Seq<Seq<char>>,
    upto: int,
) -> Seq<DocumentView>
    decreases upto,
{
    if upto <= 0 {
        Seq::empty()
    } else {
        let now = pending_after(docs, pending, others, upto - 1);
        task_files_of(docs, pending, others, upto - 1).push(
            DocumentView {
                name: task_file_name(docs[upto - 1], now, others),
                body: task_body(task_id(docs[upto - 1], now, others), docs[upto - 1]),
            },
        )
    }
}

fn digit_of(c: char) -> (r: Option<u128>)
    ensures
        match r {
            Some(d) => d as int == digit_value(c) && d < 10,
            None => digit_value(c) == -1,
        },
{
    if c == '0' {
        Some(0)
    } else if c == '1' {
        Some(1)
    } else if c == '2' {
        Some(2)
    } else if c == '3' {
        Some(3)
    } else if c == '4' {
        Some(4)
    } else if c == '5' {
        Some(5)
    } else if c == '6' {
        Some(6)
    } else if c == '7' {
        Some(7)
    } else if c == '8' {
        Some(8)
    } else if c == '9' {
        Some(9)
    } else {
        None
    }
}

/// Once the number goes beyond `bound`, more digits keep it there, unless
/// one of them is no digit.
pub proof fn lemma_number_grows(t: Seq<char>, from: int, upto: int, bound: int)
    requires
        0 <= from <= upto <= t.len(),
        number_of(t, from) > bound,
        bound >= 0,
    ensures
        number_of(t, upto) > bound || number_of(t, upto) == -1,
    decreases upto - from,
{
    if from < upto {
        lemma_number_grows(t, from, upto - 1, bound);
    }
}

fn number_in(name: &Vec<char>) -> (r: Option<usize>)
    ensures
        match r {
            Some(n) => task_number(name@) == Some(n as nat),
            None => task_number(name@) is None,
        },
{
    let parts = split(name, &to_chars("_"));
    let p = &parts[0];
    assert(views(parts@)[0] == p@);
    if p.len() == 0 {
        return None;
    }
    let mut acc: u128 = 0;
    let mut i: usize = 0;
    while i < p.len()
        invariant
            i <= p.len(),
            p@ == id_prefix(name@),
            acc <= usize::MAX,
            acc as int == number_of(p@, i as int),
        decreases p.len() - i,
    {
        match digit_of(p[i]) {
            Some(d) => {
                let next: u128 = acc * 10 + d;
                if next > usize::MAX as u128 {
                    proof {
                        assert(number_of(p@, i + 1) == next);
                        lemma_number_grows(p@, i + 1, p@.len() as int, usize::MAX as int);
                    }
                    return None;
                }
                acc = next;
            },
            None => {
                proof {
                    assert(number_of(p@, i + 1) == -1);
                    lemma_not_a_number(p@, i + 1, p@.len() as int);
                }
                return None;
            },
        }
        i += 1;
    }
    Some(acc as usize)
}

/// Where the first characters spell no number, more characters spell none.
pub proof fn lemma_not_a_number(t: Seq<char>, from: int, upto: int)
    requires
        0 <= from <= upto <= t.len(),
        number_of(t, from) == -1,
    ensures
        number_of(t, upto) == -1,
    decreases upto - from,
{
    if from < upto {
        lemma_not_a_number(t, from, upto - 1);
    }
}

fn greatest_number(names: &Vec<Vec<char>>) -> (m: usize)
    ensures
        m as nat == max_number(views(names@), names@.len() as int),
{
    let mut m: usize = 0;
    let mut i: usize = 0;
    while i < names.len()
        invariant
            i <= names.len(),
            m as nat == max_number(views(names@), i as int),
        decreases names.len() - i,
    {
        assert(views(names@)[i as int] == names@[i as int]@);
        match number_in(&names[i]) {
            Some(n) => {
                if n > m {
                    m = n;
                }
            },
            None => {},
        }
        i += 1;
    }
    m
}

/// The greatest number among the task files of these names, or 0.
pub fn greatest_number_of(names: &Vec<String>) -> (m: usize)
    ensures
        m as nat == max_number(strs(names@), names@.len() as int),
{
    let mut chars: Vec<Vec<char>> = Vec::new();
    let mut i: usize = 0;
    while i < names.len()
        invariant
            i <= names.len(),
            chars.len() == i,
            forall|j: int| 0 <= j < i ==> (#[trigger] chars@[j])@ == names@[j]@,
        decreases names.len() - i,
    {
        chars.push(to_chars(names[i].as_str()));
        i += 1;
    }
    assert(views(chars@) =~= strs(names@));
    greatest_number(&chars)
}

fn full_name(doc: &TaskDoc) -> (r: Vec<char>)
    ensures
        r@ == full_name_of(doc.category@, doc.platform@),
{
    let mut out = to_chars(doc.category.as_str());
    let platform = to_chars(doc.platform.as_str());
    if platform.len() > 0 {
        append_str(&mut out, "_");
        append_string(&mut out, &uppercase(doc.platform.as_str()));
    }
    out
}

fn body_of(id: &Vec<char>, full: &Vec<char>, doc: &TaskDoc) -> (r: Vec<char>)
    requires
        full@ == full_name_of(doc.category@, doc.platform@),
    ensures
        r@ == task_body(id@, doc@),
{
    let mut out = to_chars("# Task ");
    append(&mut out, id);
    append_str(&mut out, ": ");
    append(&mut out, &replace(full, &to_chars("_"), &to_chars(" ")));
    append_str(&mut out, "\n\n## Objective\n");
    append_string(&mut out, &doc.objective);
    append_str(&mut out, "\n\n## Tasks\n");
    let ghost head = out@;
    let hash = to_chars("#");
    let mut i: usize = 0;
    assert(out@ =~= head + written_lines(strs(doc.lines@), 0));
    while i < doc.lines.len()
        invariant
            i <= doc.lines.len(),
            hash@ == "#"@,
            out@ == head + written_lines(strs(doc.lines@), i as int),
        decreases doc.lines.len() - i,
    {
        let line = to_chars(doc.lines[i].as_str());
        let ghost before = out@;
        if starts_with(&trim(&line), &hash) {
            append(&mut out, &line);
            append_str(&mut out, "\n");
        } else {
            append_str(&mut out, "- [ ] ");
            append(&mut out, &line);
            append_str(&mut out, "\n");
        }
        assert(out@ =~= head + (written_lines(strs(doc.lines@), i as int) + written_line(
            strs(doc.lines@)[i as int],
        )));
        i += 1;
    }
    out
}

/// The index of the first of `names` that holds `full`.
fn first_holding(names: &Vec<Vec<char>>, full: &Vec<char>) -> (r: Option<usize>)
    ensures
        match r {
            Some(j) => j < names.len() && j as int == existing_index(views(names@), full@, 0),
            None => !(0 <= existing_index(views(names@), full@, 0) < names.len()),
        },
{
    let ghost all = views(names@);
    let mut e: usize = 0;
    while e < names.len()
        invariant
            e <= names.len(),
            all == views(names@),
            existing_index(all, full@, e as int) == existing_index(all, full@, 0),
        decreases names.len() - e,
    {
        assert(all[e as int] == names@[e as int]@);
        if contains(&names[e], full) {
            return Some(e);
        }
        e += 1;
    }
    None
}

/// The files of the tasks, given the names of the files that are pending and
/// of those in the other task directories.
pub fn plan_task_files(docs: &Vec<TaskDoc>, pending: &Vec<String>, others: &Vec<String>) -> (files:
    Vec<Document>)
    ensures
        document_views(files@) == task_files_of(
            doc_views(docs@),
            strs(pending@),
            strs(others@),
            docs@.len() as int,
        ),
{
    let ghost all = doc_views(docs@);
    let ghost rest = strs(others@);
    let mut now: Vec<Vec<char>> = Vec::new();
    let mut i: usize = 0;
    while i < pending.len()
        invariant
            i <= pending.len(),
            now.len() == i,
            forall|j: int| 0 <= j < i ==> (#[trigger] now@[j])@ == pending@[j]@,
        decreases pending.len() - i,
    {
        now.push(to_chars(pending[i].as_str()));
        i += 1;
    }
    assert(views(now@) =~= strs(pending@));
    let mut other: Vec<Vec<char>> = Vec::new();
    i = 0;
    while i < others.len()
        invariant
            i <= others.len(),
            other.len() == i,
            forall|j: int| 0 <= j < i ==> (#[trigger] other@[j])@ == others@[j]@,
        decreases others.len() - i,
    {
        other.push(to_chars(others[i].as_str()));
        i += 1;
    }
    assert(views(other@) =~= rest);
    let other_max = greatest_number(&other);
    let mut files: Vec<Document> = Vec::new();
    let mut k: usize = 0;
    assert(document_views(files@) =~= task_files_of(all, strs(pending@), rest, 0));
    while k < docs.len()
        invariant
            k <= docs.len(),
            all == doc_views(docs@),
            rest == strs(others@),
            rest == views(other@),
            other_max as nat == max_number(rest, rest.len() as int),
            views(now@) == pending_after(all, strs(pending@), rest, k as int),
            document_views(files@) == task_files_of(all, strs(pending@), rest, k as int),
        decreases docs.len() - k,
    {
        let doc = &docs[k];
        assert(all[k as int] == doc@);
        let ghost here = views(now@);
        let full = full_name(doc);
        let mut e: usize = 0;
        while e < now.len() && !contains(&now[e], &full)
            invariant
                e <= now.len(),
                here == views(now@),
                existing_index(here, full@, e as int) == existing_index(here, full@, 0),
            decreases now.len() - e,
        {
            assert(here[e as int] == now@[e as int]@);
            e += 1;
        }
        let file = if e < now.len() {
            assert(here[e as int] == now@[e as int]@);
            let parts = split(&now[e], &to_chars("_"));
            assert(views(parts@)[0] == parts@[0]@);
            let id = &parts[0];
            Document { name: to_string(&now[e]), body: to_string(&body_of(id, &full, doc)) }
        } else {
            let id = match first_holding(&other, &full) {
                Some(j) => {
                    assert(rest[j as int] == other@[j as int]@);
                    let parts = split(&other[j], &to_chars("_"));
                    assert(views(parts@)[0] == parts@[0]@);
                    crate::text::slice(&parts[0], 0, parts[0].len())
                },
                None => {
                    let mine = greatest_number(&now);
                    let m = if mine > other_max {
                        mine
                    } else {
                        other_max
                    };
                    let next = if m < usize::MAX {
                        m + 1
                    } else {
                        m
                    };
                    decimal_chars_3(next as u128)
                },
            };
            assert(id@ == task_id(doc@, here, rest));
            let mut name: Vec<char> = Vec::new();
            append(&mut name, &id);
            append_str(&mut name, "_");
            append(&mut name, &full);
            append_str(&mut name, ".md");
            assert(name@ =~= id@ + "_"@ + full@ + ".md"@);
            let file = Document { name: to_string(&name), body: to_string(&body_of(&id, &full, doc)) };
            push_text(&mut now, name);
            file
        };
        assert(document_views(files@.push(file)) =~= document_views(files@).push(
            DocumentView { name: file.name@, body: file.body@ },
        ));
        files.push(file);
        k += 1;
    }
    files
}

/// A text that holds a pattern at some index holds it.
pub proof fn lemma_holds(s: Seq<char>, pat: Seq<char>, i: int)
    requires
        crate::text::has_at(s, pat, i),
    ensures
        contains_seq(s, pat),
{
    crate::text::lemma_find_spec(s, pat, 0);
}

/// Where no name before `upto` holds `full`, none is found.
pub proof fn lemma_existing_index(names: Seq<Seq<char>>, full: Seq<char>, from: int)
    requires
        0 <= from,
    ensures
        existing_index(names, full, from) == -1 || (from <= existing_index(names, full, from)
            < names.len() && contains_seq(names[existing_index(names, full, from)], full)),
        existing_index(names, full, from) == -1 ==> forall|j: int|
            from <= j < names.len() ==> !contains_seq(#[trigger] names[j], full),
    decreases names.len() - from,
{
    if from < names.len() && !contains_seq(names[from], full) {
        lemma_existing_index(names, full, from + 1);
    }
}

pub proof fn lemma_existing_after_push(
    names: Seq<Seq<char>>,
    extra: Seq<char>,
    full: Seq<char>,
    from: int,
)
    requires
        0 <= from <= names.len(),
    ensures
        existing_index(names.push(extra), full, from) == if existing_index(names, full, from)
            >= 0 {
            existing_index(names, full, from)
        } else if contains_seq(extra, full) {
            names.len() as int
        } else {
            -1
        },
    decreases names.len() - from,
{
    let longer = names.push(extra);
    if from < names.len() {
        assert(longer[from] == names[from]);
        if !contains_seq(names[from], full) {
            lemma_existing_after_push(names, extra, full, from + 1);
        }
    } else {
        assert(longer[from] == extra);
        assert(existing_index(longer, full, from + 1) == -1);
    }
}

/// What stands before the first `_` of a name holds no `_`.
pub proof fn lemma_prefix_is_plain(name: Seq<char>, j: int)
    requires
        0 <= j < id_prefix(name).len(),
    ensures
        id_prefix(name)[j] != '_',
{
    reveal_strlit("_");
    crate::text::lemma_find_spec(name, "_"@, 0);
    let k = crate::text::find_spec(name, "_"@, 0);
    if name[j] == '_' {
        assert(name.subrange(j, j + 1) =~= "_"@);
        assert(crate::text::has_at(name, "_"@, j));
    }
}

/// A number written in decimal holds no `_`.
pub proof fn lemma_decimal_is_plain(n: nat, j: int)
    requires
        0 <= j < decimal(n).len(),
    ensures
        decimal(n)[j] != '_',
    decreases n,
{
    if n >= 10 {
        if j < decimal(n / 10).len() {
            lemma_decimal_is_plain(n / 10, j);
        }
    }
}

pub proof fn lemma_padded_is_plain(n: nat, width: nat, j: int)
    requires
        0 <= j < decimal_padded(n, width).len(),
    ensures
        decimal_padded(n, width)[j] != '_',
    decreases width,
{
    if decimal(n).len() >= width {
        lemma_decimal_is_plain(n, j);
    } else if j > 0 {
        lemma_padded_is_plain(n, (width - 1) as nat, j - 1);
    }
}

/// The number of a task holds no `_`.
pub proof fn lemma_task_id_is_plain(
    doc: TaskDocView,
    pending: Seq<Seq<char>>,
    others: Seq<Seq<char>>,
    j: int,
)
    requires
        0 <= j < task_id(doc, pending, others).len(),
    ensures
        task_id(doc, pending, others)[j] != '_',
{
    let full = full_name_of(doc.category, doc.platform);
    let k = existing_index(pending, full, 0);
    let o = existing_index(others, full, 0);
    if 0 <= k < pending.len() {
        lemma_prefix_is_plain(pending[k], j);
    } else if 0 <= o < others.len() {
        lemma_prefix_is_plain(others[o], j);
    } else {
        lemma_padded_is_plain(next_number(pending, others), 3, j);
    }
}

/// A name that starts with a text without `_` and then `_` has that text
/// before its first `_`.
pub proof fn lemma_prefix_of_name(id: Seq<char>, rest: Seq<char>)
    requires
        forall|j: int| 0 <= j < id.len() ==> id[j] != '_',
    ensures
        id_prefix(id + "_"@ + rest) == id,
{
    reveal_strlit("_");
    let name = id + "_"@ + rest;
    let at = id.len() as int;
    crate::text::lemma_find_spec(name, "_"@, 0);
    assert(name.subrange(at, at + 1) =~= "_"@);
    assert(crate::text::has_at(name, "_"@, at));
    let k = crate::text::find_spec(name, "_"@, 0);
    if 0 <= k < at {
        assert(crate::text::has_at(name, "_"@, k));
        assert(name.subrange(k, k + 1)[0] == name[k]);
        assert(name[k] == id[k]);
    }
    assert(k == at);
    assert(name.subrange(0, at) =~= id);
}

/// A task keeps its file: once the file of a task is among the pending
/// files, the task is given the same file name and the same number again,
/// and the pending files stay as they are. So a second run on the same
/// units writes the same task files as the first.
pub proof fn lemma_task_name_stays(
    doc: TaskDocView,
    pending: Seq<Seq<char>>,
    others: Seq<Seq<char>>,
)
    ensures
        task_file_name(doc, pending_with(doc, pending, others), others) == task_file_name(
            doc,
            pending,
            others,
        ),
        task_id(doc, pending_with(doc, pending, others), others) == task_id(doc, pending, others),
        pending_with(doc, pending_with(doc, pending, others), others) == pending_with(
            doc,
            pending,
            others,
        ),
{
    let full = full_name_of(doc.category, doc.platform);
    let k = existing_index(pending, full, 0);
    lemma_existing_index(pending, full, 0);
    if !(0 <= k < pending.len()) {
        let id = task_id(doc, pending, others);
        let name = id + "_"@ + full + ".md"@;
        let at: int = (id.len() + "_"@.len()) as int;
        assert(crate::text::has_at(name, full, at)) by {
            assert(name.subrange(at, at + full.len()) =~= full);
        }
        lemma_holds(name, full, at);
        lemma_existing_after_push(pending, name, full, 0);
        assert forall|j: int| 0 <= j < id.len() implies id[j] != '_' by {
            lemma_task_id_is_plain(doc, pending, others, j);
        }
        lemma_prefix_of_name(id, full + ".md"@);
        assert(name =~= id + "_"@ + (full + ".md"@));
        let after = pending.push(name);
        assert(after[pending.len() as int] == name);
    }
}

/// The name is that of a task file of the planner.
pub open spec fn is_planner_task(name: Seq<char>) -> bool {
    contains_seq(name, "Surgical_Refactor_"@) || contains_seq(name, "Merge_Folders_"@)
        || contains_seq(name, "Fix_Violations_"@) || contains_seq(name, "Structural_Refactor_"@)
        || contains_seq(name, "Classify_Ambiguous_Files"@)
}

/// The left-over files among the first `upto` pending ones: task files of
/// the planner that this run did not write.
pub open spec fn zombies_of(pending: Seq<Seq<char>>, written: Seq<Seq<char>>, upto: int) -> Seq<
    Seq<char>,
>
    decreases upto,
{
    if upto <= 0 {
        Seq::empty()
    } else if is_planner_task(pending[upto - 1]) && !written.contains(pending[upto - 1]) {
        zombies_of(pending, written, upto - 1).push(pending[upto - 1])
    } else {
        zombies_of(pending, written, upto - 1)
    }
}

/// The pending files that are to be deleted: task files of the planner that
/// this run did not write.
pub fn find_zombies(pending: &Vec<String>, written: &Vec<String>) -> (gone: Vec<String>)
    ensures
        strs(gone@) == zombies_of(strs(pending@), strs(written@), pending@.len() as int),
{
    let mut wrote: Vec<Vec<char>> = Vec::new();
    let mut i: usize = 0;
    while i < written.len()
        invariant
            i <= written.len(),
            wrote.len() == i,
            forall|j: int| 0 <= j < i ==> (#[trigger] wrote@[j])@ == written@[j]@,
        decreases written.len() - i,
    {
        wrote.push(to_chars(written[i].as_str()));
        i += 1;
    }
    assert(views(wrote@) =~= strs(written@));
    let mut gone: Vec<String> = Vec::new();
    i = 0;
    assert(strs(gone@) =~= zombies_of(strs(pending@), strs(written@), 0));
    while i < pending.len()
        invariant
            i <= pending.len(),
            views(wrote@) == strs(written@),
            strs(gone@) == zombies_of(strs(pending@), strs(written@), i as int),
        decreases pending.len() - i,
    {
        let name = to_chars(pending[i].as_str());
        let ours = contains(&name, &to_chars("Surgical_Refactor_")) || contains(
            &name,
            &to_chars("Merge_Folders_"),
        ) || contains(&name, &to_chars("Fix_Violations_")) || contains(
            &name,
            &to_chars("Structural_Refactor_"),
        ) || contains(&name, &to_chars("Classify_Ambiguous_Files"));
        if ours && !crate::text::list_contains(&wrote, &name) {
            let item = pending[i].clone();
            proof {
                lemma_strs_push(gone@, item);
            }
            gone.push(item);
        }
        i += 1;
    }
    gone
}

/// Zombie elimination: of the task files of the planner, those that are
/// there after a run are those that the run wrote. A file is there after
/// the run if the run wrote it, or if it was pending and is not deleted.
pub proof fn lemma_zombie_elimination(
    pending: Seq<Seq<char>>,
    written: Seq<Seq<char>>,
    name: Seq<char>,
)
    requires
        is_planner_task(name),
    ensures
        (written.contains(name) || (pending.contains(name) && !zombies_of(
            pending,
            written,
            pending.len() as int,
        ).contains(name))) <==> written.contains(name),
{
    if pending.contains(name) && !written.contains(name) {
        let i = choose|i: int| 0 <= i < pending.len() && pending[i] == name;
        lemma_zombie_listed(pending, written, pending.len() as int, i);
    }
}

pub proof fn lemma_zombie_listed(
    pending: Seq<Seq<char>>,
    written: Seq<Seq<char>>,
    upto: int,
    i: int,
)
    requires
        0 <= i < upto <= pending.len(),
        is_planner_task(pending[i]),
        !written.contains(pending[i]),
    ensures
        zombies_of(pending, written, upto).contains(pending[i]),
    decreases upto,
{
    let now = zombies_of(pending, written, upto);
    if i == upto - 1 {
        assert(now[now.len() - 1] == pending[i]);
    } else {
        lemma_zombie_listed(pending, written, upto - 1, i);
        let prev = zombies_of(pending, written, upto - 1);
        let k = choose|k: int| 0 <= k < prev.len() && prev[k] == pending[i];
        assert(now[k] == pending[i]);
    }
}

} // verus!
