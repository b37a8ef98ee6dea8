//! The synthesizer: from what is known of each file to the work units of a
//! run.
//!
//! Quantities with a fractional part (drag, weights, factors, complexity) are
//! carried in hundredths.

use crate::consolidator::{
    cluster_views, clusters_of, clusters_ok, covered, dir_of, find_recursive_clusters,
    is_cluster_of, lemma_paths_count, maximal, paths_under, Cluster, ClusterView, FileInfo,
};
use crate::drivers::{strip_chars, strip_spec, CommonMetrics, MetricsView};
use crate::consolidator::merge_score;
use crate::order::{sort_all, sort_texts};
use crate::paths::{
    component_count, components, directory, directory_of, extension_or_blank,
    extension_or_empty, file_name, file_name_of, file_stem, file_stem_of,
};
use crate::text::{centi_chars, views};
use crate::text::{lemma_strs_push, replace, replace_seq, same_text};
use crate::text::{
    append, append_centi, append_number, append_str, append_string, centi, contains,
    contains_seq, decimal, str_contains, str_eq, strs, to_chars, to_string,
};
use crate::units::{lemma_unit_views_push, unit_views, UnitView, WorkUnit};
use vstd::prelude::*;

verus! {

/// The thresholds of a run. Weights, the drag target and the merge score
/// threshold are in hundredths.
pub struct Settings {
    pub min_dead_code_loc: usize,
    pub base_loc_limit: usize,
    pub hard_ceiling_loc: usize,
    pub soft_floor_loc: usize,
    pub merge_score_threshold: i64,
    pub nesting_weight: u64,
    pub density_weight: u64,
    pub drag_target: u64,
    pub state_weight: u64,
    pub max_depth_threshold: usize,
}

/// A rule for the paths that hold `pattern`: a fixed limit, a multiplier in
/// hundredths, or both.
pub struct ExceptionRule {
    pub pattern: String,
    pub max_loc: Option<usize>,
    pub multiplier: Option<u64>,
}

/// The index of the first rule at or after `from` whose pattern `path`
/// holds, or -1.
pub open spec fn first_rule(rules: Seq<ExceptionRule>, path: Seq<char>, from: int) -> int
    decreases rules.len() - from,
{
    if from < 0 || from >= rules.len() {
        -1
    } else if contains_seq(path, rules[from].pattern@) {
        from
    } else {
        first_rule(rules, path, from + 1)
    }
}

/// The limit that the rules pin the path to, if they pin it: the fixed limit
/// of the first rule that applies to it.
pub open spec fn pinned(rules: Seq<ExceptionRule>, path: Seq<char>) -> Option<nat> {
    let k = first_rule(rules, path, 0);
    if 0 <= k < rules.len() {
        match rules[k].max_loc {
            Some(m) => Some(m as nat),
            None => None,
        }
    } else {
        None
    }
}

/// The size budget of a file.
///
/// `raw` is the budget as drag, role and cohesion give it. A rule that pins
/// the path decides alone: the budget is the limit it gives. Otherwise the
/// budget is `raw`, raised to the soft floor and held at the hard ceiling.
pub open spec fn dynamic_limit(
    raw: nat,
    soft_floor: nat,
    hard_ceiling: nat,
    rules: Seq<ExceptionRule>,
    path: Seq<char>,
) -> nat {
    match pinned(rules, path) {
        Some(m) => m,
        None => {
            let floored = if raw > soft_floor {
                raw
            } else {
                soft_floor
            };
            if floored < hard_ceiling {
                floored
            } else {
                hard_ceiling
            }
        },
    }
}

/// Unless a rule pins it, the budget stays between the soft floor and the
/// hard ceiling; where a rule pins it, it is the pinned limit.
pub proof fn lemma_budget_clamp(
    raw: nat,
    soft_floor: nat,
    hard_ceiling: nat,
    rules: Seq<ExceptionRule>,
    path: Seq<char>,
)
    requires
        soft_floor <= hard_ceiling,
    ensures
        pinned(rules, path) is None ==> soft_floor <= dynamic_limit(
            raw,
            soft_floor,
            hard_ceiling,
            rules,
            path,
        ) <= hard_ceiling,
        pinned(rules, path) is Some ==> dynamic_limit(raw, soft_floor, hard_ceiling, rules, path)
            == pinned(rules, path)->Some_0,
{
}

/// The index of the first rule that applies to `path`.
pub fn matching_rule(rules: &Vec<ExceptionRule>, path: &str) -> (r: Option<usize>)
    ensures
        match r {
            Some(k) => k as int == first_rule(rules@, path@, 0) && k < rules.len(),
            None => first_rule(rules@, path@, 0) == -1,
        },
{
    let chars = to_chars(path);
    let mut k: usize = 0;
    while k < rules.len()
        invariant
            k <= rules.len(),
            chars@ == path@,
            first_rule(rules@, path@, k as int) == first_rule(rules@, path@, 0),
        decreases rules.len() - k,
    {
        if contains(&chars, &to_chars(rules[k].pattern.as_str())) {
            return Some(k);
        }
        k += 1;
    }
    None
}

/// The size budget of the file at `path`, given the budget `raw` that drag,
/// role and cohesion give it.
pub fn calculate_dynamic_limit(
    raw: usize,
    settings: &Settings,
    exceptions: &Vec<ExceptionRule>,
    path: &str,
) -> (limit: usize)
    ensures
        limit as nat == dynamic_limit(
            raw as nat,
            settings.soft_floor_loc as nat,
            settings.hard_ceiling_loc as nat,
            exceptions@,
            path@,
        ),
{
    match matching_rule(exceptions, path) {
        Some(k) => {
            match exceptions[k].max_loc {
                Some(m) => {
                    return m;
                },
                None => {},
            }
        },
        None => {},
    }
    let floored = if raw > settings.soft_floor_loc {
        raw
    } else {
        settings.soft_floor_loc
    };
    if floored < settings.hard_ceiling_loc {
        floored
    } else {
        settings.hard_ceiling_loc
    }
}

/// A file of the registry: its path, its text, its role, what its driver
/// reported, its platform, and the name of its driver.
pub struct FileRecord {
    pub path: String,
    pub content: String,
    pub role: String,
    pub metrics: CommonMetrics,
    pub platform: String,
    pub driver: String,
}

/// What weighs on a file, all in hundredths but the budget: its drag, its
/// drag as a member of a pod, the multiplier of its role and rules, the
/// nesting and density factors, its coupling, and the size budget that these
/// give it before floor, rules and ceiling.
pub struct FileLoad {
    pub drag: u64,
    pub pod_drag: u64,
    pub p_mod: u64,
    pub nesting_factor: u64,
    pub density_factor: u64,
    pub coupling: u64,
    pub raw_limit: usize,
}

/// The reason that goes with a dead file.
pub open spec fn dead_reason(loc: nat) -> Seq<char> {
    "Unreachable Module. Not referenced by any entry point. (LOC: "@ + decimal(loc) + ")"@
}

/// What the hotspot of a file adds to a reason: the symbol with its reason,
/// or else the lines with theirs.
pub open spec fn hotspot_note(m: MetricsView) -> Seq<char> {
    match m.hotspot_symbol {
        Some(symbol) => "  🎯 Target: "@ + symbol + " ("@ + (match m.hotspot_reason {
            Some(r) => r,
            None => "Complex Logic"@,
        }) + ")"@,
        None => match m.hotspot_lines {
            Some((a, b)) => "  Hotspot: Lines "@ + decimal(a) + "-"@ + decimal(b) + " ("@ + (
            match m.hotspot_reason {
                Some(r) => r,
                None => Seq::empty(),
            }) + ")"@,
            None => Seq::empty(),
        },
    }
}

/// The reason that goes with a file over its budget.
pub open spec fn bloat_reason(load: FileLoad, limit: nat, m: MetricsView) -> Seq<char> {
    "[Nesting: "@ + centi(load.nesting_factor as nat) + ", Density: "@ + centi(
        load.density_factor as nat,
    ) + ", Coupling: "@ + centi(load.coupling as nat) + "] | Drag: "@ + centi(load.drag as nat)
        + " | LOC: "@ + decimal(m.loc) + "/"@ + decimal(limit) + hotspot_note(m)
}

/// `n`, held at `u64::MAX`.
pub open spec fn capped(n: nat) -> nat {
    if n > u64::MAX {
        u64::MAX as nat
    } else {
        n
    }
}

/// The file is dead weight: no entry point reaches it, and it is longer than
/// what is let pass.
pub open spec fn is_dead_weight(loc: nat, is_dead: bool, min_dead_code_loc: nat) -> bool {
    is_dead && loc > min_dead_code_loc
}

/// The file is over its budget, and nothing else is wrong with it that
/// comes first.
pub open spec fn is_bloated(
    role: Seq<char>,
    loc: nat,
    limit: nat,
    is_dead: bool,
    min_dead_code_loc: nat,
) -> bool {
    !is_dead_weight(loc, is_dead, min_dead_code_loc) && loc > limit && role != "unknown"@
}

/// The surgical unit of a file, if it needs surgery: `Audit & Delete` for
/// dead weight, else `De-bloat` for a file of known role over its budget,
/// whose complexity is a tenth of the excess plus the drag.
pub open spec fn surgical_unit(
    r: FileRecord,
    load: FileLoad,
    limit: nat,
    is_dead: bool,
    min_dead_code_loc: nat,
) -> Option<UnitView> {
    let loc = r.metrics@.loc;
    if is_dead_weight(loc, is_dead, min_dead_code_loc) {
        Some(
            UnitView::Surgical {
                file: r.path@,
                action: "Audit & Delete"@,
                reason: dead_reason(loc),
                strategy: Seq::empty(),
                platform: r.platform@,
                complexity: 0,
            },
        )
    } else if is_bloated(r.role@, loc, limit, is_dead, min_dead_code_loc) {
        Some(
            UnitView::Surgical {
                file: r.path@,
                action: "De-bloat"@,
                reason: bloat_reason(load, limit, r.metrics@),
                strategy: Seq::empty(),
                platform: r.platform@,
                complexity: capped(((loc - limit) * 10 + load.drag) as nat),
            },
        )
    } else {
        None
    }
}

/// Whether the quote `'` opens a string in files of this driver.
pub open spec fn single_quote_strings(driver: Seq<char>) -> bool {
    driver != "rescript"@ && driver != "rust"@
}

/// The violations of a file: one for each of the first `upto` forbidden
/// patterns that its text holds outside comments and strings.
pub open spec fn violations(r: FileRecord, forbidden: Seq<String>, upto: int) -> Seq<UnitView>
    decreases upto,
{
    if upto <= 0 {
        Seq::empty()
    } else {
        let before = violations(r, forbidden, upto - 1);
        if contains_seq(
            strip_spec(r.content@, single_quote_strings(r.driver@)),
            forbidden[upto - 1]@,
        ) {
            before.push(
                UnitView::Violation {
                    file: r.path@,
                    pattern: forbidden[upto - 1]@,
                    strategy: Seq::empty(),
                },
            )
        } else {
            before
        }
    }
}

/// The units of one file: an ambiguity where the role is unknown, then the
/// surgical unit, then the violations.
pub open spec fn file_units_of(
    r: FileRecord,
    load: FileLoad,
    limit: nat,
    is_dead: bool,
    min_dead_code_loc: nat,
    forbidden: Seq<String>,
) -> Seq<UnitView> {
    let head = if r.role@ == "unknown"@ {
        seq![UnitView::Ambiguity { file: r.path@, strategy: Seq::empty() }]
    } else {
        Seq::empty()
    };
    let cut = match surgical_unit(r, load, limit, is_dead, min_dead_code_loc) {
        Some(u) => seq![u],
        None => Seq::empty(),
    };
    head + cut + violations(r, forbidden, forbidden.len() as int)
}

/// What the synthesizer makes of one file.
pub struct FileOutcome {
    /// The units of the file, in the order in which they are planned.
    pub units: Vec<WorkUnit>,
    /// The size budget of the file.
    pub limit: usize,
    /// Whether one of the units is surgical.
    pub surgical: bool,
}

fn note_of(m: &CommonMetrics) -> (r: Vec<char>)
    ensures
        r@ == hotspot_note(m@),
{
    let mut out: Vec<char> = Vec::new();
    match &m.hotspot_symbol {
        Some(symbol) => {
            append_str(&mut out, "  🎯 Target: ");
            append_string(&mut out, symbol);
            append_str(&mut out, " (");
            match &m.hotspot_reason {
                Some(r) => {
                    append_string(&mut out, r);
                },
                None => {
                    append_str(&mut out, "Complex Logic");
                },
            }
            append_str(&mut out, ")");
            assert(out@ =~= hotspot_note(m@));
        },
        None => {
            match m.hotspot_lines {
                Some((a, b)) => {
                    append_str(&mut out, "  Hotspot: Lines ");
                    append_number(&mut out, a);
                    append_str(&mut out, "-");
                    append_number(&mut out, b);
                    append_str(&mut out, " (");
                    match &m.hotspot_reason {
                        Some(r) => {
                            append_string(&mut out, r);
                        },
                        None => {},
                    }
                    append_str(&mut out, ")");
                    assert(out@ =~= hotspot_note(m@));
                },
                None => {
                    assert(out@ =~= hotspot_note(m@));
                },
            }
        },
    }
    out
}

fn bloat_text(load: &FileLoad, limit: usize, m: &CommonMetrics) -> (r: String)
    ensures
        r@ == bloat_reason(*load, limit as nat, m@),
{
    let mut out = to_chars("[Nesting: ");
    append_centi(&mut out, load.nesting_factor);
    append_str(&mut out, ", Density: ");
    append_centi(&mut out, load.density_factor);
    append_str(&mut out, ", Coupling: ");
    append_centi(&mut out, load.coupling);
    append_str(&mut out, "] | Drag: ");
    append_centi(&mut out, load.drag);
    append_str(&mut out, " | LOC: ");
    append_number(&mut out, m.loc);
    append_str(&mut out, "/");
    append_number(&mut out, limit);
    let note = note_of(m);
    append(&mut out, &note);
    to_string(&out)
}

fn dead_text(loc: usize) -> (r: String)
    ensures
        r@ == dead_reason(loc as nat),
{
    let mut out = to_chars("Unreachable Module. Not referenced by any entry point. (LOC: ");
    append_number(&mut out, loc);
    append_str(&mut out, ")");
    to_string(&out)
}

/// The units of one file, its budget, and whether it needs surgery.
pub fn file_units(
    record: &FileRecord,
    load: &FileLoad,
    is_dead: bool,
    settings: &Settings,
    exceptions: &Vec<ExceptionRule>,
    forbidden: &Vec<String>,
) -> (out: FileOutcome)
    ensures
        out.limit as nat == dynamic_limit(
            load.raw_limit as nat,
            settings.soft_floor_loc as nat,
            settings.hard_ceiling_loc as nat,
            exceptions@,
            record.path@,
        ),
        unit_views(out.units@) == file_units_of(
            *record,
            *load,
            out.limit as nat,
            is_dead,
            settings.min_dead_code_loc as nat,
            forbidden@,
        ),
        out.surgical == surgical_unit(
            *record,
            *load,
            out.limit as nat,
            is_dead,
            settings.min_dead_code_loc as nat,
        ) is Some,
{
    let limit = calculate_dynamic_limit(load.raw_limit, settings, exceptions, record.path.as_str());
    let loc = record.metrics.loc;
    let unknown = str_eq(record.role.as_str(), "unknown");
    let mut units: Vec<WorkUnit> = Vec::new();
    let ghost want_head = if record.role@ == "unknown"@ {
        seq![UnitView::Ambiguity { file: record.path@, strategy: Seq::empty() }]
    } else {
        Seq::empty()
    };
    if unknown {
        units.push(WorkUnit::Ambiguity { file: record.path.clone(), strategy: String::new() });
    }
    assert(unit_views(units@) =~= want_head);
    let mut surgical = false;
    if is_dead && loc > settings.min_dead_code_loc {
        surgical = true;
        let unit = WorkUnit::Surgical {
            file: record.path.clone(),
            action: "Audit & Delete".to_owned(),
            reason: dead_text(loc),
            strategy: String::new(),
            platform: record.platform.clone(),
            complexity: 0,
        };
        proof {
            lemma_unit_views_push(units@, unit);
        }
        units.push(unit);
    } else if loc > limit && !unknown {
        surgical = true;
        let excess: u128 = ((loc - limit) as u128) * 10 + (load.drag as u128);
        let complexity: u64 = if excess > u64::MAX as u128 {
            u64::MAX
        } else {
            excess as u64
        };
        let unit = WorkUnit::Surgical {
            file: record.path.clone(),
            action: "De-bloat".to_owned(),
            reason: bloat_text(load, limit, &record.metrics),
            strategy: String::new(),
            platform: record.platform.clone(),
            complexity,
        };
        proof {
            lemma_unit_views_push(units@, unit);
        }
        units.push(unit);
    }
    let ghost want_cut = match surgical_unit(
        *record,
        *load,
        limit as nat,
        is_dead,
        settings.min_dead_code_loc as nat,
    ) {
        Some(u) => seq![u],
        None => Seq::empty(),
    };
    assert(unit_views(units@) =~= want_head + want_cut);
    let single = !str_eq(record.driver.as_str(), "rescript") && !str_eq(
        record.driver.as_str(),
        "rust",
    );
    let stripped = strip_chars(&to_chars(record.content.as_str()), single);
    let mut k: usize = 0;
    assert(unit_views(units@) =~= want_head + want_cut + violations(*record, forbidden@, 0));
    while k < forbidden.len()
        invariant
            k <= forbidden.len(),
            stripped@ == strip_spec(record.content@, single_quote_strings(record.driver@)),
            unit_views(units@) == want_head + want_cut + violations(
                *record,
                forbidden@,
                k as int,
            ),
        decreases forbidden.len() - k,
    {
        if contains(&stripped, &to_chars(forbidden[k].as_str())) {
            let unit = WorkUnit::Violation {
                file: record.path.clone(),
                pattern: forbidden[k].clone(),
                strategy: String::new(),
            };
            proof {
                lemma_unit_views_push(units@, unit);
                assert((want_head + want_cut + violations(*record, forbidden@, k as int)).push(
                    unit@,
                ) =~= want_head + want_cut + violations(*record, forbidden@, k + 1));
            }
            units.push(unit);
        }
        k += 1;
    }
    FileOutcome { units, limit, surgical }
}

/// Where a file stands once its own units are known.
pub struct Standing {
    pub path: String,
    pub loc: usize,
    pub platform: String,
    pub drag: u64,
    pub pod_drag: u64,
    pub p_mod: u64,
    pub role_known: bool,
    pub surgical: bool,
    pub dead: bool,
}

/// Where the file of `record` stands, given what weighs on it and what the
/// synthesizer made of it.
pub fn standing_of(record: &FileRecord, load: &FileLoad, is_dead: bool, surgical: bool) -> (s:
    Standing)
    ensures
        s.path == record.path,
        s.loc == record.metrics.loc,
        s.platform == record.platform,
        s.drag == load.drag,
        s.pod_drag == load.pod_drag,
        s.p_mod == load.p_mod,
        s.role_known == (record.role@ != "unknown"@),
        s.surgical == surgical,
        s.dead == is_dead,
{
    Standing {
        path: record.path.clone(),
        loc: record.metrics.loc,
        platform: record.platform.clone(),
        drag: load.drag,
        pod_drag: load.pod_drag,
        p_mod: load.p_mod,
        role_known: !str_eq(record.role.as_str(), "unknown"),
        surgical,
        dead: is_dead,
    }
}

/// A file may join a pod unless it is dead or needs surgery.
pub open spec fn pod_eligible(s: Standing) -> bool {
    !s.dead && !s.surgical
}

/// The file may join the pods of `platform` and `ext`.
pub open spec fn in_pod_group(s: Standing, platform: Seq<char>, ext: Seq<char>) -> bool {
    pod_eligible(s) && s.platform@ == platform && extension_or_empty(s.path@) == ext
}

/// The files among the first `upto` that may join the pods of `platform` and
/// `ext`, as the cluster detector sees them.
pub open spec fn pod_infos(
    st: Seq<Standing>,
    platform: Seq<char>,
    ext: Seq<char>,
    upto: int,
) -> Seq<FileInfo>
    decreases upto,
{
    if upto <= 0 {
        Seq::empty()
    } else if in_pod_group(st[upto - 1], platform, ext) {
        pod_infos(st, platform, ext, upto - 1).push(
            FileInfo {
                path: st[upto - 1].path,
                loc: st[upto - 1].loc,
                drag: st[upto - 1].pod_drag,
            },
        )
    } else {
        pod_infos(st, platform, ext, upto - 1)
    }
}

/// A cluster among the files of one platform and one extension.
pub struct Pod {
    pub platform: String,
    pub extension: String,
    pub cluster: Cluster,
}

/// A `Pod` with its texts as sequences of characters.
pub struct PodView {
    pub platform: Seq<char>,
    pub extension: Seq<char>,
    pub cluster: ClusterView,
}

impl View for Pod {
    type V = PodView;

    open spec fn view(&self) -> PodView {
        PodView {
            platform: self.platform@,
            extension: self.extension@,
            cluster: self.cluster@,
        }
    }
}

pub open spec fn pod_views(pods: Seq<Pod>) -> Seq<PodView> {
    Seq::new(pods.len(), |i: int| pods[i]@)
}

/// The file at `i` is the first of its platform and extension that may join
/// a pod.
pub open spec fn leads_pod_group(st: Seq<Standing>, i: int) -> bool {
    pod_eligible(st[i]) && forall|j: int|
        0 <= j < i ==> !in_pod_group(
            #[trigger] st[j],
            st[i].platform@,
            extension_or_empty(st[i].path@),
        )
}

/// The pods of the platform and extension of the file at `i`: the clusters
/// among the files of that platform and extension that may join a pod.
pub open spec fn group_pods(st: Seq<Standing>, i: int, budget: nat) -> Seq<PodView> {
    let platform = st[i].platform@;
    let extension = extension_or_empty(st[i].path@);
    let infos = pod_infos(st, platform, extension, st.len() as int);
    let clusters = clusters_of(infos, budget, infos.len() as int);
    Seq::new(clusters.len(), |k: int| PodView { platform, extension, cluster: clusters[k] })
}

/// The pods of the groups that start within the first `upto` files, group
/// after group.
pub open spec fn pods_of(st: Seq<Standing>, budget: nat, upto: int) -> Seq<PodView>
    decreases upto,
{
    if upto <= 0 {
        Seq::empty()
    } else if leads_pod_group(st, upto - 1) {
        pods_of(st, budget, upto - 1) + group_pods(st, upto - 1, budget)
    } else {
        pods_of(st, budget, upto - 1)
    }
}

/// `pod` is the cluster of the subtree of `root` among the files of its
/// platform and extension, a subtree that fits with nothing around it that
/// fits.
pub open spec fn is_pod(st: Seq<Standing>, pod: Pod, root: Seq<Seq<char>>, budget: nat) -> bool {
    let infos = pod_infos(st, pod.platform@, pod.extension@, st.len() as int);
    maximal(infos, root, budget) && is_cluster_of(pod.cluster, infos, root)
}

/// Every file of a group stands for a file that may join a pod.
pub proof fn lemma_pod_infos(
    st: Seq<Standing>,
    platform: Seq<char>,
    ext: Seq<char>,
    upto: int,
    k: int,
)
    requires
        0 <= upto <= st.len(),
        0 <= k < pod_infos(st, platform, ext, upto).len(),
    ensures
        exists|i: int|
            0 <= i < upto && in_pod_group(#[trigger] st[i], platform, ext) && st[i].path
                == pod_infos(st, platform, ext, upto)[k].path,
    decreases upto,
{
    let prev = pod_infos(st, platform, ext, upto - 1);
    if in_pod_group(st[upto - 1], platform, ext) && k == prev.len() {
        assert(in_pod_group(st[upto - 1], platform, ext));
    } else {
        lemma_pod_infos(st, platform, ext, upto - 1, k);
        let i = choose|i: int|
            0 <= i < upto - 1 && in_pod_group(#[trigger] st[i], platform, ext) && st[i].path
                == prev[k].path;
        assert(in_pod_group(st[i], platform, ext));
    }
}

/// A path under a subtree of a group is the path of a file of the group.
pub proof fn lemma_path_is_of_group(files: Seq<FileInfo>, p: Seq<Seq<char>>, upto: int, x: Seq<char>)
    requires
        0 <= upto <= files.len(),
        paths_under(files, p, upto).contains(x),
    ensures
        exists|k: int| 0 <= k < upto && (#[trigger] files[k]).path@ == x,
    decreases upto,
{
    let prev = paths_under(files, p, upto - 1);
    let now = paths_under(files, p, upto);
    let i = choose|i: int| 0 <= i < now.len() && now[i] == x;
    if crate::consolidator::inside(files[upto - 1], p) && i == prev.len() {
        assert(files[upto - 1].path@ == x);
    } else {
        assert(prev[i] == x);
        lemma_path_is_of_group(files, p, upto - 1, x);
        let k = choose|k: int| 0 <= k < upto - 1 && (#[trigger] files[k]).path@ == x;
        assert(files[k].path@ == x);
    }
}

/// Every path of the pod belongs to a file that may join a pod.
pub open spec fn pod_is_clean(st: Seq<Standing>, pod: Pod) -> bool {
    forall|x: Seq<char>|
        strs(pod.cluster.files@).contains(x) ==> exists|i: int|
            0 <= i < st.len() && pod_eligible(#[trigger] st[i]) && st[i].path@ == x
}

fn group_infos(st: &Vec<Standing>, exts: &Vec<Vec<char>>, lead: usize) -> (infos: Vec<FileInfo>)
    requires
        lead < st.len(),
        exts.len() == st.len(),
        forall|i: int| 0 <= i < exts.len() ==> (#[trigger] exts@[i])@ == extension_or_empty(
            st@[i].path@,
        ),
    ensures
        infos@ == pod_infos(
            st@,
            st@[lead as int].platform@,
            extension_or_empty(st@[lead as int].path@),
            st@.len() as int,
        ),
{
    let ghost platform = st@[lead as int].platform@;
    let ghost ext = extension_or_empty(st@[lead as int].path@);
    let mut infos: Vec<FileInfo> = Vec::new();
    let mut i: usize = 0;
    while i < st.len()
        invariant
            i <= st.len(),
            lead < st.len(),
            exts.len() == st.len(),
            platform == st@[lead as int].platform@,
            ext == extension_or_empty(st@[lead as int].path@),
            forall|i: int| 0 <= i < exts.len() ==> (#[trigger] exts@[i])@ == extension_or_empty(
                st@[i].path@,
            ),
            infos@ == pod_infos(st@, platform, ext, i as int),
        decreases st.len() - i,
    {
        let s = &st[i];
        if !s.dead && !s.surgical && s.platform == st[lead].platform && crate::text::same_text(
            &exts[i],
            &exts[lead],
        ) {
            infos.push(FileInfo { path: s.path.clone(), loc: s.loc, drag: s.pod_drag });
        }
        i += 1;
    }
    infos
}

/// Every subtree around a file of the group of `platform` and `ext` that
/// fits, with nothing around it that fits, has its pod.
pub open spec fn group_covered(
    st: Seq<Standing>,
    pods: Seq<Pod>,
    platform: Seq<char>,
    ext: Seq<char>,
    budget: nat,
) -> bool {
    let infos = pod_infos(st, platform, ext, st.len() as int);
    forall|p: int, n: int|
        #![trigger dir_of(infos[p].path@).take(n)]
        0 <= p < infos.len() && 0 <= n <= dir_of(infos[p].path@).len() && maximal(
            infos,
            dir_of(infos[p].path@).take(n),
            budget,
        ) ==> exists|k: int|
            0 <= k < pods.len() && is_pod(
                st,
                #[trigger] pods[k],
                dir_of(infos[p].path@).take(n),
                budget,
            ) && pods[k].platform@ == platform && pods[k].extension@ == ext
}

/// A pod is what it should be: the cluster of a subtree that fits with
/// nothing around it that fits, of files that may join a pod.
pub open spec fn pod_ok(st: Seq<Standing>, pod: Pod, budget: nat) -> bool {
    &&& exists|root: Seq<Seq<char>>| is_pod(st, pod, root, budget)
    &&& pod_is_clean(st, pod)
    &&& pod.cluster.total_loc <= budget
    &&& pod.cluster.files@.len() > 1
}

/// More pods cover what fewer pods cover.
pub proof fn lemma_covered_grows(
    st: Seq<Standing>,
    fewer: Seq<Pod>,
    more: Seq<Pod>,
    platform: Seq<char>,
    ext: Seq<char>,
    budget: nat,
)
    requires
        group_covered(st, fewer, platform, ext, budget),
        fewer.len() <= more.len(),
        forall|k: int| 0 <= k < fewer.len() ==> more[k] == fewer[k],
    ensures
        group_covered(st, more, platform, ext, budget),
{
    let infos = pod_infos(st, platform, ext, st.len() as int);
    assert forall|p: int, n: int|
        #![trigger dir_of(infos[p].path@).take(n)]
        0 <= p < infos.len() && 0 <= n <= dir_of(infos[p].path@).len() && maximal(
            infos,
            dir_of(infos[p].path@).take(n),
            budget,
        ) implies exists|k: int|
        0 <= k < more.len() && is_pod(st, #[trigger] more[k], dir_of(infos[p].path@).take(n), budget)
            && more[k].platform@ == platform && more[k].extension@ == ext by {
        let root = dir_of(infos[p].path@).take(n);
        let k = choose|k: int|
            0 <= k < fewer.len() && is_pod(st, #[trigger] fewer[k], root, budget)
                && fewer[k].platform@ == platform && fewer[k].extension@ == ext;
        assert(more[k] == fewer[k]);
    }
}

fn process_group(
    st: &Vec<Standing>,
    exts: &Vec<Vec<char>>,
    lead: usize,
    hard_ceiling: usize,
    pods: &mut Vec<Pod>,
)
    requires
        lead < st.len(),
        exts.len() == st.len(),
        forall|i: int| 0 <= i < exts.len() ==> (#[trigger] exts@[i])@ == extension_or_empty(
            st@[i].path@,
        ),
        forall|k: int|
            0 <= k < old(pods).len() ==> pod_ok(st@, #[trigger] old(pods)@[k], hard_ceiling as nat),
    ensures
        old(pods)@.len() <= final(pods)@.len(),
        forall|k: int| 0 <= k < old(pods)@.len() ==> final(pods)@[k] == old(pods)@[k],
        forall|k: int|
            0 <= k < final(pods).len() ==> pod_ok(
                st@,
                #[trigger] final(pods)@[k],
                hard_ceiling as nat,
            ),
        group_covered(
            st@,
            final(pods)@,
            st@[lead as int].platform@,
            extension_or_empty(st@[lead as int].path@),
            hard_ceiling as nat,
        ),
        pod_views(final(pods)@) == pod_views(old(pods)@) + group_pods(
            st@,
            lead as int,
            hard_ceiling as nat,
        ),
{
    let ghost budget = hard_ceiling as nat;
    let ghost platform = st@[lead as int].platform@;
    let ghost ext = extension_or_empty(st@[lead as int].path@);
    let infos = group_infos(st, exts, lead);
    let ghost files = infos@;
    let mut clusters = find_recursive_clusters(infos, hard_ceiling);
    let ghost all = clusters@;
    let ghost roots = choose|roots: Seq<Seq<Seq<char>>>|
        #![trigger clusters_ok(files, all, roots, budget)]
        clusters_ok(files, all, roots, budget) && covered(files, roots, budget, files.len() as int);
    let ghost before = pods@;
    let extension = to_string(&exts[lead]);
    let ghost mut m: int = 0;
    while clusters.len() > 0
        invariant
            lead < st.len(),
            platform == st@[lead as int].platform@,
            extension@ == ext,
            m + clusters@.len() == all.len(),
            0 <= m,
            clusters@ == all.subrange(m, all.len() as int),
            pods@.len() == before.len() + m,
            forall|k: int| 0 <= k < before.len() ==> pods@[k] == before[k],
            forall|q: int|
                0 <= q < m ==> (#[trigger] pods@[before.len() + q]).cluster == all[q]
                    && pods@[before.len() + q].platform@ == platform && pods@[before.len()
                    + q].extension@ == ext,
        decreases clusters.len(),
    {
        let c = clusters.remove(0);
        assert(c == all[m]);
        assert(clusters@ =~= all.subrange(m + 1, all.len() as int));
        pods.push(
            Pod { platform: st[lead].platform.clone(), extension: extension.clone(), cluster: c },
        );
        proof {
            m = m + 1;
        }
    }
    proof {
        assert(cluster_views(all) == clusters_of(files, budget, files.len() as int));
        assert(pod_views(pods@) =~= pod_views(before) + group_pods(st@, lead as int, budget)) by {
            let want = pod_views(before) + group_pods(st@, lead as int, budget);
            assert(pod_views(pods@).len() == want.len());
            assert forall|k: int| 0 <= k < want.len() implies pod_views(pods@)[k] == want[k] by {
                if k < before.len() {
                    assert(pods@[k] == before[k]);
                } else {
                    let q = k - before.len();
                    assert(pods@[before.len() + q].cluster == all[q]);
                    assert(cluster_views(all)[q] == all[q]@);
                }
            }
        }
        assert forall|k: int| 0 <= k < pods.len() implies pod_ok(st@, #[trigger] pods@[k], budget) by {
            if k < before.len() {
                assert(pods@[k] == before[k]);
            } else {
                let q = k - before.len();
                assert(pods@[before.len() + q].cluster == all[q]);
                assert(maximal(files, roots[q], budget));
                assert(is_pod(st@, pods@[k], roots[q], budget));
                lemma_paths_count(files, roots[q], files.len() as int);
                assert forall|x: Seq<char>|
                    strs(pods@[k].cluster.files@).contains(x) implies exists|i: int|
                    0 <= i < st.len() && pod_eligible(#[trigger] st@[i]) && st@[i].path@ == x by {
                    lemma_path_is_of_group(files, roots[q], files.len() as int, x);
                    let w = choose|w: int| 0 <= w < files.len() && (#[trigger] files[w]).path@ == x;
                    lemma_pod_infos(st@, platform, ext, st@.len() as int, w);
                    let i2 = choose|i2: int|
                        0 <= i2 < st@.len() && in_pod_group(#[trigger] st@[i2], platform, ext)
                            && st@[i2].path == files[w].path;
                    assert(pod_eligible(st@[i2]) && st@[i2].path@ == x);
                }
            }
        }
        assert forall|p: int, n: int|
            #![trigger dir_of(files[p].path@).take(n)]
            0 <= p < files.len() && 0 <= n <= dir_of(files[p].path@).len() && maximal(
                files,
                dir_of(files[p].path@).take(n),
                budget,
            ) implies exists|k: int|
            0 <= k < pods.len() && is_pod(
                st@,
                #[trigger] pods@[k],
                dir_of(files[p].path@).take(n),
                budget,
            ) && pods@[k].platform@ == platform && pods@[k].extension@ == ext by {
            let root = dir_of(files[p].path@).take(n);
            assert(roots.contains(root));
            let q = choose|q: int| 0 <= q < roots.len() && roots[q] == root;
            assert(maximal(files, roots[q], budget));
            assert(pods@[before.len() + q].cluster == all[q]);
            assert(is_pod(st@, pods@[before.len() + q], root, budget));
        }
    }
}

/// The pods of a run: for every platform and extension, in the order of
/// their first files, the clusters among the files that may join a pod,
/// under the budget `hard_ceiling`. Each pod is the cluster of a subtree that
/// fits with nothing around it that fits, and every such subtree around a
/// file that may join a pod has its pod.
pub fn find_pods(st: &Vec<Standing>, hard_ceiling: usize) -> (pods: Vec<Pod>)
    ensures
        forall|k: int| 0 <= k < pods.len() ==> pod_ok(st@, #[trigger] pods@[k], hard_ceiling as nat),
        forall|l: int|
            0 <= l < st.len() && pod_eligible(#[trigger] st@[l]) ==> group_covered(
                st@,
                pods@,
                st@[l].platform@,
                extension_or_empty(st@[l].path@),
                hard_ceiling as nat,
            ),
        pod_views(pods@) == pods_of(st@, hard_ceiling as nat, st@.len() as int),
{
    let ghost budget = hard_ceiling as nat;
    let mut exts: Vec<Vec<char>> = Vec::new();
    let mut i: usize = 0;
    while i < st.len()
        invariant
            i <= st.len(),
            exts.len() == i,
            forall|j: int| 0 <= j < i ==> (#[trigger] exts@[j])@ == extension_or_empty(
                st@[j].path@,
            ),
        decreases st.len() - i,
    {
        exts.push(extension_or_blank(&to_chars(st[i].path.as_str())));
        i += 1;
    }
    let mut pods: Vec<Pod> = Vec::new();
    i = 0;
    assert(pod_views(pods@) =~= pods_of(st@, budget, 0));
    while i < st.len()
        invariant
            i <= st.len(),
            exts.len() == st.len(),
            budget == hard_ceiling as nat,
            pod_views(pods@) == pods_of(st@, budget, i as int),
            forall|j: int| 0 <= j < exts.len() ==> (#[trigger] exts@[j])@ == extension_or_empty(
                st@[j].path@,
            ),
            forall|k: int| 0 <= k < pods.len() ==> pod_ok(st@, #[trigger] pods@[k], budget),
            forall|l: int|
                0 <= l < i && pod_eligible(#[trigger] st@[l]) ==> group_covered(
                    st@,
                    pods@,
                    st@[l].platform@,
                    extension_or_empty(st@[l].path@),
                    budget,
                ),
        decreases st.len() - i,
    {
        if !st[i].dead && !st[i].surgical {
            let mut lead: usize = 0;
            while lead < i && !(!st[lead].dead && !st[lead].surgical && st[lead].platform
                == st[i].platform && crate::text::same_text(&exts[lead], &exts[i]))
                invariant
                    lead <= i < st.len(),
                    exts.len() == st.len(),
                    forall|j: int|
                        0 <= j < exts.len() ==> (#[trigger] exts@[j])@ == extension_or_empty(
                            st@[j].path@,
                        ),
                    forall|j: int|
                        0 <= j < lead ==> !in_pod_group(
                            #[trigger] st@[j],
                            st@[i as int].platform@,
                            extension_or_empty(st@[i as int].path@),
                        ),
                decreases i - lead,
            {
                lead += 1;
            }
            if lead == i {
                let ghost before = pods@;
                process_group(st, &exts, i, hard_ceiling, &mut pods);
                proof {
                    assert forall|l: int|
                        0 <= l < i && pod_eligible(#[trigger] st@[l]) implies group_covered(
                        st@,
                        pods@,
                        st@[l].platform@,
                        extension_or_empty(st@[l].path@),
                        budget,
                    ) by {
                        lemma_covered_grows(
                            st@,
                            before,
                            pods@,
                            st@[l].platform@,
                            extension_or_empty(st@[l].path@),
                            budget,
                        );
                    }
                }
            } else {
                assert(pod_eligible(st@[lead as int]));
                assert(st@[lead as int].platform@ == st@[i as int].platform@);
                assert(exts@[lead as int]@ == exts@[i as int]@);
                assert(in_pod_group(
                    st@[lead as int],
                    st@[i as int].platform@,
                    extension_or_empty(st@[i as int].path@),
                ));
            }
        }
        i += 1;
    }
    pods
}

/// The reason that goes with a pod.
pub open spec fn pod_reason(c: Cluster) -> Seq<char> {
    "Recursive Feature Pod: "@ + decimal(c.files@.len()) + " files in subtree sum to "@ + decimal(
        c.total_loc as nat,
    ) + " LOC (fits in context). Max Drag: "@ + centi(c.max_drag as nat)
}

/// The budget that goes with the `k`th of `raws`; nothing where it is missing.
pub open spec fn raw_at(raws: Seq<usize>, k: int) -> nat {
    if 0 <= k < raws.len() {
        raws[k] as nat
    } else {
        0
    }
}

/// A pod is merged if its folder is not locked and it is no longer than the
/// budget of its folder.
pub open spec fn pod_accepted(
    pod: Pod,
    raw: nat,
    settings: Settings,
    rules: Seq<ExceptionRule>,
    locked: Seq<Seq<char>>,
) -> bool {
    !locked.contains(pod.cluster.root_folder@) && pod.cluster.total_loc as nat <= dynamic_limit(
        raw,
        settings.soft_floor_loc as nat,
        settings.hard_ceiling_loc as nat,
        rules,
        pod.cluster.root_folder@,
    )
}

/// The merge unit of a pod.
pub open spec fn pod_unit(pod: Pod) -> UnitView {
    UnitView::Merge {
        folder: pod.cluster.root_folder@,
        files: strs(pod.cluster.files@),
        reason: pod_reason(pod.cluster),
        strategy: Seq::empty(),
        platform: pod.platform@,
    }
}

/// The merge units of the first `upto` pods: one for each pod that is merged.
pub open spec fn pod_units_of(
    pods: Seq<Pod>,
    raws: Seq<usize>,
    settings: Settings,
    rules: Seq<ExceptionRule>,
    locked: Seq<Seq<char>>,
    upto: int,
) -> Seq<UnitView>
    decreases upto,
{
    if upto <= 0 {
        Seq::empty()
    } else if pod_accepted(pods[upto - 1], raw_at(raws, upto - 1), settings, rules, locked) {
        pod_units_of(pods, raws, settings, rules, locked, upto - 1).push(pod_unit(pods[upto - 1]))
    } else {
        pod_units_of(pods, raws, settings, rules, locked, upto - 1)
    }
}

/// The paths that the first `upto` pods take up: those of the pods that are
/// merged.
pub open spec fn taken_by_pods(
    pods: Seq<Pod>,
    raws: Seq<usize>,
    settings: Settings,
    rules: Seq<ExceptionRule>,
    locked: Seq<Seq<char>>,
    upto: int,
) -> Seq<Seq<char>>
    decreases upto,
{
    if upto <= 0 {
        Seq::empty()
    } else if pod_accepted(pods[upto - 1], raw_at(raws, upto - 1), settings, rules, locked) {
        taken_by_pods(pods, raws, settings, rules, locked, upto - 1) + strs(pods[upto - 1].cluster.files@)
    } else {
        taken_by_pods(pods, raws, settings, rules, locked, upto - 1)
    }
}

fn clone_strings(list: &Vec<String>) -> (r: Vec<String>)
    ensures
        strs(r@) == strs(list@),
        r@.len() == list@.len(),
{
    let mut r: Vec<String> = Vec::new();
    let mut i: usize = 0;
    while i < list.len()
        invariant
            i <= list.len(),
            r@.len() == i,
            forall|j: int| 0 <= j < i ==> r@[j]@ == list@[j]@,
        decreases list.len() - i,
    {
        r.push(list[i].clone());
        i += 1;
    }
    assert(strs(r@) =~= strs(list@));
    r
}

fn extend_strings(out: &mut Vec<String>, more: &Vec<String>)
    ensures
        strs(final(out)@) == strs(old(out)@) + strs(more@),
{
    let mut i: usize = 0;
    assert(strs(out@) =~= strs(old(out)@) + strs(more@).take(0));
    while i < more.len()
        invariant
            i <= more.len(),
            strs(out@) == strs(old(out)@) + strs(more@).take(i as int),
        decreases more.len() - i,
    {
        let item = more[i].clone();
        proof {
            lemma_strs_push(out@, item);
            assert((strs(old(out)@) + strs(more@).take(i as int)).push(item@) =~= strs(old(out)@)
                + strs(more@).take(i + 1));
        }
        out.push(item);
        i += 1;
    }
    assert(strs(more@).take(more@.len() as int) =~= strs(more@));
}

fn pod_reason_text(c: &Cluster) -> (r: String)
    ensures
        r@ == pod_reason(*c),
{
    let mut out = to_chars("Recursive Feature Pod: ");
    append_number(&mut out, c.files.len());
    append_str(&mut out, " files in subtree sum to ");
    append_number(&mut out, c.total_loc);
    append_str(&mut out, " LOC (fits in context). Max Drag: ");
    append_centi(&mut out, c.max_drag);
    to_string(&out)
}

/// Which pods are merged, given for each pod the budget `raws` that its drag
/// gives it, and the folders that are locked: the merge units, and the paths
/// that they take up. The pod of a locked folder is not merged.
pub fn decide_pods(
    pods: &Vec<Pod>,
    raws: &Vec<usize>,
    settings: &Settings,
    exceptions: &Vec<ExceptionRule>,
    locked: &Vec<String>,
) -> (r: (Vec<WorkUnit>, Vec<String>))
    ensures
        unit_views(r.0@) == pod_units_of(pods@, raws@, *settings, exceptions@, strs(locked@), pods@.len() as int),
        strs(r.1@) == taken_by_pods(pods@, raws@, *settings, exceptions@, strs(locked@), pods@.len() as int),
{
    let mut units: Vec<WorkUnit> = Vec::new();
    let mut taken: Vec<String> = Vec::new();
    let mut k: usize = 0;
    assert(unit_views(units@) =~= pod_units_of(pods@, raws@, *settings, exceptions@, strs(locked@), 0));
    assert(strs(taken@) =~= taken_by_pods(pods@, raws@, *settings, exceptions@, strs(locked@), 0));
    while k < pods.len()
        invariant
            k <= pods.len(),
            unit_views(units@) == pod_units_of(pods@, raws@, *settings, exceptions@, strs(locked@), k as int),
            strs(taken@) == taken_by_pods(pods@, raws@, *settings, exceptions@, strs(locked@), k as int),
        decreases pods.len() - k,
    {
        let pod = &pods[k];
        let raw = if k < raws.len() {
            raws[k]
        } else {
            0
        };
        let limit = calculate_dynamic_limit(
            raw,
            settings,
            exceptions,
            pod.cluster.root_folder.as_str(),
        );
        if !string_in(locked, &pod.cluster.root_folder) && pod.cluster.total_loc <= limit {
            let unit = WorkUnit::Merge {
                folder: pod.cluster.root_folder.clone(),
                files: clone_strings(&pod.cluster.files),
                reason: pod_reason_text(&pod.cluster),
                strategy: String::new(),
                platform: pod.platform.clone(),
            };
            proof {
                lemma_unit_views_push(units@, unit);
            }
            units.push(unit);
            extend_strings(&mut taken, &pod.cluster.files);
        }
        k += 1;
    }
    (units, taken)
}

/// A file may be merged with its neighbours if its role is known and it
/// needs no surgery.
pub open spec fn folder_eligible(s: Standing) -> bool {
    s.role_known && !s.surgical
}

/// The file belongs to the folder `dir` and has the extension `ext`.
pub open spec fn in_folder(s: Standing, dir: Seq<char>, ext: Seq<char>) -> bool {
    folder_eligible(s) && directory_of(s.path@) == dir && extension_or_empty(s.path@) == ext
}

/// The file belongs to the folder and no pod has taken it.
pub open spec fn is_free_in(
    s: Standing,
    taken: Seq<Seq<char>>,
    dir: Seq<char>,
    ext: Seq<char>,
) -> bool {
    in_folder(s, dir, ext) && !taken.contains(s.path@)
}

/// The name of the file at `path`, or the empty text.
pub open spec fn name_of(path: Seq<char>) -> Seq<char> {
    match file_name_of(path) {
        Some(n) => n,
        None => Seq::empty(),
    }
}

/// What a folder of `dir` and `ext` holds among the first `upto` files: the
/// paths and names of its free files, their lines, their greatest drag but
/// no less than 1, their least multiplier but no more than 100, and the
/// platform of the first of them.
pub struct FolderView {
    pub paths: Seq<Seq<char>>,
    pub names: Seq<Seq<char>>,
    pub total_loc: nat,
    pub drag: nat,
    pub p_mod: nat,
    pub platform: Seq<char>,
}

pub open spec fn folder_view(
    st: Seq<Standing>,
    taken: Seq<Seq<char>>,
    dir: Seq<char>,
    ext: Seq<char>,
    upto: int,
) -> FolderView
    decreases upto,
{
    if upto <= 0 {
        FolderView {
            paths: Seq::empty(),
            names: Seq::empty(),
            total_loc: 0,
            drag: 100,
            p_mod: 10000,
            platform: Seq::empty(),
        }
    } else {
        let prev = folder_view(st, taken, dir, ext, upto - 1);
        let s = st[upto - 1];
        if is_free_in(s, taken, dir, ext) {
            FolderView {
                paths: prev.paths.push(s.path@),
                names: prev.names.push(name_of(s.path@)),
                total_loc: prev.total_loc + s.loc as nat,
                drag: if s.drag > prev.drag {
                    s.drag as nat
                } else {
                    prev.drag
                },
                p_mod: if s.p_mod < prev.p_mod {
                    s.p_mod as nat
                } else {
                    prev.p_mod
                },
                platform: if prev.paths.len() == 0 {
                    s.platform@
                } else {
                    prev.platform
                },
            }
        } else {
            prev
        }
    }
}

/// A folder whose files may be merged.
pub struct Folder {
    pub dir: String,
    pub extension: String,
    pub paths: Vec<String>,
    pub names: Vec<String>,
    pub total_loc: u128,
    pub drag: u64,
    pub p_mod: u64,
    pub platform: String,
}

impl Folder {
    /// The folder holds what `v` says.
    pub open spec fn holds(&self, v: FolderView) -> bool {
        &&& strs(self.paths@) == v.paths
        &&& strs(self.names@) == v.names
        &&& self.total_loc as nat == v.total_loc
        &&& self.drag as nat == v.drag
        &&& self.p_mod as nat == v.p_mod
        &&& self.platform@ == v.platform
    }
}

/// The index of the first file at or after `from` that belongs to the
/// folder, or -1.
pub open spec fn first_in_folder(
    st: Seq<Standing>,
    dir: Seq<char>,
    ext: Seq<char>,
    from: int,
) -> int
    decreases st.len() - from,
{
    if from < 0 || from >= st.len() {
        -1
    } else if in_folder(st[from], dir, ext) {
        from
    } else {
        first_in_folder(st, dir, ext, from + 1)
    }
}

/// Where no file before `i` belongs to the folder and the file at `i` does,
/// it is the first.
pub proof fn lemma_first_in_folder(
    st: Seq<Standing>,
    dir: Seq<char>,
    ext: Seq<char>,
    from: int,
    i: int,
)
    requires
        0 <= from <= i < st.len(),
        in_folder(st[i], dir, ext),
        forall|j: int| from <= j < i ==> !in_folder(#[trigger] st[j], dir, ext),
    ensures
        first_in_folder(st, dir, ext, from) == i,
    decreases i - from,
{
    if from < i {
        lemma_first_in_folder(st, dir, ext, from + 1, i);
    }
}

/// A candidate for a merge is the folder of a file that may be merged, not
/// locked, with at least two free files, and holds what it should.
pub open spec fn folder_ok(
    st: Seq<Standing>,
    taken: Seq<Seq<char>>,
    locked: Seq<Seq<char>>,
    f: Folder,
) -> bool {
    &&& f.holds(folder_view(st, taken, f.dir@, f.extension@, st.len() as int))
    &&& f.paths@.len() >= 2
    &&& !locked.contains(f.dir@)
    &&& exists|i: int| 0 <= i < st.len() && in_folder(#[trigger] st[i], f.dir@, f.extension@)
}

/// Every free file of a folder is a file that may be merged.
pub proof fn lemma_folder_paths(
    st: Seq<Standing>,
    taken: Seq<Seq<char>>,
    dir: Seq<char>,
    ext: Seq<char>,
    upto: int,
    j: int,
)
    requires
        0 <= upto <= st.len(),
        0 <= j < folder_view(st, taken, dir, ext, upto).paths.len(),
    ensures
        folder_view(st, taken, dir, ext, upto).names.len() == folder_view(
            st,
            taken,
            dir,
            ext,
            upto,
        ).paths.len(),
        exists|i: int|
            0 <= i < upto && folder_eligible(#[trigger] st[i]) && st[i].path@ == folder_view(
                st,
                taken,
                dir,
                ext,
                upto,
            ).paths[j] && name_of(st[i].path@) == folder_view(st, taken, dir, ext, upto).names[j]
                && directory_of(st[i].path@) == dir,
    decreases upto,
{
    let prev = folder_view(st, taken, dir, ext, upto - 1);
    lemma_folder_lengths(st, taken, dir, ext, upto);
    lemma_folder_lengths(st, taken, dir, ext, upto - 1);
    if is_free_in(st[upto - 1], taken, dir, ext) && j == prev.paths.len() {
        assert(folder_eligible(st[upto - 1]));
    } else {
        lemma_folder_paths(st, taken, dir, ext, upto - 1, j);
        let i = choose|i: int|
            0 <= i < upto - 1 && folder_eligible(#[trigger] st[i]) && st[i].path@ == prev.paths[j]
                && name_of(st[i].path@) == prev.names[j] && directory_of(st[i].path@) == dir;
        assert(folder_eligible(st[i]));
    }
}

pub proof fn lemma_folder_lengths(
    st: Seq<Standing>,
    taken: Seq<Seq<char>>,
    dir: Seq<char>,
    ext: Seq<char>,
    upto: int,
)
    requires
        upto <= st.len(),
    ensures
        folder_view(st, taken, dir, ext, upto).names.len() == folder_view(
            st,
            taken,
            dir,
            ext,
            upto,
        ).paths.len(),
        upto >= 0 ==> folder_view(st, taken, dir, ext, upto).paths.len() <= upto,
        upto >= 0 ==> folder_view(st, taken, dir, ext, upto).total_loc <= upto
            * 0x1_0000_0000_0000_0000,
    decreases upto,
{
    if upto > 0 {
        lemma_folder_lengths(st, taken, dir, ext, upto - 1);
    }
}

fn string_in(list: &Vec<String>, x: &String) -> (b: bool)
    ensures
        b == strs(list@).contains(x@),
{
    let mut i: usize = 0;
    while i < list.len()
        invariant
            i <= list.len(),
            forall|j: int| 0 <= j < i ==> strs(list@)[j] != x@,
        decreases list.len() - i,
    {
        if list[i] == *x {
            assert(strs(list@)[i as int] == x@);
            return true;
        }
        i += 1;
    }
    false
}

/// The directories and extensions of `st` are `dirs` and `exts`.
pub open spec fn keys_of(st: Seq<Standing>, dirs: Seq<Vec<char>>, exts: Seq<Vec<char>>) -> bool {
    &&& dirs.len() == st.len()
    &&& exts.len() == st.len()
    &&& forall|i: int| 0 <= i < st.len() ==> (#[trigger] dirs[i])@ == directory_of(st[i].path@)
    &&& forall|i: int| 0 <= i < st.len() ==> (#[trigger] exts[i])@ == extension_or_empty(
        st[i].path@,
    )
}

fn build_folder(
    st: &Vec<Standing>,
    dirs: &Vec<Vec<char>>,
    exts: &Vec<Vec<char>>,
    taken: &Vec<String>,
    lead: usize,
) -> (f: Folder)
    requires
        lead < st.len(),
        keys_of(st@, dirs@, exts@),
    ensures
        f.dir@ == directory_of(st@[lead as int].path@),
        f.extension@ == extension_or_empty(st@[lead as int].path@),
        f.holds(folder_view(st@, strs(taken@), f.dir@, f.extension@, st@.len() as int)),
{
    let ghost dir = directory_of(st@[lead as int].path@);
    let ghost ext = extension_or_empty(st@[lead as int].path@);
    let ghost took = strs(taken@);
    let mut f = Folder {
        dir: to_string(&dirs[lead]),
        extension: to_string(&exts[lead]),
        paths: Vec::new(),
        names: Vec::new(),
        total_loc: 0,
        drag: 100,
        p_mod: 10000,
        platform: String::new(),
    };
    let mut i: usize = 0;
    assert(strs(f.paths@) =~= Seq::<Seq<char>>::empty());
    assert(strs(f.names@) =~= Seq::<Seq<char>>::empty());
    while i < st.len()
        invariant
            i <= st.len(),
            lead < st.len(),
            keys_of(st@, dirs@, exts@),
            dir == directory_of(st@[lead as int].path@),
            ext == extension_or_empty(st@[lead as int].path@),
            took == strs(taken@),
            f.dir@ == dir,
            f.extension@ == ext,
            f.holds(folder_view(st@, took, dir, ext, i as int)),
        decreases st.len() - i,
    {
        let s = &st[i];
        proof {
            lemma_folder_lengths(st@, took, dir, ext, i as int);
            lemma_folder_lengths(st@, took, dir, ext, i + 1);
        }
        if s.role_known && !s.surgical && same_text(&dirs[i], &dirs[lead]) && same_text(
            &exts[i],
            &exts[lead],
        ) {
            if !string_in(taken, &s.path) {
                if f.paths.len() == 0 {
                    f.platform = s.platform.clone();
                }
                let path = s.path.clone();
                let name = match file_name(&to_chars(s.path.as_str())) {
                    Some(n) => to_string(&n),
                    None => String::new(),
                };
                proof {
                    lemma_strs_push(f.paths@, path);
                    lemma_strs_push(f.names@, name);
                }
                f.paths.push(path);
                f.names.push(name);
                f.total_loc = f.total_loc + s.loc as u128;
                if s.drag > f.drag {
                    f.drag = s.drag;
                }
                if s.p_mod < f.p_mod {
                    f.p_mod = s.p_mod;
                }
            }
        }
        i += 1;
    }
    f
}

/// The folders that may be merged: for every directory and extension of a
/// file that may be merged, unless the directory is locked, the files that no
/// pod has taken, where they are two or more.
pub fn find_folders(st: &Vec<Standing>, taken: &Vec<String>, locked: &Vec<String>) -> (folders:
    Vec<Folder>)
    ensures
        forall|k: int|
            0 <= k < folders.len() ==> folder_ok(
                st@,
                strs(taken@),
                strs(locked@),
                #[trigger] folders@[k],
            ),
        forall|l: int|
            0 <= l < st.len() && folder_eligible(#[trigger] st@[l]) && !strs(locked@).contains(
                directory_of(st@[l].path@),
            ) && folder_view(
                st@,
                strs(taken@),
                directory_of(st@[l].path@),
                extension_or_empty(st@[l].path@),
                st@.len() as int,
            ).paths.len() >= 2 ==> exists|k: int|
                0 <= k < folders.len() && (#[trigger] folders@[k]).dir@ == directory_of(
                    st@[l].path@,
                ) && folders@[k].extension@ == extension_or_empty(st@[l].path@),
        forall|a: int, b: int|
            0 <= a < b < folders.len() ==> first_in_folder(
                st@,
                (#[trigger] folders@[a]).dir@,
                folders@[a].extension@,
                0,
            ) < first_in_folder(st@, (#[trigger] folders@[b]).dir@, folders@[b].extension@, 0),
{
    let mut dirs: Vec<Vec<char>> = Vec::new();
    let mut exts: Vec<Vec<char>> = Vec::new();
    let mut i: usize = 0;
    while i < st.len()
        invariant
            i <= st.len(),
            dirs.len() == i,
            exts.len() == i,
            forall|j: int| 0 <= j < i ==> (#[trigger] dirs@[j])@ == directory_of(st@[j].path@),
            forall|j: int| 0 <= j < i ==> (#[trigger] exts@[j])@ == extension_or_empty(
                st@[j].path@,
            ),
        decreases st.len() - i,
    {
        let chars = to_chars(st[i].path.as_str());
        dirs.push(directory(&chars));
        exts.push(extension_or_blank(&chars));
        i += 1;
    }
    let mut folders: Vec<Folder> = Vec::new();
    i = 0;
    while i < st.len()
        invariant
            i <= st.len(),
            keys_of(st@, dirs@, exts@),
            forall|k: int|
                0 <= k < folders.len() ==> folder_ok(
                    st@,
                    strs(taken@),
                    strs(locked@),
                    #[trigger] folders@[k],
                ),
            forall|l: int|
                0 <= l < i && folder_eligible(#[trigger] st@[l]) && !strs(locked@).contains(
                    directory_of(st@[l].path@),
                ) && folder_view(
                    st@,
                    strs(taken@),
                    directory_of(st@[l].path@),
                    extension_or_empty(st@[l].path@),
                    st@.len() as int,
                ).paths.len() >= 2 ==> exists|k: int|
                    0 <= k < folders.len() && (#[trigger] folders@[k]).dir@ == directory_of(
                        st@[l].path@,
                    ) && folders@[k].extension@ == extension_or_empty(st@[l].path@),
            forall|a: int, b: int|
                0 <= a < b < folders.len() ==> first_in_folder(
                    st@,
                    (#[trigger] folders@[a]).dir@,
                    folders@[a].extension@,
                    0,
                ) < first_in_folder(
                    st@,
                    (#[trigger] folders@[b]).dir@,
                    folders@[b].extension@,
                    0,
                ),
            forall|k: int|
                0 <= k < folders.len() ==> 0 <= first_in_folder(
                    st@,
                    (#[trigger] folders@[k]).dir@,
                    folders@[k].extension@,
                    0,
                ) < i,
        decreases st.len() - i,
    {
        if st[i].role_known && !st[i].surgical {
            let mut lead: usize = 0;
            while lead < i && !(st[lead].role_known && !st[lead].surgical && same_text(
                &dirs[lead],
                &dirs[i],
            ) && same_text(&exts[lead], &exts[i]))
                invariant
                    lead <= i < st.len(),
                    keys_of(st@, dirs@, exts@),
                    forall|j: int|
                        0 <= j < lead ==> !in_folder(
                            #[trigger] st@[j],
                            directory_of(st@[i as int].path@),
                            extension_or_empty(st@[i as int].path@),
                        ),
                decreases i - lead,
            {
                lead += 1;
            }
            let ghost before = folders@;
            if lead == i {
                let dir_name = to_string(&dirs[i]);
                if !string_in(locked, &dir_name) {
                    let f = build_folder(st, &dirs, &exts, taken, i);
                    if f.paths.len() >= 2 {
                        proof {
                            assert(in_folder(st@[i as int], f.dir@, f.extension@));
                            lemma_first_in_folder(st@, f.dir@, f.extension@, 0, i as int);
                        }
                        folders.push(f);
                    }
                }
            } else {
                assert(folder_eligible(st@[lead as int]));
                assert(dirs@[lead as int]@ == dirs@[i as int]@);
                assert(exts@[lead as int]@ == exts@[i as int]@);
            }
            proof {
                assert forall|l: int|
                    0 <= l < i + 1 && folder_eligible(#[trigger] st@[l]) && !strs(
                        locked@,
                    ).contains(directory_of(st@[l].path@)) && folder_view(
                        st@,
                        strs(taken@),
                        directory_of(st@[l].path@),
                        extension_or_empty(st@[l].path@),
                        st@.len() as int,
                    ).paths.len() >= 2 implies exists|k: int|
                    0 <= k < folders.len() && (#[trigger] folders@[k]).dir@ == directory_of(
                        st@[l].path@,
                    ) && folders@[k].extension@ == extension_or_empty(st@[l].path@) by {
                    if l < i {
                        let k = choose|k: int|
                            0 <= k < before.len() && (#[trigger] before[k]).dir@ == directory_of(
                                st@[l].path@,
                            ) && before[k].extension@ == extension_or_empty(st@[l].path@);
                        assert(folders@[k] == before[k]);
                    } else if lead == i {
                        assert(folders@[folders@.len() - 1].dir@ == directory_of(st@[l].path@));
                    } else {
                        let k = choose|k: int|
                            0 <= k < before.len() && (#[trigger] before[k]).dir@ == directory_of(
                                st@[lead as int].path@,
                            ) && before[k].extension@ == extension_or_empty(
                                st@[lead as int].path@,
                            );
                        assert(folders@[k] == before[k]);
                    }
                }
            }
        }
        i += 1;
    }
    folders
}

/// The budget of a folder, given the budget `raw` that its drag and its
/// multiplier give it.
pub open spec fn folder_limit(
    f: Folder,
    raw: nat,
    settings: Settings,
    rules: Seq<ExceptionRule>,
) -> nat {
    dynamic_limit(
        raw,
        settings.soft_floor_loc as nat,
        settings.hard_ceiling_loc as nat,
        rules,
        f.dir@,
    )
}

/// The merge score of a folder, in hundredths: nothing where the merged file
/// would be over the budget of the folder.
pub open spec fn folder_score(f: Folder, limit: nat, hard_ceiling: nat) -> nat {
    if f.total_loc as nat > limit {
        0
    } else {
        merge_score(f.paths@.len(), f.total_loc as nat, hard_ceiling)
    }
}

pub open spec fn merge_reason(score: nat, limit: nat, drag: nat) -> Seq<char> {
    "Read Tax high (Score "@ + centi(score) + "). Projected Limit: "@ + decimal(limit)
        + " (Drag "@ + centi(drag) + ")"@
}

/// The merge unit of a folder, if its score is above the threshold.
pub open spec fn folder_merge(
    f: Folder,
    raw: nat,
    settings: Settings,
    rules: Seq<ExceptionRule>,
) -> Option<UnitView> {
    let limit = folder_limit(f, raw, settings, rules);
    let score = folder_score(f, limit, settings.hard_ceiling_loc as nat);
    if score as int > settings.merge_score_threshold as int {
        Some(
            UnitView::Merge {
                folder: f.dir@,
                files: strs(f.names@),
                reason: merge_reason(score, limit, f.drag as nat),
                strategy: Seq::empty(),
                platform: f.platform@,
            },
        )
    } else {
        None
    }
}

/// How deep a folder lies: the components of its path, `../../` left out.
pub open spec fn folder_depth(dir: Seq<char>) -> nat {
    component_count(replace_seq(dir, "../../"@, ""@))
}

pub open spec fn flatten_reason(depth: nat) -> Seq<char> {
    "Folder depth is "@ + decimal(depth) + ". Flatten to reduce traversal tax."@
}

/// The unit that asks to flatten the folder `dir`, if it lies deeper than
/// allowed.
pub open spec fn flatten_unit(dir: Seq<char>, platform: Seq<char>, settings: Settings) -> Option<
    UnitView,
> {
    if folder_depth(dir) > settings.max_depth_threshold {
        Some(
            UnitView::Structure {
                file: dir,
                action: "Flatten Hierarchy"@,
                reason: flatten_reason(folder_depth(dir)),
                strategy: Seq::empty(),
                platform: platform,
            },
        )
    } else {
        None
    }
}

/// The file at `i` is the first of its directory.
pub open spec fn leads_directory(st: Seq<Standing>, i: int) -> bool {
    forall|j: int|
        0 <= j < i ==> directory_of((#[trigger] st[j]).path@) != directory_of(st[i].path@)
}

/// The folders to be flattened among the directories that start within the
/// first `upto` files: every directory that lies deeper than allowed, once,
/// with the platform of its first file.
pub open spec fn flattens_of(st: Seq<Standing>, settings: Settings, upto: int) -> Seq<UnitView>
    decreases upto,
{
    if upto <= 0 {
        Seq::empty()
    } else if leads_directory(st, upto - 1) {
        flattens_of(st, settings, upto - 1) + some_or_none(
            flatten_unit(directory_of(st[upto - 1].path@), st[upto - 1].platform@, settings),
        )
    } else {
        flattens_of(st, settings, upto - 1)
    }
}

pub open spec fn some_or_none(u: Option<UnitView>) -> Seq<UnitView> {
    match u {
        Some(x) => seq![x],
        None => Seq::empty(),
    }
}

/// The units of the first `upto` folders: the merge of each that is merged.
pub open spec fn folder_units_of(
    folders: Seq<Folder>,
    raws: Seq<usize>,
    settings: Settings,
    rules: Seq<ExceptionRule>,
    upto: int,
) -> Seq<UnitView>
    decreases upto,
{
    if upto <= 0 {
        Seq::empty()
    } else {
        folder_units_of(folders, raws, settings, rules, upto - 1) + some_or_none(
            folder_merge(folders[upto - 1], raw_at(raws, upto - 1), settings, rules),
        )
    }
}

/// Which folders are merged, given for each folder the budget `raws` that
/// its drag and its multiplier give it.
pub fn decide_folders(
    folders: &Vec<Folder>,
    raws: &Vec<usize>,
    settings: &Settings,
    exceptions: &Vec<ExceptionRule>,
) -> (units: Vec<WorkUnit>)
    ensures
        unit_views(units@) == folder_units_of(
            folders@,
            raws@,
            *settings,
            exceptions@,
            folders@.len() as int,
        ),
{
    let mut units: Vec<WorkUnit> = Vec::new();
    let mut k: usize = 0;
    assert(unit_views(units@) =~= folder_units_of(folders@, raws@, *settings, exceptions@, 0));
    while k < folders.len()
        invariant
            k <= folders.len(),
            unit_views(units@) == folder_units_of(
                folders@,
                raws@,
                *settings,
                exceptions@,
                k as int,
            ),
        decreases folders.len() - k,
    {
        let f = &folders[k];
        let ghost before = unit_views(units@);
        let raw = if k < raws.len() {
            raws[k]
        } else {
            0
        };
        let limit = calculate_dynamic_limit(raw, settings, exceptions, f.dir.as_str());
        let score: u128 = if f.total_loc > limit as u128 {
            0
        } else {
            crate::consolidator::calculate_merge_score(
                crate::consolidator::FolderStats {
                    file_count: f.paths.len(),
                    total_loc: f.total_loc as usize,
                },
                settings.hard_ceiling_loc,
            )
        };
        let over = if settings.merge_score_threshold < 0 {
            true
        } else {
            score > settings.merge_score_threshold as u128
        };
        if over {
            let mut why = to_chars("Read Tax high (Score ");
            append(&mut why, &centi_chars(score));
            append_str(&mut why, "). Projected Limit: ");
            append_number(&mut why, limit);
            append_str(&mut why, " (Drag ");
            append_centi(&mut why, f.drag);
            append_str(&mut why, ")");
            let unit = WorkUnit::Merge {
                folder: f.dir.clone(),
                files: clone_strings(&f.names),
                reason: to_string(&why),
                strategy: String::new(),
                platform: f.platform.clone(),
            };
            proof {
                lemma_unit_views_push(units@, unit);
            }
            units.push(unit);
        }
        assert(unit_views(units@) =~= before + some_or_none(
            folder_merge(*f, raw_at(raws@, k as int), *settings, exceptions@),
        ));
        k += 1;
    }
    units
}

/// The folders to be flattened: every directory of a file that lies deeper
/// than the settings allow, once, in the order of the files.
pub fn find_flattens(st: &Vec<Standing>, settings: &Settings) -> (units: Vec<WorkUnit>)
    ensures
        unit_views(units@) == flattens_of(st@, *settings, st@.len() as int),
{
    let mut dirs: Vec<Vec<char>> = Vec::new();
    let mut i: usize = 0;
    while i < st.len()
        invariant
            i <= st.len(),
            dirs.len() == i,
            forall|j: int| 0 <= j < i ==> (#[trigger] dirs@[j])@ == directory_of(st@[j].path@),
        decreases st.len() - i,
    {
        dirs.push(directory(&to_chars(st[i].path.as_str())));
        i += 1;
    }
    let mut units: Vec<WorkUnit> = Vec::new();
    i = 0;
    assert(unit_views(units@) =~= flattens_of(st@, *settings, 0));
    while i < st.len()
        invariant
            i <= st.len(),
            dirs.len() == st.len(),
            forall|j: int|
                0 <= j < st.len() ==> (#[trigger] dirs@[j])@ == directory_of(st@[j].path@),
            unit_views(units@) == flattens_of(st@, *settings, i as int),
        decreases st.len() - i,
    {
        let ghost before = unit_views(units@);
        let mut lead: usize = 0;
        while lead < i && !same_text(&dirs[lead], &dirs[i])
            invariant
                lead <= i < st.len(),
                dirs.len() == st.len(),
                forall|j: int|
                    0 <= j < st.len() ==> (#[trigger] dirs@[j])@ == directory_of(st@[j].path@),
                forall|j: int|
                    0 <= j < lead ==> directory_of((#[trigger] st@[j]).path@) != directory_of(
                        st@[i as int].path@,
                    ),
            decreases i - lead,
        {
            assert(dirs@[lead as int]@ == directory_of(st@[lead as int].path@));
            lead += 1;
        }
        if lead == i {
            assert(leads_directory(st@, i as int));
            let clean = replace(&dirs[i], &to_chars("../../"), &to_chars(""));
            let depth = components(&clean);
            if depth > settings.max_depth_threshold {
                let mut why = to_chars("Folder depth is ");
                append_number(&mut why, depth);
                append_str(&mut why, ". Flatten to reduce traversal tax.");
                let unit = WorkUnit::Structure {
                    file: to_string(&dirs[i]),
                    action: "Flatten Hierarchy".to_owned(),
                    reason: to_string(&why),
                    strategy: String::new(),
                    platform: st[i].platform.clone(),
                };
                proof {
                    lemma_unit_views_push(units@, unit);
                }
                units.push(unit);
            }
            assert(unit_views(units@) =~= before + some_or_none(
                flatten_unit(directory_of(st@[i as int].path@), st@[i as int].platform@, *settings),
            ));
        } else {
            assert(dirs@[lead as int]@ == directory_of(st@[lead as int].path@));
            assert(!leads_directory(st@, i as int));
        }
        i += 1;
    }
    units
}

/// The stem of the file at `path`, or the empty text.
pub open spec fn stem_of(path: Seq<char>) -> Seq<char> {
    match file_stem_of(path) {
        Some(s) => s,
        None => Seq::empty(),
    }
}

/// The file is part of the feature `stem`: `stem` is its stem. A file
/// without a stem is part of no feature.
pub open spec fn in_feature(s: Standing, stem: Seq<char>) -> bool {
    stem_of(s.path@) == stem && stem.len() > 0
}

/// The paths of the files among the first `upto` that are part of `stem`.
pub open spec fn feature_paths(st: Seq<Standing>, stem: Seq<char>, upto: int) -> Seq<Seq<char>>
    decreases upto,
{
    if upto <= 0 {
        Seq::empty()
    } else if in_feature(st[upto - 1], stem) {
        feature_paths(st, stem, upto - 1).push(st[upto - 1].path@)
    } else {
        feature_paths(st, stem, upto - 1)
    }
}

/// The files among the first `upto` that are part of `stem` lie in more than
/// one directory: one of them lies elsewhere than the file at `lead`.
pub open spec fn is_spread(st: Seq<Standing>, stem: Seq<char>, lead: int, upto: int) -> bool
    decreases upto,
{
    if upto <= 0 {
        false
    } else {
        is_spread(st, stem, lead, upto - 1) || (in_feature(st[upto - 1], stem) && directory_of(
            st[upto - 1].path@,
        ) != directory_of(st[lead].path@))
    }
}

/// The texts of `list` from `from` on, each between backticks, with commas
/// between them.
pub open spec fn quoted_list(list: Seq<Seq<char>>, upto: int) -> Seq<char>
    decreases upto,
{
    if upto <= 0 {
        Seq::empty()
    } else if upto == 1 {
        "`"@ + list[0] + "`"@
    } else {
        quoted_list(list, upto - 1) + ", "@ + "`"@ + list[upto - 1] + "`"@
    }
}

pub open spec fn slice_reason(paths: Seq<Seq<char>>) -> Seq<char> {
    "Feature fragmented across "@ + decimal(paths.len()) + " files: ["@ + quoted_list(
        sort_all(paths, paths.len() as int),
        paths.len() as int,
    ) + "]"@
}

/// The unit that asks for a vertical slice of the feature whose first file
/// stands at `lead`: where more than two files share the stem and they lie
/// in more than one directory. The reason names the paths, sorted.
pub open spec fn slice_unit(st: Seq<Standing>, lead: int) -> Option<UnitView> {
    let stem = stem_of(st[lead].path@);
    let paths = feature_paths(st, stem, st.len() as int);
    if paths.len() > 2 && is_spread(st, stem, lead, st.len() as int) {
        Some(
            UnitView::Structure {
                file: stem,
                action: "Vertical Slice"@,
                reason: slice_reason(paths),
                strategy: Seq::empty(),
                platform: st[lead].platform@,
            },
        )
    } else {
        None
    }
}

/// The file at `i` is the first of its feature.
pub open spec fn leads_feature(st: Seq<Standing>, i: int) -> bool {
    in_feature(st[i], stem_of(st[i].path@)) && forall|j: int|
        0 <= j < i ==> !in_feature(#[trigger] st[j], stem_of(st[i].path@))
}

/// The vertical slices among the features that start within the first
/// `upto` files.
pub open spec fn slices_of(st: Seq<Standing>, upto: int) -> Seq<UnitView>
    decreases upto,
{
    if upto <= 0 {
        Seq::empty()
    } else if leads_feature(st, upto - 1) {
        slices_of(st, upto - 1) + some_or_none(slice_unit(st, upto - 1))
    } else {
        slices_of(st, upto - 1)
    }
}

fn quote_all(list: &Vec<Vec<char>>) -> (r: Vec<char>)
    ensures
        r@ == quoted_list(views(list@), list@.len() as int),
{
    let mut out: Vec<char> = Vec::new();
    let mut i: usize = 0;
    while i < list.len()
        invariant
            i <= list.len(),
            out@ == quoted_list(views(list@), i as int),
        decreases list.len() - i,
    {
        let ghost before = out@;
        if i > 0 {
            append_str(&mut out, ", ");
        }
        append_str(&mut out, "`");
        append(&mut out, &list[i]);
        append_str(&mut out, "`");
        proof {
            assert(views(list@)[i as int] == list@[i as int]@);
            if i == 0 {
                assert(out@ =~= "`"@ + list@[0]@ + "`"@);
            } else {
                assert(out@ =~= before + ", "@ + "`"@ + list@[i as int]@ + "`"@);
            }
        }
        i += 1;
    }
    out
}

/// The vertical slices of a run: one for every stem that more than two
/// files share across more than one directory.
pub fn find_slices(st: &Vec<Standing>) -> (units: Vec<WorkUnit>)
    ensures
        unit_views(units@) == slices_of(st@, st@.len() as int),
{
    let mut stems: Vec<Vec<char>> = Vec::new();
    let mut dirs: Vec<Vec<char>> = Vec::new();
    let mut i: usize = 0;
    while i < st.len()
        invariant
            i <= st.len(),
            stems.len() == i,
            dirs.len() == i,
            forall|j: int| 0 <= j < i ==> (#[trigger] stems@[j])@ == stem_of(st@[j].path@),
            forall|j: int| 0 <= j < i ==> (#[trigger] dirs@[j])@ == directory_of(st@[j].path@),
        decreases st.len() - i,
    {
        let chars = to_chars(st[i].path.as_str());
        stems.push(
            match file_stem(&chars) {
                Some(s) => s,
                None => Vec::new(),
            },
        );
        dirs.push(directory(&chars));
        i += 1;
    }
    let mut units: Vec<WorkUnit> = Vec::new();
    i = 0;
    assert(unit_views(units@) =~= slices_of(st@, 0));
    while i < st.len()
        invariant
            i <= st.len(),
            stems.len() == st.len(),
            dirs.len() == st.len(),
            forall|j: int|
                0 <= j < st.len() ==> (#[trigger] stems@[j])@ == stem_of(st@[j].path@),
            forall|j: int|
                0 <= j < st.len() ==> (#[trigger] dirs@[j])@ == directory_of(st@[j].path@),
            unit_views(units@) == slices_of(st@, i as int),
        decreases st.len() - i,
    {
        let ghost stem = stem_of(st@[i as int].path@);
        let ghost before = unit_views(units@);
        if stems[i].len() > 0 {
            let mut lead: usize = 0;
            while lead < i && !same_text(&stems[lead], &stems[i])
                invariant
                    lead <= i < st.len(),
                    stems.len() == st.len(),
                    stem == stem_of(st@[i as int].path@),
                    stem.len() > 0,
                    forall|j: int|
                        0 <= j < st.len() ==> (#[trigger] stems@[j])@ == stem_of(st@[j].path@),
                    forall|j: int| 0 <= j < lead ==> !in_feature(#[trigger] st@[j], stem),
                decreases i - lead,
            {
                lead += 1;
            }
            if lead == i {
                assert(leads_feature(st@, i as int));
                let mut paths: Vec<Vec<char>> = Vec::new();
                let mut spread = false;
                let mut j: usize = 0;
                assert(views(paths@) =~= feature_paths(st@, stem, 0));
                while j < st.len()
                    invariant
                        j <= st.len(),
                        i < st.len(),
                        stems.len() == st.len(),
                        dirs.len() == st.len(),
                        stem == stem_of(st@[i as int].path@),
                        stem.len() > 0,
                        forall|j: int|
                            0 <= j < st.len() ==> (#[trigger] stems@[j])@ == stem_of(
                                st@[j].path@,
                            ),
                        forall|j: int|
                            0 <= j < st.len() ==> (#[trigger] dirs@[j])@ == directory_of(
                                st@[j].path@,
                            ),
                        views(paths@) == feature_paths(st@, stem, j as int),
                        spread == is_spread(st@, stem, i as int, j as int),
                    decreases st.len() - j,
                {
                    if same_text(&stems[j], &stems[i]) {
                        let path = to_chars(st[j].path.as_str());
                        proof {
                            crate::text::lemma_views_push(paths@, path);
                        }
                        paths.push(path);
                        if !same_text(&dirs[j], &dirs[i]) {
                            spread = true;
                        }
                    }
                    j += 1;
                }
                if paths.len() > 2 && spread {
                    let sorted = sort_texts(&paths);
                    let mut why = to_chars("Feature fragmented across ");
                    append_number(&mut why, paths.len());
                    append_str(&mut why, " files: [");
                    append(&mut why, &quote_all(&sorted));
                    append_str(&mut why, "]");
                    let unit = WorkUnit::Structure {
                        file: to_string(&stems[i]),
                        action: "Vertical Slice".to_owned(),
                        reason: to_string(&why),
                        strategy: String::new(),
                        platform: st[i].platform.clone(),
                    };
                    proof {
                        lemma_unit_views_push(units@, unit);
                        assert(unit@ == slice_unit(st@, i as int)->Some_0);
                    }
                    units.push(unit);
                }
                assert(unit_views(units@) =~= before + some_or_none(slice_unit(st@, i as int)));
            } else {
                assert(in_feature(st@[lead as int], stem));
            }
        } else {
            assert(!in_feature(st@[i as int], stem));
        }
        i += 1;
    }
    units
}

/// No two files have the same path.
pub open spec fn distinct_paths(st: Seq<Standing>) -> bool {
    forall|i: int, j: int|
        0 <= i < j < st.len() ==> (#[trigger] st[i]).path@ != (#[trigger] st[j]).path@
}

/// Conflict locking, for pods: a file that is part of a pod needs no
/// surgery, and is not dead.
pub proof fn lemma_pods_spare_surgery(
    st: Seq<Standing>,
    pod: Pod,
    budget: nat,
    x: Seq<char>,
    i: int,
)
    requires
        distinct_paths(st),
        pod_ok(st, pod, budget),
        strs(pod.cluster.files@).contains(x),
        0 <= i < st.len(),
        st[i].path@ == x,
    ensures
        !st[i].surgical,
        !st[i].dead,
{
    let j = choose|j: int| 0 <= j < st.len() && pod_eligible(#[trigger] st[j]) && st[j].path@ == x;
    if i < j {
        assert(st[i].path@ != st[j].path@);
    } else if j < i {
        assert(st[j].path@ != st[i].path@);
    }
}

/// Conflict locking, for folders: a file that is part of a folder that may
/// be merged needs no surgery, and the folder lists it by its name.
pub proof fn lemma_folders_spare_surgery(
    st: Seq<Standing>,
    taken: Seq<Seq<char>>,
    locked: Seq<Seq<char>>,
    f: Folder,
    j: int,
    i: int,
)
    requires
        distinct_paths(st),
        folder_ok(st, taken, locked, f),
        0 <= j < f.paths@.len(),
        0 <= i < st.len(),
        st[i].path@ == f.paths@[j]@,
    ensures
        !st[i].surgical,
        st[i].role_known,
        f.names@.len() == f.paths@.len(),
        f.names@[j]@ == name_of(st[i].path@),
        directory_of(st[i].path@) == f.dir@,
{
    let v = folder_view(st, taken, f.dir@, f.extension@, st.len() as int);
    assert(strs(f.paths@)[j] == f.paths@[j]@);
    lemma_folder_paths(st, taken, f.dir@, f.extension@, st.len() as int, j);
    let w = choose|w: int|
        0 <= w < st.len() && folder_eligible(#[trigger] st[w]) && st[w].path@ == v.paths[j]
            && name_of(st[w].path@) == v.names[j] && directory_of(st[w].path@) == f.dir@;
    if i < w {
        assert(st[i].path@ != st[w].path@);
    } else if w < i {
        assert(st[w].path@ != st[i].path@);
    }
    assert(strs(f.names@)[j] == f.names@[j]@);
    assert(strs(f.names@).len() == f.names@.len());
    assert(strs(f.paths@).len() == f.paths@.len());
}

/// Every unit that comes of the pods is the merge of a pod that was
/// accepted.
pub proof fn lemma_pod_units(
    pods: Seq<Pod>,
    raws: Seq<usize>,
    settings: Settings,
    rules: Seq<ExceptionRule>,
    locked: Seq<Seq<char>>,
    upto: int,
    u: UnitView,
)
    requires
        0 <= upto <= pods.len(),
        pod_units_of(pods, raws, settings, rules, locked, upto).contains(u),
    ensures
        exists|k: int|
            0 <= k < upto && pod_accepted(#[trigger] pods[k], raw_at(raws, k), settings, rules, locked)
                && u == pod_unit(pods[k]),
    decreases upto,
{
    let now = pod_units_of(pods, raws, settings, rules, locked, upto);
    let prev = pod_units_of(pods, raws, settings, rules, locked, upto - 1);
    let i = choose|i: int| 0 <= i < now.len() && now[i] == u;
    if pod_accepted(pods[upto - 1], raw_at(raws, upto - 1), settings, rules, locked) && i == prev.len() {
        assert(u == pod_unit(pods[upto - 1]));
    } else {
        assert(prev[i] == u);
        lemma_pod_units(pods, raws, settings, rules, locked, upto - 1, u);
        let k = choose|k: int|
            0 <= k < upto - 1 && pod_accepted(#[trigger] pods[k], raw_at(raws, k), settings, rules, locked)
                && u == pod_unit(pods[k]);
        assert(pod_accepted(pods[k], raw_at(raws, k), settings, rules, locked));
    }
}

/// Every merge that comes of the folders is the merge of one of them.
pub proof fn lemma_folder_units(
    folders: Seq<Folder>,
    raws: Seq<usize>,
    settings: Settings,
    rules: Seq<ExceptionRule>,
    upto: int,
    u: UnitView,
)
    requires
        0 <= upto <= folders.len(),
        folder_units_of(folders, raws, settings, rules, upto).contains(u),
        u is Merge,
    ensures
        exists|k: int|
            0 <= k < upto && folder_merge(#[trigger] folders[k], raw_at(raws, k), settings, rules)
                == Some(u),
    decreases upto,
{
    let now = folder_units_of(folders, raws, settings, rules, upto);
    let prev = folder_units_of(folders, raws, settings, rules, upto - 1);
    let m = some_or_none(folder_merge(folders[upto - 1], raw_at(raws, upto - 1), settings, rules));
    let i = choose|i: int| 0 <= i < now.len() && now[i] == u;
    if i < prev.len() {
        assert(prev[i] == u);
        lemma_folder_units(folders, raws, settings, rules, upto - 1, u);
        let k = choose|k: int|
            0 <= k < upto - 1 && folder_merge(
                #[trigger] folders[k],
                raw_at(raws, k),
                settings,
                rules,
            ) == Some(u);
        assert(folder_merge(folders[k], raw_at(raws, k), settings, rules) == Some(u));
    } else {
        assert(m[i - prev.len()] == u);
        assert(folder_merge(folders[upto - 1], raw_at(raws, upto - 1), settings, rules) == Some(u));
    }
}

/// The violations of a file are violations.
pub proof fn lemma_violations_kind(r: FileRecord, forbidden: Seq<String>, upto: int, k: int)
    requires
        0 <= k < violations(r, forbidden, upto).len(),
    ensures
        violations(r, forbidden, upto)[k] is Violation,
    decreases upto,
{
    if upto > 0 {
        let before = violations(r, forbidden, upto - 1);
        if k < before.len() {
            lemma_violations_kind(r, forbidden, upto - 1, k);
        }
    }
}

/// The files that the merge of a pod takes: the paths that it lists.
pub open spec fn pod_members(u: UnitView) -> Seq<Seq<char>> {
    match u {
        UnitView::Merge { files, .. } => files,
        _ => Seq::empty(),
    }
}

/// The files that the merge of a folder takes: the names that it lists,
/// each below the folder.
pub open spec fn folder_members(u: UnitView) -> Seq<Seq<char>> {
    match u {
        UnitView::Merge { folder, files, .. } => Seq::new(
            files.len(),
            |j: int| crate::paths::join_of(folder, files[j]),
        ),
        _ => Seq::empty(),
    }
}

/// The file that a unit is about.
pub open spec fn file_of(u: UnitView) -> Seq<char> {
    match u {
        UnitView::Ambiguity { file, .. } => file,
        UnitView::Violation { file, .. } => file,
        UnitView::Surgical { file, .. } => file,
        UnitView::Structure { file, .. } => file,
        UnitView::Merge { folder, .. } => folder,
    }
}

/// The path is made of its directory and its name.
pub open spec fn plain_path(path: Seq<char>) -> bool {
    crate::paths::join_of(directory_of(path), name_of(path)) == path
}

/// What the stages of a run hand on: the units and the standing of every
/// file of the registry, in which no path occurs twice; the pods of the
/// files; and the folders of the files that the pods have left.
pub open spec fn run_ok(
    records: Seq<FileRecord>,
    loads: Seq<FileLoad>,
    dead: Seq<Seq<char>>,
    settings: Settings,
    rules: Seq<ExceptionRule>,
    profiles: Seq<(String, Vec<String>)>,
    units: Seq<Vec<WorkUnit>>,
    st: Seq<Standing>,
    pods: Seq<Pod>,
    taken: Seq<Seq<char>>,
    locked: Seq<Seq<char>>,
    folders: Seq<Folder>,
) -> bool {
    &&& loads.len() == records.len()
    &&& units.len() == records.len()
    &&& st.len() == records.len()
    &&& forall|a: int, b: int|
        0 <= a < b < records.len() ==> (#[trigger] records[a]).path@ != (#[trigger] records[b]).path@
    &&& forall|k: int|
        0 <= k < records.len() ==> file_done(
            records,
            loads,
            dead,
            settings,
            rules,
            profiles,
            (#[trigger] units[k])@,
            st[k],
            k,
        )
    &&& forall|k: int|
        0 <= k < pods.len() ==> pod_ok(st, #[trigger] pods[k], settings.hard_ceiling_loc as nat)
    &&& forall|k: int| 0 <= k < folders.len() ==> folder_ok(st, taken, locked, #[trigger] folders[k])
}

/// Conflict locking. In a run, whatever the budgets of the pods and of the
/// folders are, the file of a surgical unit is taken by no merge: not by
/// the merge of a pod, and, where every path of the registry is made of its
/// directory and its name, not by the merge of a folder.
pub proof fn lemma_conflict_locking(
    records: Seq<FileRecord>,
    loads: Seq<FileLoad>,
    dead: Seq<Seq<char>>,
    settings: Settings,
    rules: Seq<ExceptionRule>,
    profiles: Seq<(String, Vec<String>)>,
    units: Seq<Vec<WorkUnit>>,
    st: Seq<Standing>,
    pods: Seq<Pod>,
    pod_raws: Seq<usize>,
    taken: Seq<Seq<char>>,
    locked: Seq<Seq<char>>,
    folders: Seq<Folder>,
    folder_raws: Seq<usize>,
    i: int,
    cut: UnitView,
    merge: UnitView,
)
    requires
        run_ok(records, loads, dead, settings, rules, profiles, units, st, pods, taken, locked, folders),
        0 <= i < records.len(),
        unit_views(units[i]@).contains(cut),
        cut is Surgical,
    ensures
        file_of(cut) == records[i].path@,
        pod_units_of(pods, pod_raws, settings, rules, locked, pods.len() as int).contains(merge)
            ==> !pod_members(merge).contains(file_of(cut)),
        folder_units_of(folders, folder_raws, settings, rules, folders.len() as int).contains(merge)
            && merge is Merge && (forall|k: int|
            0 <= k < records.len() ==> plain_path(#[trigger] records[k].path@))
            ==> !folder_members(merge).contains(file_of(cut)),
{
    let r = records[i];
    let p = r.path@;
    let limit = dynamic_limit(
        loads[i].raw_limit as nat,
        settings.soft_floor_loc as nat,
        settings.hard_ceiling_loc as nat,
        rules,
        p,
    );
    let is_dead = dead.contains(p);
    let least = settings.min_dead_code_loc as nat;
    let forbidden = forbidden_for(profiles, r.driver@);
    assert(file_done(records, loads, dead, settings, rules, profiles, units[i]@, st[i], i));
    let all = file_units_of(r, loads[i], limit, is_dead, least, forbidden);
    let k = choose|k: int| 0 <= k < all.len() && all[k] == cut;
    let head: Seq<UnitView> = if r.role@ == "unknown"@ {
        seq![UnitView::Ambiguity { file: p, strategy: Seq::empty() }]
    } else {
        Seq::empty()
    };
    let mid: Seq<UnitView> = match surgical_unit(r, loads[i], limit, is_dead, least) {
        Some(u) => seq![u],
        None => Seq::empty(),
    };
    let tail = violations(r, forbidden, forbidden.len() as int);
    assert(all == head + mid + tail);
    if k < head.len() {
        assert(all[k] == head[k]);
    } else if k < head.len() + mid.len() {
        assert(all[k] == mid[k - head.len()]);
    } else {
        assert(all[k] == tail[k - head.len() - mid.len()]);
        lemma_violations_kind(r, forbidden, forbidden.len() as int, k - head.len() - mid.len());
    }
    assert(surgical_unit(r, loads[i], limit, is_dead, least) == Some(cut));
    assert(st[i].surgical);
    assert(file_of(cut) == p);
    assert(distinct_paths(st)) by {
        assert forall|a: int, b: int| 0 <= a < b < st.len() implies (#[trigger] st[a]).path@ != (
        #[trigger] st[b]).path@ by {
            assert(file_done(records, loads, dead, settings, rules, profiles, units[a]@, st[a], a));
            assert(file_done(records, loads, dead, settings, rules, profiles, units[b]@, st[b], b));
            assert(records[a].path@ != records[b].path@);
        }
    }
    assert(st[i].path@ == p);
    if pod_units_of(pods, pod_raws, settings, rules, locked, pods.len() as int).contains(merge)
        && pod_members(merge).contains(p) {
        lemma_pod_units(pods, pod_raws, settings, rules, locked, pods.len() as int, merge);
        let q = choose|q: int|
            0 <= q < pods.len() && pod_accepted(
                #[trigger] pods[q],
                raw_at(pod_raws, q),
                settings,
                rules,
                locked,
            ) && merge == pod_unit(pods[q]);
        lemma_pods_spare_surgery(st, pods[q], settings.hard_ceiling_loc as nat, p, i);
    }
    if folder_units_of(folders, folder_raws, settings, rules, folders.len() as int).contains(merge)
        && merge is Merge && (forall|k: int|
        0 <= k < records.len() ==> plain_path(#[trigger] records[k].path@))
        && folder_members(merge).contains(p) {
        lemma_folder_units(folders, folder_raws, settings, rules, folders.len() as int, merge);
        let q = choose|q: int|
            0 <= q < folders.len() && folder_merge(
                #[trigger] folders[q],
                raw_at(folder_raws, q),
                settings,
                rules,
            ) == Some(merge);
        let f = folders[q];
        let members = folder_members(merge);
        let j = choose|j: int| 0 <= j < members.len() && members[j] == p;
        assert(folder_ok(st, taken, locked, f));
        let v = folder_view(st, taken, f.dir@, f.extension@, st.len() as int);
        lemma_folder_lengths(st, taken, f.dir@, f.extension@, st.len() as int);
        assert(members.len() == strs(f.names@).len());
        assert(strs(f.names@) == v.names);
        lemma_folder_paths(st, taken, f.dir@, f.extension@, st.len() as int, j);
        let w = choose|w: int|
            0 <= w < st.len() && folder_eligible(#[trigger] st[w]) && st[w].path@ == v.paths[j]
                && name_of(st[w].path@) == v.names[j] && directory_of(st[w].path@) == f.dir@;
        assert(file_done(records, loads, dead, settings, rules, profiles, units[w]@, st[w], w));
        assert(plain_path(records[w].path@));
        assert(strs(f.names@)[j] == v.names[j]);
        assert(members[j] == crate::paths::join_of(f.dir@, strs(f.names@)[j]));
        assert(st[w].path@ == p);
        if i < w {
            assert(st[i].path@ != st[w].path@);
        } else if w < i {
            assert(st[w].path@ != st[i].path@);
        }
    }
}

/// The patterns that are forbidden in files of `driver`: those of the first
/// profile of that name; none where there is none.
pub open spec fn profile_index(profiles: Seq<(String, Vec<String>)>, driver: Seq<char>, from: int)
    -> int
    decreases profiles.len() - from,
{
    if from < 0 || from >= profiles.len() {
        -1
    } else if profiles[from].0@ == driver {
        from
    } else {
        profile_index(profiles, driver, from + 1)
    }
}

pub open spec fn forbidden_for(profiles: Seq<(String, Vec<String>)>, driver: Seq<char>) -> Seq<
    String,
> {
    let k = profile_index(profiles, driver, 0);
    if 0 <= k < profiles.len() {
        profiles[k].1@
    } else {
        Seq::empty()
    }
}

/// What the synthesizer makes of every file: of each its units and where it
/// stands.
pub struct FileStage {
    pub units: Vec<Vec<WorkUnit>>,
    pub standings: Vec<Standing>,
}

/// The file at `i` comes out as it should: its units are those of the file,
/// under its budget, and its standing says whether it is dead, whether its
/// role is known, and whether one of the units is surgical.
pub open spec fn file_done(
    records: Seq<FileRecord>,
    loads: Seq<FileLoad>,
    dead: Seq<Seq<char>>,
    settings: Settings,
    rules: Seq<ExceptionRule>,
    profiles: Seq<(String, Vec<String>)>,
    units: Seq<WorkUnit>,
    s: Standing,
    i: int,
) -> bool {
    let r = records[i];
    let limit = dynamic_limit(
        loads[i].raw_limit as nat,
        settings.soft_floor_loc as nat,
        settings.hard_ceiling_loc as nat,
        rules,
        r.path@,
    );
    let is_dead = dead.contains(r.path@);
    &&& unit_views(units) == file_units_of(
        r,
        loads[i],
        limit,
        is_dead,
        settings.min_dead_code_loc as nat,
        forbidden_for(profiles, r.driver@),
    )
    &&& s.path == r.path
    &&& s.loc == r.metrics.loc
    &&& s.platform == r.platform
    &&& s.drag == loads[i].drag
    &&& s.pod_drag == loads[i].pod_drag
    &&& s.p_mod == loads[i].p_mod
    &&& s.role_known == (r.role@ != "unknown"@)
    &&& s.dead == is_dead
    &&& s.surgical == surgical_unit(
        r,
        loads[i],
        limit,
        is_dead,
        settings.min_dead_code_loc as nat,
    ) is Some
}

/// The units of every file, and where each file stands. `loads` says what
/// weighs on each file of `records`, one for one; `dead` lists the files
/// that no entry point reaches; `profiles` gives the forbidden patterns of
/// each driver.
pub fn assess_files(
    records: &Vec<FileRecord>,
    loads: &Vec<FileLoad>,
    dead: &Vec<String>,
    settings: &Settings,
    exceptions: &Vec<ExceptionRule>,
    profiles: &Vec<(String, Vec<String>)>,
) -> (stage: FileStage)
    requires
        loads.len() == records.len(),
    ensures
        stage.units.len() == records.len(),
        stage.standings.len() == records.len(),
        forall|i: int|
            0 <= i < records.len() ==> file_done(
                records@,
                loads@,
                strs(dead@),
                *settings,
                exceptions@,
                profiles@,
                #[trigger] stage.units@[i]@,
                stage.standings@[i],
                i,
            ),
{
    let mut units: Vec<Vec<WorkUnit>> = Vec::new();
    let mut standings: Vec<Standing> = Vec::new();
    let none: Vec<String> = Vec::new();
    let mut i: usize = 0;
    while i < records.len()
        invariant
            i <= records.len(),
            loads.len() == records.len(),
            units.len() == i,
            standings.len() == i,
            none@.len() == 0,
            forall|j: int|
                0 <= j < i ==> file_done(
                    records@,
                    loads@,
                    strs(dead@),
                    *settings,
                    exceptions@,
                    profiles@,
                    #[trigger] units@[j]@,
                    standings@[j],
                    j,
                ),
        decreases records.len() - i,
    {
        let record = &records[i];
        let is_dead = string_in(dead, &record.path);
        let mut k: usize = 0;
        while k < profiles.len() && !(profiles[k].0 == record.driver)
            invariant
                k <= profiles.len(),
                profile_index(profiles@, record.driver@, k as int) == profile_index(
                    profiles@,
                    record.driver@,
                    0,
                ),
            decreases profiles.len() - k,
        {
            k += 1;
        }
        let forbidden = if k < profiles.len() {
            &profiles[k].1
        } else {
            &none
        };
        assert(forbidden@ =~= forbidden_for(profiles@, record.driver@));
        let out = file_units(record, &loads[i], is_dead, settings, exceptions, forbidden);
        standings.push(standing_of(record, &loads[i], is_dead, out.surgical));
        units.push(out.units);
        i += 1;
    }
    FileStage { units, standings }
}

/// One of the first `upto` patterns stands in the path or in the text.
pub open spec fn is_protected(
    path: Seq<char>,
    content: Seq<char>,
    protected: Seq<String>,
    upto: int,
) -> bool
    decreases upto,
{
    if upto <= 0 {
        false
    } else {
        is_protected(path, content, protected, upto - 1) || contains_seq(
            path,
            protected[upto - 1]@,
        ) || contains_seq(content, protected[upto - 1]@)
    }
}

/// The file is an entry point of its own: an orchestrator, or protected.
pub open spec fn is_vital(r: FileRecord, protected: Seq<String>) -> bool {
    r.role@ == "orchestrator"@ || r.role@ == "service-orchestrator"@ || is_protected(
        r.path@,
        r.content@,
        protected,
        protected.len() as int,
    )
}

/// The first `upto` configured entry points, each taken from two levels up.
pub open spec fn configured_entries(config: Seq<String>, upto: int) -> Seq<Seq<char>>
    decreases upto,
{
    if upto <= 0 {
        Seq::empty()
    } else {
        configured_entries(config, upto - 1).push("../../"@ + config[upto - 1]@)
    }
}

/// The paths of the first `upto` files that are entry points of their own.
pub open spec fn vital_paths(records: Seq<FileRecord>, protected: Seq<String>, upto: int) -> Seq<
    Seq<char>,
>
    decreases upto,
{
    if upto <= 0 {
        Seq::empty()
    } else if is_vital(records[upto - 1], protected) {
        vital_paths(records, protected, upto - 1).push(records[upto - 1].path@)
    } else {
        vital_paths(records, protected, upto - 1)
    }
}

/// The entry points of a run: the configured ones, the files that the map
/// document names, and the files that are entry points of their own.
pub open spec fn entries_of(
    config: Seq<String>,
    mapped: Seq<String>,
    records: Seq<FileRecord>,
    protected: Seq<String>,
) -> Seq<Seq<char>> {
    configured_entries(config, config.len() as int) + strs(mapped) + vital_paths(
        records,
        protected,
        records.len() as int,
    )
}

/// The entry points of a run.
pub fn entry_points(
    config: &Vec<String>,
    mapped: &Vec<String>,
    records: &Vec<FileRecord>,
    protected: &Vec<String>,
) -> (entries: Vec<String>)
    ensures
        strs(entries@) == entries_of(config@, mapped@, records@, protected@),
{
    let mut out: Vec<String> = Vec::new();
    let mut i: usize = 0;
    assert(strs(out@) =~= configured_entries(config@, 0));
    while i < config.len()
        invariant
            i <= config.len(),
            strs(out@) == configured_entries(config@, i as int),
        decreases config.len() - i,
    {
        let mut path = to_chars("../../");
        append_string(&mut path, &config[i]);
        let item = to_string(&path);
        proof {
            lemma_strs_push(out@, item);
        }
        out.push(item);
        i += 1;
    }
    extend_strings(&mut out, mapped);
    let ghost head = strs(out@);
    i = 0;
    assert(strs(out@) =~= head + vital_paths(records@, protected@, 0));
    while i < records.len()
        invariant
            i <= records.len(),
            strs(out@) == head + vital_paths(records@, protected@, i as int),
        decreases records.len() - i,
    {
        let r = &records[i];
        let mut vital = str_eq(r.role.as_str(), "orchestrator") || str_eq(
            r.role.as_str(),
            "service-orchestrator",
        );
        let mut k: usize = 0;
        let mut shielded = false;
        while k < protected.len()
            invariant
                k <= protected.len(),
                shielded == is_protected(r.path@, r.content@, protected@, k as int),
            decreases protected.len() - k,
        {
            if str_contains(r.path.as_str(), protected[k].as_str()) || str_contains(
                r.content.as_str(),
                protected[k].as_str(),
            ) {
                shielded = true;
            }
            k += 1;
        }
        if vital || shielded {
            let item = r.path.clone();
            proof {
                lemma_strs_push(out@, item);
                assert((head + vital_paths(records@, protected@, i as int)).push(item@) =~= head
                    + vital_paths(records@, protected@, i + 1));
            }
            out.push(item);
        }
        i += 1;
    }
    out
}

/// The size budget that goes with a multiplier and a drag, both in
/// hundredths, before floor, rules and ceiling.
pub struct Budget {
    pub p_mod: u64,
    pub drag: u64,
    pub raw: usize,
}

/// The index of the first budget at or after `from` for `p_mod` and `drag`,
/// or -1.
pub open spec fn budget_index(table: Seq<Budget>, p_mod: u64, drag: u64, from: int) -> int
    decreases table.len() - from,
{
    if from < 0 || from >= table.len() {
        -1
    } else if table[from].p_mod == p_mod && table[from].drag == drag {
        from
    } else {
        budget_index(table, p_mod, drag, from + 1)
    }
}

/// The budget that the table gives for `p_mod` and `drag`; 0 where it gives
/// none, so that the soft floor decides.
pub open spec fn raw_for(table: Seq<Budget>, p_mod: u64, drag: u64) -> usize {
    let k = budget_index(table, p_mod, drag, 0);
    if 0 <= k < table.len() {
        table[k].raw
    } else {
        0
    }
}

/// The budget of each pod: that of its greatest drag, under the multiplier
/// one.
pub open spec fn pod_raws(table: Seq<Budget>, pods: Seq<Pod>) -> Seq<usize> {
    Seq::new(pods.len(), |k: int| raw_for(table, 100, pods[k].cluster.max_drag))
}

/// The budget of each folder: that of its least multiplier and its greatest
/// drag.
pub open spec fn folder_raws(table: Seq<Budget>, folders: Seq<Folder>) -> Seq<usize> {
    Seq::new(folders.len(), |k: int| raw_for(table, folders[k].p_mod, folders[k].drag))
}

/// The budget that the table gives for `p_mod` and `drag`.
pub fn budget_for(table: &Vec<Budget>, p_mod: u64, drag: u64) -> (raw: usize)
    ensures
        raw == raw_for(table@, p_mod, drag),
{
    let mut k: usize = 0;
    while k < table.len()
        invariant
            k <= table.len(),
            budget_index(table@, p_mod, drag, k as int) == budget_index(table@, p_mod, drag, 0),
        decreases table.len() - k,
    {
        if table[k].p_mod == p_mod && table[k].drag == drag {
            return table[k].raw;
        }
        k += 1;
    }
    0
}

/// Every folder that may be merged is among `folders`: the folder of every
/// file of known role that needs no surgery, unless it is locked, where two
/// or more of its files are free.
pub open spec fn folders_complete(
    st: Seq<Standing>,
    taken: Seq<Seq<char>>,
    locked: Seq<Seq<char>>,
    folders: Seq<Folder>,
) -> bool {
    forall|l: int|
        0 <= l < st.len() && folder_eligible(#[trigger] st[l]) && !locked.contains(
            directory_of(st[l].path@),
        ) && folder_view(
            st,
            taken,
            directory_of(st[l].path@),
            extension_or_empty(st[l].path@),
            st.len() as int,
        ).paths.len() >= 2 ==> exists|k: int|
            0 <= k < folders.len() && (#[trigger] folders[k]).dir@ == directory_of(st[l].path@)
                && folders[k].extension@ == extension_or_empty(st[l].path@)
}

/// The folders stand in the order of their first files.
pub open spec fn folders_in_order(st: Seq<Standing>, folders: Seq<Folder>) -> bool {
    forall|a: int, b: int|
        0 <= a < b < folders.len() ==> first_in_folder(
            st,
            (#[trigger] folders[a]).dir@,
            folders[a].extension@,
            0,
        ) < first_in_folder(st, (#[trigger] folders[b]).dir@, folders[b].extension@, 0)
}

/// What a run comes to: the units and the standing of every file, the pods
/// and the paths that the merged pods take up, the folders of the files that
/// are left, and the units that are about more than one file.
pub struct Run {
    pub stage: FileStage,
    pub pods: Vec<Pod>,
    pub taken: Vec<String>,
    pub folders: Vec<Folder>,
    pub units: Vec<WorkUnit>,
}

/// The units of a run that are about more than one file: the merges of the
/// pods, the merges of the folders, the folders to be flattened, and the
/// vertical slices.
pub open spec fn shared_units(
    st: Seq<Standing>,
    pods: Seq<Pod>,
    folders: Seq<Folder>,
    settings: Settings,
    rules: Seq<ExceptionRule>,
    locked: Seq<Seq<char>>,
    table: Seq<Budget>,
) -> Seq<UnitView> {
    pod_units_of(pods, pod_raws(table, pods), settings, rules, locked, pods.len() as int)
        + folder_units_of(
        folders,
        folder_raws(table, folders),
        settings,
        rules,
        folders.len() as int,
    ) + flattens_of(st, settings, st.len() as int) + slices_of(st, st.len() as int)
}

/// A whole run. `loads` says what weighs on each file of `records`, one for
/// one; `dead` lists the files that no entry point reaches; `profiles` gives
/// the forbidden patterns of each driver; `locked` lists the folders on which
/// something was done lately; `budgets` gives the size budget for each
/// multiplier and drag that may come up.
///
/// Every file gets its units. The files that need no surgery and are not
/// dead are gathered into pods; a pod is merged where its folder is not
/// locked and it fits the budget of its drag. The files of known role that
/// need no surgery and that no merged pod has taken are gathered into
/// folders, unless the folder is locked; a folder is merged where its score
/// is above the threshold. Deep folders are to be flattened, and stems that
/// are spread over directories are to be sliced.
pub fn synthesize(
    records: &Vec<FileRecord>,
    loads: &Vec<FileLoad>,
    dead: &Vec<String>,
    settings: &Settings,
    exceptions: &Vec<ExceptionRule>,
    profiles: &Vec<(String, Vec<String>)>,
    locked: &Vec<String>,
    budgets: &Vec<Budget>,
) -> (run: Run)
    requires
        loads.len() == records.len(),
    ensures
        run.stage.units.len() == records.len(),
        run.stage.standings.len() == records.len(),
        forall|i: int|
            0 <= i < records.len() ==> file_done(
                records@,
                loads@,
                strs(dead@),
                *settings,
                exceptions@,
                profiles@,
                #[trigger] run.stage.units@[i]@,
                run.stage.standings@[i],
                i,
            ),
        pod_views(run.pods@) == pods_of(
            run.stage.standings@,
            settings.hard_ceiling_loc as nat,
            run.stage.standings@.len() as int,
        ),
        forall|k: int|
            0 <= k < run.pods.len() ==> pod_ok(
                run.stage.standings@,
                #[trigger] run.pods@[k],
                settings.hard_ceiling_loc as nat,
            ),
        strs(run.taken@) == taken_by_pods(
            run.pods@,
            pod_raws(budgets@, run.pods@),
            *settings,
            exceptions@,
            strs(locked@),
            run.pods@.len() as int,
        ),
        forall|k: int|
            0 <= k < run.folders.len() ==> folder_ok(
                run.stage.standings@,
                strs(run.taken@),
                strs(locked@),
                #[trigger] run.folders@[k],
            ),
        folders_complete(
            run.stage.standings@,
            strs(run.taken@),
            strs(locked@),
            run.folders@,
        ),
        folders_in_order(run.stage.standings@, run.folders@),
        unit_views(run.units@) == shared_units(
            run.stage.standings@,
            run.pods@,
            run.folders@,
            *settings,
            exceptions@,
            strs(locked@),
            budgets@,
        ),
{
    let stage = assess_files(records, loads, dead, settings, exceptions, profiles);
    let pods = find_pods(&stage.standings, settings.hard_ceiling_loc);
    let mut for_pods: Vec<usize> = Vec::new();
    let mut k: usize = 0;
    while k < pods.len()
        invariant
            k <= pods.len(),
            for_pods.len() == k,
            forall|j: int|
                0 <= j < k ==> for_pods@[j] == raw_for(budgets@, 100, pods@[j].cluster.max_drag),
        decreases pods.len() - k,
    {
        for_pods.push(budget_for(budgets, 100, pods[k].cluster.max_drag));
        k += 1;
    }
    assert(for_pods@ =~= pod_raws(budgets@, pods@));
    let (mut units, taken) = decide_pods(&pods, &for_pods, settings, exceptions, locked);
    let folders = find_folders(&stage.standings, &taken, locked);
    assert(folders_complete(stage.standings@, strs(taken@), strs(locked@), folders@));
    assert(folders_in_order(stage.standings@, folders@));
    let mut for_folders: Vec<usize> = Vec::new();
    k = 0;
    while k < folders.len()
        invariant
            k <= folders.len(),
            for_folders.len() == k,
            forall|j: int|
                0 <= j < k ==> for_folders@[j] == raw_for(
                    budgets@,
                    folders@[j].p_mod,
                    folders@[j].drag,
                ),
        decreases folders.len() - k,
    {
        for_folders.push(budget_for(budgets, folders[k].p_mod, folders[k].drag));
        k += 1;
    }
    assert(for_folders@ =~= folder_raws(budgets@, folders@));
    let mut merges = decide_folders(&folders, &for_folders, settings, exceptions);
    let mut flats = find_flattens(&stage.standings, settings);
    let mut slices = find_slices(&stage.standings);
    let ghost a = unit_views(units@);
    let ghost b = unit_views(merges@);
    let ghost c = unit_views(flats@);
    let ghost d = unit_views(slices@);
    units.append(&mut merges);
    assert(unit_views(units@) =~= a + b);
    units.append(&mut flats);
    assert(unit_views(units@) =~= a + b + c);
    units.append(&mut slices);
    assert(unit_views(units@) =~= a + b + c + d);
    Run { stage, pods, taken, folders, units }
}

} // verus!
