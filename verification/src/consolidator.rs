use crate::text::{
    append, append_str, lemma_strs_push, replace, replace_seq, same_text, split, split_from,
    strs, to_chars, to_string, views,
};
use vstd::prelude::*;

verus! {

/// Size of a candidate folder: how many files it holds and their summed line count.
pub struct FolderStats {
    pub file_count: usize,
    pub total_loc: usize,
}

/// The merge score of a folder, in hundredths.
///
/// Every separate file costs half a point of read tax; the tax is weighted by
/// how much of the merged text can be taken in at once (2 below 600 lines, 1
/// below 1200, 0.2 beyond). A folder with fewer than two files, or one whose
/// merged text would exceed 1.1 times the hard ceiling, scores nothing.
pub open spec fn merge_score(file_count: nat, total_loc: nat, hard_ceiling: nat) -> nat {
    if file_count < 2 || 10 * total_loc > 11 * hard_ceiling {
        0
    } else if total_loc < 600 {
        100 * file_count
    } else if total_loc < 1200 {
        50 * file_count
    } else {
        10 * file_count
    }
}

/// The merge score of a folder, in hundredths.
pub fn calculate_merge_score(stats: FolderStats, hard_ceiling: usize) -> (score: u128)
    ensures
        score == merge_score(stats.file_count as nat, stats.total_loc as nat, hard_ceiling as nat),
{
    let files: u128 = stats.file_count as u128;
    let total: u128 = stats.total_loc as u128;
    let ceiling: u128 = hard_ceiling as u128;
    if stats.file_count < 2 || 10 * total > 11 * ceiling {
        0
    } else if stats.total_loc < 600 {
        100 * files
    } else if stats.total_loc < 1200 {
        50 * files
    } else {
        10 * files
    }
}

/// A file as the cluster detector sees it: its path, its line count, and its
/// drag in hundredths.
pub struct FileInfo {
    pub path: String,
    pub loc: usize,
    pub drag: u64,
}

/// A directory subtree whose files fit the budget together.
#[derive(Debug)]
pub struct Cluster {
    pub root_folder: String,
    pub files: Vec<String>,
    pub total_loc: usize,
    pub max_drag: u64,
}

/// The directory of a path, part by part: the path with `\` read as `/` and
/// `../../` left out, cut at each `/`, without its last part.
pub open spec fn dir_of(path: Seq<char>) -> Seq<Seq<char>> {
    split_from(replace_seq(replace_seq(path, "\\"@, "/"@), "../../"@, ""@), "/"@, 0).drop_last()
}

/// `p` is the beginning of `d`.
pub open spec fn is_prefix(p: Seq<Seq<char>>, d: Seq<Seq<char>>) -> bool {
    p.len() <= d.len() && d.subrange(0, p.len() as int) == p
}

/// The file lies in the subtree of the directory `p`.
pub open spec fn inside(f: FileInfo, p: Seq<Seq<char>>) -> bool {
    is_prefix(p, dir_of(f.path@))
}

/// The lines of the files among the first `upto` that lie under `p`.
pub open spec fn total_under(files: Seq<FileInfo>, p: Seq<Seq<char>>, upto: int) -> nat
    decreases upto,
{
    if upto <= 0 {
        0
    } else {
        total_under(files, p, upto - 1) + if inside(files[upto - 1], p) {
            files[upto - 1].loc as nat
        } else {
            0nat
        }
    }
}

/// How many of the first `upto` files lie under `p`.
pub open spec fn count_under(files: Seq<FileInfo>, p: Seq<Seq<char>>, upto: int) -> nat
    decreases upto,
{
    if upto <= 0 {
        0
    } else {
        count_under(files, p, upto - 1) + if inside(files[upto - 1], p) {
            1nat
        } else {
            0nat
        }
    }
}

/// The greatest drag among the first `upto` files that lie under `p`.
pub open spec fn drag_under(files: Seq<FileInfo>, p: Seq<Seq<char>>, upto: int) -> nat
    decreases upto,
{
    if upto <= 0 {
        0
    } else {
        let rest = drag_under(files, p, upto - 1);
        if inside(files[upto - 1], p) && files[upto - 1].drag > rest {
            files[upto - 1].drag as nat
        } else {
            rest
        }
    }
}

/// The paths of the first `upto` files that lie under `p`, in their order.
pub open spec fn paths_under(files: Seq<FileInfo>, p: Seq<Seq<char>>, upto: int) -> Seq<Seq<char>>
    decreases upto,
{
    if upto <= 0 {
        Seq::empty()
    } else if inside(files[upto - 1], p) {
        paths_under(files, p, upto - 1).push(files[upto - 1].path@)
    } else {
        paths_under(files, p, upto - 1)
    }
}

/// The subtree of `p` can be one cluster: more than one file, and no more
/// lines than the budget.
pub open spec fn fits(files: Seq<FileInfo>, p: Seq<Seq<char>>, max_loc: nat) -> bool {
    total_under(files, p, files.len() as int) <= max_loc && count_under(
        files,
        p,
        files.len() as int,
    ) > 1
}

/// The subtree of `p` fits, and the subtree around it does not.
pub open spec fn maximal(files: Seq<FileInfo>, p: Seq<Seq<char>>, max_loc: nat) -> bool {
    fits(files, p, max_loc) && (p.len() == 0 || !fits(files, p.drop_last(), max_loc))
}

/// The name of a directory: its parts with `/` between them; empty parts at
/// the front leave no trace.
pub open spec fn folder_of(p: Seq<Seq<char>>) -> Seq<char>
    decreases p.len(),
{
    if p.len() == 0 {
        Seq::empty()
    } else {
        let head = folder_of(p.drop_last());
        if head.len() == 0 {
            p.last()
        } else {
            head + "/"@ + p.last()
        }
    }
}

/// `r` is the deepest directory that holds every file of the subtree of `p`:
/// it lies in that subtree, holds as many files, and every directory right
/// below it holds fewer.
pub open spec fn deepest(files: Seq<FileInfo>, p: Seq<Seq<char>>, r: Seq<Seq<char>>) -> bool {
    &&& is_prefix(p, r)
    &&& count_under(files, r, files.len() as int) == count_under(files, p, files.len() as int)
    &&& forall|q: Seq<Seq<char>>|
        #[trigger] is_prefix(r, q) && q.len() == r.len() + 1 ==> count_under(
            files,
            q,
            files.len() as int,
        ) < count_under(files, r, files.len() as int)
}

/// `c` is the cluster of the subtree of `p`: it holds the files of the
/// subtree, and is named after the deepest directory that holds them all.
pub open spec fn is_cluster_of(c: Cluster, files: Seq<FileInfo>, p: Seq<Seq<char>>) -> bool {
    &&& exists|r: Seq<Seq<char>>| #[trigger] deepest(files, p, r) && c.root_folder@ == folder_of(r)
    &&& strs(c.files@) == paths_under(files, p, files.len() as int)
    &&& c.total_loc as nat == total_under(files, p, files.len() as int)
    &&& c.max_drag as nat == drag_under(files, p, files.len() as int)
}

/// A subtree holds what the subtrees inside it hold, and more.
pub proof fn lemma_wider_holds_more(
    files: Seq<FileInfo>,
    p: Seq<Seq<char>>,
    q: Seq<Seq<char>>,
    upto: int,
)
    requires
        is_prefix(p, q),
        0 <= upto <= files.len(),
    ensures
        total_under(files, q, upto) <= total_under(files, p, upto),
        count_under(files, q, upto) <= count_under(files, p, upto),
    decreases upto,
{
    if upto > 0 {
        lemma_wider_holds_more(files, p, q, upto - 1);
        let d = dir_of(files[upto - 1].path@);
        if is_prefix(q, d) {
            assert(d.subrange(0, p.len() as int) =~= d.subrange(0, q.len() as int).subrange(
                0,
                p.len() as int,
            ));
        }
    }
}

/// A directory that misses a file of the directory around it holds fewer
/// files.
pub proof fn lemma_lost_member(
    files: Seq<FileInfo>,
    r: Seq<Seq<char>>,
    q: Seq<Seq<char>>,
    i: int,
    upto: int,
)
    requires
        is_prefix(r, q),
        0 <= i < files.len(),
        0 <= upto <= files.len(),
        inside(files[i], r),
        !inside(files[i], q),
    ensures
        count_under(files, q, upto) <= count_under(files, r, upto),
        i < upto ==> count_under(files, q, upto) < count_under(files, r, upto),
    decreases upto,
{
    if upto > 0 {
        lemma_lost_member(files, r, q, i, upto - 1);
        let d = dir_of(files[upto - 1].path@);
        if is_prefix(q, d) {
            assert(d.subrange(0, r.len() as int) =~= d.subrange(0, q.len() as int).subrange(
                0,
                r.len() as int,
            ));
        }
    }
}

/// Where a subtree fits, everything inside it that holds more than one file
/// fits as well.
pub proof fn lemma_fits_inside(
    files: Seq<FileInfo>,
    p: Seq<Seq<char>>,
    q: Seq<Seq<char>>,
    r: Seq<Seq<char>>,
    max_loc: nat,
)
    requires
        is_prefix(p, q),
        is_prefix(q, r),
        fits(files, p, max_loc),
        fits(files, r, max_loc),
    ensures
        fits(files, q, max_loc),
{
    lemma_wider_holds_more(files, p, q, files.len() as int);
    lemma_wider_holds_more(files, q, r, files.len() as int);
}

/// Two subtrees that both fit and have nothing around them that fits do not
/// share a directory, unless they are the same.
pub proof fn lemma_maximal_apart(
    files: Seq<FileInfo>,
    p: Seq<Seq<char>>,
    q: Seq<Seq<char>>,
    d: Seq<Seq<char>>,
    max_loc: nat,
)
    requires
        maximal(files, p, max_loc),
        maximal(files, q, max_loc),
        is_prefix(p, d),
        is_prefix(q, d),
    ensures
        p == q,
{
    if p.len() < q.len() {
        let around = q.drop_last();
        assert(is_prefix(p, around)) by {
            assert(around.subrange(0, p.len() as int) =~= d.subrange(0, p.len() as int));
        }
        assert(is_prefix(around, q)) by {
            assert(q.subrange(0, around.len() as int) =~= around);
        }
        lemma_fits_inside(files, p, around, q, max_loc);
    } else if q.len() < p.len() {
        let around = p.drop_last();
        assert(is_prefix(q, around)) by {
            assert(around.subrange(0, q.len() as int) =~= d.subrange(0, q.len() as int));
        }
        assert(is_prefix(around, p)) by {
            assert(p.subrange(0, around.len() as int) =~= around);
        }
        lemma_fits_inside(files, q, around, p, max_loc);
    } else {
        assert(p =~= q);
    }
}

/// A path among the paths under `p` belongs to a file that lies under `p`.
pub proof fn lemma_paths_under(files: Seq<FileInfo>, p: Seq<Seq<char>>, upto: int, x: Seq<char>)
    requires
        0 <= upto <= files.len(),
        paths_under(files, p, upto).contains(x),
    ensures
        is_prefix(p, dir_of(x)),
    decreases upto,
{
    if upto > 0 {
        let prev = paths_under(files, p, upto - 1);
        let now = paths_under(files, p, upto);
        let i = choose|i: int| 0 <= i < now.len() && now[i] == x;
        if inside(files[upto - 1], p) {
            if i < prev.len() {
                assert(prev[i] == x);
                lemma_paths_under(files, p, upto - 1, x);
            }
        } else {
            lemma_paths_under(files, p, upto - 1, x);
        }
    }
}

fn dir_parts(path: &str) -> (d: Vec<Vec<char>>)
    ensures
        views(d@) == dir_of(path@),
{
    let p = replace(&to_chars(path), &to_chars("\\"), &to_chars("/"));
    let clean = replace(&p, &to_chars("../../"), &to_chars(""));
    let mut parts = split(&clean, &to_chars("/"));
    let ghost whole = views(parts@);
    parts.pop();
    assert(views(parts@) =~= whole.drop_last());
    parts
}

/// The directories of `files` are `dirs`, one for one.
pub open spec fn dirs_of(files: Seq<FileInfo>, dirs: Seq<Vec<Vec<char>>>) -> bool {
    &&& dirs.len() == files.len()
    &&& forall|i: int| 0 <= i < dirs.len() ==> views((#[trigger] dirs[i])@) == dir_of(files[i].path@)
}

fn lies_under(d: &Vec<Vec<char>>, p: &Vec<Vec<char>>, k: usize) -> (b: bool)
    requires
        k <= p.len(),
    ensures
        b == is_prefix(views(p@).take(k as int), views(d@)),
{
    if k > d.len() {
        return false;
    }
    let mut j: usize = 0;
    while j < k
        invariant
            j <= k <= p.len(),
            k <= d.len(),
            forall|m: int| 0 <= m < j ==> views(d@)[m] == views(p@)[m],
        decreases k - j,
    {
        if !same_text(&d[j], &p[j]) {
            assert(views(d@).subrange(0, k as int)[j as int] != views(p@).take(k as int)[j as int]);
            return false;
        }
        j += 1;
    }
    assert(views(d@).subrange(0, k as int) =~= views(p@).take(k as int));
    true
}

struct Measure {
    total: u128,
    count: usize,
    drag: u64,
}

fn measure(files: &Vec<FileInfo>, dirs: &Vec<Vec<Vec<char>>>, p: &Vec<Vec<char>>, k: usize) -> (m:
    Measure)
    requires
        dirs_of(files@, dirs@),
        k <= p.len(),
    ensures
        m.total as nat == total_under(files@, views(p@).take(k as int), files@.len() as int),
        m.count as nat == count_under(files@, views(p@).take(k as int), files@.len() as int),
        m.drag as nat == drag_under(files@, views(p@).take(k as int), files@.len() as int),
{
    let ghost root = views(p@).take(k as int);
    let mut total: u128 = 0;
    let mut count: usize = 0;
    let mut drag: u64 = 0;
    let mut i: usize = 0;
    while i < files.len()
        invariant
            i <= files.len(),
            dirs_of(files@, dirs@),
            k <= p.len(),
            root == views(p@).take(k as int),
            count <= i,
            total <= i * 0x1_0000_0000_0000_0000,
            total as nat == total_under(files@, root, i as int),
            count as nat == count_under(files@, root, i as int),
            drag as nat == drag_under(files@, root, i as int),
        decreases files.len() - i,
    {
        if lies_under(&dirs[i], p, k) {
            total = total + files[i].loc as u128;
            count += 1;
            if files[i].drag > drag {
                drag = files[i].drag;
            }
        }
        i += 1;
    }
    Measure { total, count, drag }
}

fn paths_below(files: &Vec<FileInfo>, dirs: &Vec<Vec<Vec<char>>>, p: &Vec<Vec<char>>, k: usize)
    -> (r: Vec<String>)
    requires
        dirs_of(files@, dirs@),
        k <= p.len(),
    ensures
        strs(r@) == paths_under(files@, views(p@).take(k as int), files@.len() as int),
{
    let ghost root = views(p@).take(k as int);
    let mut r: Vec<String> = Vec::new();
    let mut i: usize = 0;
    assert(strs(r@) =~= paths_under(files@, root, 0));
    while i < files.len()
        invariant
            i <= files.len(),
            dirs_of(files@, dirs@),
            k <= p.len(),
            root == views(p@).take(k as int),
            strs(r@) == paths_under(files@, root, i as int),
        decreases files.len() - i,
    {
        if lies_under(&dirs[i], p, k) {
            let item = files[i].path.clone();
            proof {
                lemma_strs_push(r@, item);
            }
            r.push(item);
        }
        i += 1;
    }
    r
}

fn folder_name(p: &Vec<Vec<char>>, k: usize) -> (r: Vec<char>)
    requires
        k <= p.len(),
    ensures
        r@ == folder_of(views(p@).take(k as int)),
{
    let mut r: Vec<char> = Vec::new();
    let mut j: usize = 0;
    assert(r@ =~= folder_of(views(p@).take(0)));
    while j < k
        invariant
            j <= k <= p.len(),
            r@ == folder_of(views(p@).take(j as int)),
        decreases k - j,
    {
        proof {
            let now = views(p@).take(j + 1);
            assert(now.drop_last() =~= views(p@).take(j as int));
            assert(now.last() == p@[j as int]@);
        }
        if r.len() == 0 {
            let ghost before = r@;
            append(&mut r, &p[j]);
            assert(r@ =~= p@[j as int]@);
        } else {
            append_str(&mut r, "/");
            append(&mut r, &p[j]);
        }
        j += 1;
    }
    r
}

fn same_root(a: &Vec<Vec<char>>, ka: usize, b: &Vec<Vec<char>>, kb: usize) -> (r: bool)
    requires
        ka <= a.len(),
        kb <= b.len(),
    ensures
        r == (views(a@).take(ka as int) == views(b@).take(kb as int)),
{
    if ka != kb {
        assert(views(a@).take(ka as int).len() != views(b@).take(kb as int).len());
        return false;
    }
    let mut j: usize = 0;
    while j < ka
        invariant
            j <= ka,
            ka == kb,
            ka <= a.len(),
            kb <= b.len(),
            forall|m: int| 0 <= m < j ==> views(a@)[m] == views(b@)[m],
        decreases ka - j,
    {
        if !same_text(&a[j], &b[j]) {
            assert(views(a@).take(ka as int)[j as int] != views(b@).take(kb as int)[j as int]);
            return false;
        }
        j += 1;
    }
    assert(views(a@).take(ka as int) =~= views(b@).take(kb as int));
    true
}

/// A `Cluster` with its texts as sequences of characters.
pub struct ClusterView {
    pub root_folder: Seq<char>,
    pub files: Seq<Seq<char>>,
    pub total_loc: nat,
    pub max_drag: nat,
}

impl View for Cluster {
    type V = ClusterView;

    open spec fn view(&self) -> ClusterView {
        ClusterView {
            root_folder: self.root_folder@,
            files: strs(self.files@),
            total_loc: self.total_loc as nat,
            max_drag: self.max_drag as nat,
        }
    }
}

pub open spec fn cluster_views(clusters: Seq<Cluster>) -> Seq<ClusterView> {
    Seq::new(clusters.len(), |i: int| clusters[i]@)
}

/// The length of the shortest beginning of `d`, of `k` parts or more, whose
/// subtree fits, or -1.
pub open spec fn top_len(files: Seq<FileInfo>, d: Seq<Seq<char>>, max_loc: nat, k: int) -> int
    decreases d.len() - k + 1,
{
    if k < 0 || k > d.len() {
        -1
    } else if fits(files, d.take(k), max_loc) {
        k
    } else {
        top_len(files, d, max_loc, k + 1)
    }
}

/// The length of the longest beginning of `d`, of `k` parts or more, whose
/// subtree holds as many files as that of the first `k` parts.
pub open spec fn crown_len(files: Seq<FileInfo>, d: Seq<Seq<char>>, k: int) -> int
    decreases d.len() - k,
{
    if 0 <= k < d.len() && count_under(files, d.take(k + 1), files.len() as int) == count_under(
        files,
        d.take(k),
        files.len() as int,
    ) {
        crown_len(files, d, k + 1)
    } else {
        k
    }
}

/// The cluster of the subtree of the first `k` parts of `d`.
pub open spec fn cluster_at(files: Seq<FileInfo>, d: Seq<Seq<char>>, k: int) -> ClusterView {
    ClusterView {
        root_folder: folder_of(d.take(crown_len(files, d, k))),
        files: paths_under(files, d.take(k), files.len() as int),
        total_loc: total_under(files, d.take(k), files.len() as int),
        max_drag: drag_under(files, d.take(k), files.len() as int),
    }
}

/// The clusters that the first `upto` files start: a file starts a cluster
/// if it is the first file of the widest subtree around it that fits.
pub open spec fn clusters_of(files: Seq<FileInfo>, max_loc: nat, upto: int) -> Seq<ClusterView>
    decreases upto,
{
    if upto <= 0 {
        Seq::empty()
    } else {
        let before = clusters_of(files, max_loc, upto - 1);
        let d = dir_of(files[upto - 1].path@);
        let k = top_len(files, d, max_loc, 0);
        if 0 <= k <= d.len() && first_inside(files, d.take(k), 0) == upto - 1 {
            before.push(cluster_at(files, d, k))
        } else {
            before
        }
    }
}

/// Where the first `at` beginnings from `from` on do not fit, the search
/// goes on from `at`.
pub proof fn lemma_top_len(
    files: Seq<FileInfo>,
    d: Seq<Seq<char>>,
    max_loc: nat,
    from: int,
    at: int,
)
    requires
        0 <= from <= at <= d.len() + 1,
        forall|n: int| from <= n < at ==> !fits(files, #[trigger] d.take(n), max_loc),
    ensures
        top_len(files, d, max_loc, from) == top_len(files, d, max_loc, at),
    decreases at - from,
{
    if from < at {
        assert(!fits(files, d.take(from), max_loc));
        lemma_top_len(files, d, max_loc, from + 1, at);
    }
}

/// The shortest beginning of `d` whose subtree fits, with what it holds.
fn first_fit(files: &Vec<FileInfo>, dirs: &Vec<Vec<Vec<char>>>, d: &Vec<Vec<char>>, max_loc: usize)
    -> (r: Option<(usize, Measure)>)
    requires
        dirs_of(files@, dirs@),
    ensures
        match r {
            Some((at, m)) => {
                &&& at <= d.len()
                &&& fits(files@, views(d@).take(at as int), max_loc as nat)
                &&& forall|n: int|
                    0 <= n < at ==> !fits(files@, #[trigger] views(d@).take(n), max_loc as nat)
                &&& m.total as nat == total_under(
                    files@,
                    views(d@).take(at as int),
                    files@.len() as int,
                )
                &&& m.drag as nat == drag_under(
                    files@,
                    views(d@).take(at as int),
                    files@.len() as int,
                )
                &&& top_len(files@, views(d@), max_loc as nat, 0) == at
            },
            None => top_len(files@, views(d@), max_loc as nat, 0) == -1 && forall|n: int|
                0 <= n <= d.len() ==> !fits(files@, #[trigger] views(d@).take(n), max_loc as nat),
        },
{
    let mut k: usize = 0;
    while k <= d.len()
        invariant
            k <= d.len(),
            dirs_of(files@, dirs@),
            forall|n: int| 0 <= n < k ==> !fits(files@, #[trigger] views(d@).take(n), max_loc as nat),
        decreases d.len() - k,
    {
        let m = measure(files, dirs, d, k);
        if m.count > 1 && m.total <= max_loc as u128 {
            proof {
                lemma_top_len(files@, views(d@), max_loc as nat, 0, k as int);
            }
            return Some((k, m));
        }
        if k == d.len() {
            proof {
                lemma_top_len(files@, views(d@), max_loc as nat, 0, k + 1);
            }
            return None;
        }
        k += 1;
    }
    None
}

/// The clusters are those of `roots`, one for one; every root is a subtree
/// that fits with nothing around it that fits; no root occurs twice.
pub open spec fn clusters_ok(
    files: Seq<FileInfo>,
    clusters: Seq<Cluster>,
    roots: Seq<Seq<Seq<char>>>,
    max_loc: nat,
) -> bool {
    &&& roots.len() == clusters.len()
    &&& forall|k: int|
        0 <= k < roots.len() ==> maximal(files, #[trigger] roots[k], max_loc) && is_cluster_of(
            clusters[k],
            files,
            roots[k],
        )
    &&& forall|a: int, b: int|
        0 <= a < b < roots.len() ==> #[trigger] roots[a] != #[trigger] roots[b]
}

/// The index of the first file at or after `from` that lies under `p`, or -1.
pub open spec fn first_inside(files: Seq<FileInfo>, p: Seq<Seq<char>>, from: int) -> int
    decreases files.len() - from,
{
    if from < 0 || from >= files.len() {
        -1
    } else if inside(files[from], p) {
        from
    } else {
        first_inside(files, p, from + 1)
    }
}

/// Where no file before `i` lies under `p` and the file at `i` does, it is
/// the first.
pub proof fn lemma_first_inside(files: Seq<FileInfo>, p: Seq<Seq<char>>, from: int, i: int)
    requires
        0 <= from <= i < files.len(),
        inside(files[i], p),
        forall|j: int| from <= j < i ==> !inside(#[trigger] files[j], p),
    ensures
        first_inside(files, p, from) == i,
    decreases i - from,
{
    if from < i {
        lemma_first_inside(files, p, from + 1, i);
    }
}

/// The subtrees stand in the order of their first files.
pub open spec fn in_file_order(files: Seq<FileInfo>, roots: Seq<Seq<Seq<char>>>) -> bool {
    forall|a: int, b: int|
        0 <= a < b < roots.len() ==> first_inside(files, #[trigger] roots[a], 0) < first_inside(
            files,
            #[trigger] roots[b],
            0,
        )
}

/// Every subtree around one of the first `upto` files that fits, with nothing
/// around it that fits, is among `roots`.
pub open spec fn covered(
    files: Seq<FileInfo>,
    roots: Seq<Seq<Seq<char>>>,
    max_loc: nat,
    upto: int,
) -> bool {
    forall|i: int, n: int|
        #![trigger dir_of(files[i].path@).take(n)]
        0 <= i < upto && 0 <= n <= dir_of(files[i].path@).len() && maximal(
            files,
            dir_of(files[i].path@).take(n),
            max_loc,
        ) ==> roots.contains(dir_of(files[i].path@).take(n))
}

/// No path stands in two clusters.
pub open spec fn disjoint(clusters: Seq<Cluster>) -> bool {
    forall|a: int, b: int, x: Seq<char>|
        0 <= a < clusters.len() && 0 <= b < clusters.len() && a != b && strs(
            clusters[a].files@,
        ).contains(x) ==> !strs(clusters[b].files@).contains(x)
}

/// Clusters of subtrees that fit, with nothing around them that fits, share
/// no path.
pub proof fn lemma_clusters_disjoint(
    files: Seq<FileInfo>,
    clusters: Seq<Cluster>,
    roots: Seq<Seq<Seq<char>>>,
    max_loc: nat,
)
    requires
        clusters_ok(files, clusters, roots, max_loc),
    ensures
        disjoint(clusters),
{
    assert forall|a: int, b: int, x: Seq<char>|
        0 <= a < clusters.len() && 0 <= b < clusters.len() && a != b && strs(
            clusters[a].files@,
        ).contains(x) implies !strs(clusters[b].files@).contains(x) by {
        if strs(clusters[b].files@).contains(x) {
            assert(maximal(files, roots[a], max_loc));
            assert(maximal(files, roots[b], max_loc));
            lemma_paths_under(files, roots[a], files.len() as int, x);
            lemma_paths_under(files, roots[b], files.len() as int, x);
            lemma_maximal_apart(files, roots[a], roots[b], dir_of(x), max_loc);
            if a < b {
                assert(roots[a] != roots[b]);
            } else {
                assert(roots[b] != roots[a]);
            }
        }
    }
}

/// The clusters of `files` under the budget `max_loc`: one for every
/// directory subtree that holds more than one file and no more than `max_loc`
/// lines, and that lies in no subtree of which the same is true. Each cluster
/// is named after the deepest directory that holds all its files, and the
/// clusters stand in the order of their first files.
pub fn find_recursive_clusters(files: Vec<FileInfo>, max_loc: usize) -> (clusters: Vec<Cluster>)
    ensures
        exists|roots: Seq<Seq<Seq<char>>>|
            #![trigger clusters_ok(files@, clusters@, roots, max_loc as nat)]
            clusters_ok(files@, clusters@, roots, max_loc as nat) && covered(
                files@,
                roots,
                max_loc as nat,
                files@.len() as int,
            ) && in_file_order(files@, roots),
        cluster_views(clusters@) == clusters_of(files@, max_loc as nat, files@.len() as int),
        forall|k: int| 0 <= k < clusters.len() ==> (#[trigger] clusters[k]).total_loc <= max_loc,
        forall|k: int| 0 <= k < clusters.len() ==> (#[trigger] clusters[k]).files@.len() > 1,
        disjoint(clusters@),
{
    let mut dirs: Vec<Vec<Vec<char>>> = Vec::new();
    let mut i: usize = 0;
    while i < files.len()
        invariant
            i <= files.len(),
            dirs.len() == i,
            forall|j: int|
                0 <= j < i ==> views((#[trigger] dirs@[j])@) == dir_of(files@[j].path@),
        decreases files.len() - i,
    {
        dirs.push(dir_parts(files[i].path.as_str()));
        i += 1;
    }
    let mut clusters: Vec<Cluster> = Vec::new();
    assert(cluster_views(clusters@) =~= clusters_of(files@, max_loc as nat, 0));
    let mut seen: Vec<(usize, usize)> = Vec::new();
    let ghost mut roots: Seq<Seq<Seq<char>>> = Seq::empty();
    let ghost budget = max_loc as nat;
    i = 0;
    while i < files.len()
        invariant
            i <= files.len(),
            dirs_of(files@, dirs@),
            budget == max_loc as nat,
            clusters_ok(files@, clusters@, roots, budget),
            covered(files@, roots, budget, i as int),
            in_file_order(files@, roots),
            cluster_views(clusters@) == clusters_of(files@, budget, i as int),
            forall|k: int|
                0 <= k < roots.len() ==> 0 <= first_inside(files@, #[trigger] roots[k], 0) < i,
            seen.len() == clusters.len(),
            forall|k: int|
                0 <= k < seen.len() ==> (#[trigger] seen@[k]).0 < dirs.len() && seen@[k].1
                    <= dirs@[seen@[k].0 as int].len() && roots[k] == views(
                    dirs@[seen@[k].0 as int]@,
                ).take(seen@[k].1 as int),
        decreases files.len() - i,
    {
        let d = &dirs[i];
        let ghost whole = views(d@);
        let found = first_fit(&files, &dirs, d, max_loc);
        match found {
            Some((at, m)) => {
                let ghost root = whole.take(at as int);
                proof {
                    if at > 0 {
                        assert(root.drop_last() =~= whole.take(at - 1));
                    }
                    assert(maximal(files@, root, budget));
                }
                let mut known = false;
                let mut j: usize = 0;
                while j < seen.len() && !known
                    invariant
                        j <= seen.len(),
                        i < files.len(),
                        at <= d.len(),
                        d == &dirs@[i as int],
                        whole == views(d@),
                        root == whole.take(at as int),
                        seen.len() == roots.len(),
                        forall|k: int|
                            0 <= k < seen.len() ==> (#[trigger] seen@[k]).0 < dirs.len()
                                && seen@[k].1 <= dirs@[seen@[k].0 as int].len() && roots[k]
                                == views(dirs@[seen@[k].0 as int]@).take(seen@[k].1 as int),
                        known ==> roots.contains(root),
                        !known ==> forall|k: int| 0 <= k < j ==> roots[k] != root,
                    decreases seen.len() - j, (if known { 0int } else { 1int }),
                {
                    let s = seen[j];
                    if same_root(&dirs[s.0], s.1, d, at) {
                        known = true;
                        assert(roots[j as int] == root);
                    } else {
                        j += 1;
                    }
                }
                if !known {
                    let mut deep: usize = at;
                    let mut go = true;
                    while go && deep < d.len()
                        invariant
                            at <= deep <= d.len(),
                            dirs_of(files@, dirs@),
                            whole == views(d@),
                            root == whole.take(at as int),
                            m.total as nat == total_under(files@, root, files@.len() as int),
                            count_under(files@, whole.take(deep as int), files@.len() as int)
                                == count_under(files@, root, files@.len() as int),
                            crown_len(files@, whole, deep as int) == crown_len(
                                files@,
                                whole,
                                at as int,
                            ),
                            !go ==> deep < d.len() && count_under(
                                files@,
                                whole.take(deep + 1),
                                files@.len() as int,
                            ) != count_under(files@, root, files@.len() as int),
                        decreases d.len() - deep, (if go { 1int } else { 0int }),
                    {
                        let below = measure(&files, &dirs, d, deep + 1);
                        let here = measure(&files, &dirs, d, deep);
                        if below.count == here.count {
                            deep += 1;
                        } else {
                            go = false;
                        }
                    }
                    let ghost crown = whole.take(deep as int);
                    proof {
                        assert(is_prefix(root, crown)) by {
                            assert(crown.subrange(0, root.len() as int) =~= root);
                        }
                        assert(inside(files@[i as int], crown)) by {
                            assert(whole.subrange(0, crown.len() as int) =~= crown);
                        }
                        assert forall|q: Seq<Seq<char>>|
                            #[trigger] is_prefix(crown, q) && q.len() == crown.len()
                                + 1 implies count_under(files@, q, files@.len() as int)
                            < count_under(files@, crown, files@.len() as int) by {
                            if inside(files@[i as int], q) {
                                assert(q =~= whole.take(deep + 1));
                                lemma_wider_holds_more(files@, crown, q, files@.len() as int);
                            } else {
                                lemma_lost_member(files@, crown, q, i as int, files@.len() as int);
                            }
                        }
                        assert(deepest(files@, root, crown));
                    }
                    let cluster = Cluster {
                        root_folder: to_string(&folder_name(d, deep)),
                        files: paths_below(&files, &dirs, d, at),
                        total_loc: m.total as usize,
                        max_drag: m.drag,
                    };
                    proof {
                        assert(is_cluster_of(cluster, files@, root));
                        assert(whole == dir_of(files@[i as int].path@));
                        assert(crown_len(files@, whole, deep as int) == deep);
                        assert(cluster@ == cluster_at(files@, whole, at as int));
                        assert(inside(files@[i as int], root)) by {
                            assert(whole.subrange(0, root.len() as int) =~= root);
                        }
                        assert forall|j: int| 0 <= j < i implies !inside(
                            #[trigger] files@[j],
                            root,
                        ) by {
                            if inside(files@[j], root) {
                                let dj = dir_of(files@[j].path@);
                                assert(dj.take(root.len() as int) =~= root);
                                assert(roots.contains(dj.take(root.len() as int)));
                                let w = choose|w: int| 0 <= w < roots.len() && roots[w] == root;
                                assert(roots[w] != root);
                            }
                        }
                        lemma_first_inside(files@, root, 0, i as int);
                        let ghost old_roots = roots;
                        roots = roots.push(root);
                        assert forall|p: int, n: int|
                            #![trigger dir_of(files@[p].path@).take(n)]
                            0 <= p < i && 0 <= n <= dir_of(files@[p].path@).len() && maximal(
                                files@,
                                dir_of(files@[p].path@).take(n),
                                budget,
                            ) implies roots.contains(dir_of(files@[p].path@).take(n)) by {
                            let r = dir_of(files@[p].path@).take(n);
                            assert(old_roots.contains(r));
                            let w = choose|w: int| 0 <= w < old_roots.len() && old_roots[w] == r;
                            assert(roots[w] == r);
                        }
                        assert(roots[roots.len() - 1] == root);
                    }
                    let ghost views_before = cluster_views(clusters@);
                    clusters.push(cluster);
                    assert(cluster_views(clusters@) =~= views_before.push(cluster@));
                    seen.push((i, at));
                } else {
                    proof {
                        assert(whole == dir_of(files@[i as int].path@));
                        let w = choose|w: int| 0 <= w < roots.len() && roots[w] == root;
                        assert(first_inside(files@, roots[w], 0) < i);
                    }
                }
                proof {
                    assert(roots.contains(root));
                    assert forall|n: int|
                        #![trigger whole.take(n)]
                        0 <= n <= whole.len() && maximal(
                            files@,
                            whole.take(n),
                            budget,
                        ) implies roots.contains(whole.take(n)) by {
                        if n < at {
                            assert(!fits(files@, whole.take(n), budget));
                        } else if n > at {
                            let q = whole.take(n);
                            let around = q.drop_last();
                            assert(around =~= whole.take(n - 1));
                            assert(is_prefix(root, around)) by {
                                assert(around.subrange(0, root.len() as int) =~= root);
                            }
                            assert(is_prefix(around, q)) by {
                                assert(q.subrange(0, around.len() as int) =~= around);
                            }
                            lemma_fits_inside(files@, root, around, q, budget);
                        }
                    }
                }
            },
            None => {
                proof {
                    assert forall|n: int|
                        #![trigger whole.take(n)]
                        0 <= n <= whole.len() && maximal(
                            files@,
                            whole.take(n),
                            budget,
                        ) implies roots.contains(whole.take(n)) by {
                        assert(!fits(files@, whole.take(n), budget));
                    }
                }
            },
        }
        proof {
            assert(whole == dir_of(files@[i as int].path@));
        }
        i += 1;
    }
    proof {
        lemma_clusters_disjoint(files@, clusters@, roots, budget);
        assert forall|k: int| 0 <= k < clusters.len() implies (#[trigger] clusters[k]).files@.len()
            > 1 by {
            assert(maximal(files@, roots[k], budget));
            lemma_paths_count(files@, roots[k], files@.len() as int);
        }
        assert forall|k: int| 0 <= k < clusters.len() implies (#[trigger] clusters[k]).total_loc
            <= max_loc by {
            assert(maximal(files@, roots[k], budget));
        }
    }
    clusters
}

/// There are as many paths under `p` as files.
pub proof fn lemma_paths_count(files: Seq<FileInfo>, p: Seq<Seq<char>>, upto: int)
    requires
        0 <= upto <= files.len(),
    ensures
        paths_under(files, p, upto).len() == count_under(files, p, upto),
    decreases upto,
{
    if upto > 0 {
        lemma_paths_count(files, p, upto - 1);
    }
}

} // verus!
