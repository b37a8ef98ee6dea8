//! The dependency graph: which file names which, and what cannot be reached
//! from the entry points.

use crate::table::{has_key, index_of, lemma_index_of, row_of, Entries, PathTable};
use crate::text::{lemma_strs_push, strs};
use vstd::prelude::*;

verus! {

/// The file `a` names the file `b`.
pub open spec fn edge(e: Entries, a: Seq<char>, b: Seq<char>) -> bool {
    row_of(e, a).contains(b)
}

/// `path` leads from file to file along edges and stays within `files`.
pub open spec fn is_walk(e: Entries, files: Seq<Seq<char>>, path: Seq<Seq<char>>) -> bool {
    &&& path.len() > 0
    &&& forall|i: int| 0 <= i < path.len() ==> files.contains(#[trigger] path[i])
    &&& forall|i: int| 0 <= i < path.len() - 1 ==> edge(e, #[trigger] path[i], path[i + 1])
}

/// `x` can be reached from an entry point.
pub open spec fn reachable(
    e: Entries,
    files: Seq<Seq<char>>,
    entries: Seq<Seq<char>>,
    x: Seq<char>,
) -> bool {
    exists|path: Seq<Seq<char>>|
        #![trigger is_walk(e, files, path)]
        is_walk(e, files, path) && entries.contains(path[0]) && path.last() == x
}

/// `x` is a file that no entry point reaches.
pub open spec fn dead(
    e: Entries,
    files: Seq<Seq<char>>,
    entries: Seq<Seq<char>>,
    x: Seq<char>,
) -> bool {
    files.contains(x) && !reachable(e, files, entries, x)
}

/// The dead files among the first `upto` of `files`, in their order.
pub open spec fn dead_files(
    e: Entries,
    files: Seq<Seq<char>>,
    entries: Seq<Seq<char>>,
    upto: int,
) -> Seq<Seq<char>>
    decreases upto,
{
    if upto <= 0 {
        Seq::empty()
    } else if dead(e, files, entries, files[upto - 1]) {
        dead_files(e, files, entries, upto - 1).push(files[upto - 1])
    } else {
        dead_files(e, files, entries, upto - 1)
    }
}

/// The first index at or after `from` at which `x` stands in `s`, or -1.
pub open spec fn first_index(s: Seq<Seq<char>>, x: Seq<char>, from: int) -> int
    decreases s.len() - from,
{
    if from < 0 || from >= s.len() {
        -1
    } else if s[from] == x {
        from
    } else {
        first_index(s, x, from + 1)
    }
}

pub proof fn lemma_first_index(s: Seq<Seq<char>>, x: Seq<char>, from: int)
    requires
        0 <= from,
    ensures
        first_index(s, x, from) == -1 || from <= first_index(s, x, from) < s.len(),
        first_index(s, x, from) >= 0 ==> s[first_index(s, x, from)] == x,
        forall|j: int|
            from <= j < s.len() && (j < first_index(s, x, from) || first_index(s, x, from) < 0)
                ==> #[trigger] s[j] != x,
    decreases s.len() - from,
{
    if from < s.len() && s[from] != x {
        lemma_first_index(s, x, from + 1);
    }
}

/// A text stands in a list exactly when it has a first index there.
pub proof fn lemma_contains_first_index(s: Seq<Seq<char>>, x: Seq<char>)
    ensures
        s.contains(x) <==> first_index(s, x, 0) >= 0,
        s.contains(x) ==> 0 <= first_index(s, x, 0) < s.len() && s[first_index(s, x, 0)] == x,
{
    lemma_first_index(s, x, 0);
    if s.contains(x) {
        let i = choose|i: int| 0 <= i < s.len() && s[i] == x;
        assert(s[i] == x);
    }
    if first_index(s, x, 0) >= 0 {
        assert(s[first_index(s, x, 0)] == x);
    }
}

/// A walk that an edge follows is a walk.
pub proof fn lemma_extend_walk(
    e: Entries,
    files: Seq<Seq<char>>,
    entries: Seq<Seq<char>>,
    a: Seq<char>,
    b: Seq<char>,
)
    requires
        reachable(e, files, entries, a),
        edge(e, a, b),
        files.contains(b),
    ensures
        reachable(e, files, entries, b),
{
    let path = choose|path: Seq<Seq<char>>|
        #![trigger is_walk(e, files, path)]
        is_walk(e, files, path) && entries.contains(path[0]) && path.last() == a;
    let longer = path.push(b);
    assert forall|i: int| 0 <= i < longer.len() implies files.contains(#[trigger] longer[i]) by {
        if i < path.len() {
            assert(longer[i] == path[i]);
        }
    }
    assert forall|i: int| 0 <= i < longer.len() - 1 implies edge(
        e,
        #[trigger] longer[i],
        longer[i + 1],
    ) by {
        if i < path.len() - 1 {
            assert(longer[i] == path[i] && longer[i + 1] == path[i + 1]);
        }
    }
    assert(is_walk(e, files, longer));
    assert(longer[0] == path[0]);
}

/// An entry point that is a file reaches itself.
pub proof fn lemma_entry_reachable(
    e: Entries,
    files: Seq<Seq<char>>,
    entries: Seq<Seq<char>>,
    x: Seq<char>,
)
    requires
        entries.contains(x),
        files.contains(x),
    ensures
        reachable(e, files, entries, x),
{
    let path = seq![x];
    assert(is_walk(e, files, path));
    assert(path[0] == x && path.last() == x);
}

/// Adding edges brings no file to the dead: a file that is dead once every
/// edge of `e` is also an edge of `wider` was dead under `e`.
pub proof fn lemma_more_edges_fewer_dead(
    e: Entries,
    wider: Entries,
    files: Seq<Seq<char>>,
    entries: Seq<Seq<char>>,
    x: Seq<char>,
)
    requires
        forall|a: Seq<char>, b: Seq<char>| edge(e, a, b) ==> edge(wider, a, b),
        dead(wider, files, entries, x),
    ensures
        dead(e, files, entries, x),
{
    if reachable(e, files, entries, x) {
        let path = choose|path: Seq<Seq<char>>|
            #![trigger is_walk(e, files, path)]
            is_walk(e, files, path) && entries.contains(path[0]) && path.last() == x;
        assert(is_walk(wider, files, path));
    }
}

/// The graph `e` with one edge more, from `from` to `to`.
pub open spec fn with_edge(e: Entries, from: Seq<char>, to: Seq<char>) -> Entries {
    if has_key(e, from) {
        e.update(index_of(e, from, 0), (from, row_of(e, from).push(to)))
    } else {
        e.push((from, seq![to]))
    }
}

/// Adding an edge brings no file to the dead.
pub proof fn lemma_new_edge_fewer_dead(
    e: Entries,
    from: Seq<char>,
    to: Seq<char>,
    files: Seq<Seq<char>>,
    entries: Seq<Seq<char>>,
    x: Seq<char>,
)
    requires
        dead(with_edge(e, from, to), files, entries, x),
    ensures
        dead(e, files, entries, x),
{
    let wider = with_edge(e, from, to);
    let longer = row_of(e, from).push(to);
    lemma_index_of(e, from, 0);
    if !has_key(e, from) {
        assert(longer =~= seq![to]);
    }
    assert forall|a: Seq<char>, b: Seq<char>| edge(e, a, b) implies edge(wider, a, b) by {
        crate::table::lemma_put(e, from, longer, a);
        if a == from {
            let i = choose|i: int| 0 <= i < row_of(e, a).len() && row_of(e, a)[i] == b;
            assert(longer[i] == b);
        }
    }
    lemma_more_edges_fewer_dead(e, wider, files, entries, x);
}

/// Adding entry points brings no file to the dead.
pub proof fn lemma_more_entries_fewer_dead(
    e: Entries,
    files: Seq<Seq<char>>,
    entries: Seq<Seq<char>>,
    more: Seq<Seq<char>>,
    x: Seq<char>,
)
    requires
        forall|p: Seq<char>| entries.contains(p) ==> more.contains(p),
        dead(e, files, more, x),
    ensures
        dead(e, files, entries, x),
{
    if reachable(e, files, entries, x) {
        let path = choose|path: Seq<Seq<char>>|
            #![trigger is_walk(e, files, path)]
            is_walk(e, files, path) && entries.contains(path[0]) && path.last() == x;
        assert(is_walk(e, files, path) && more.contains(path[0]) && path.last() == x);
    }
}

/// The marks stand on first occurrences only, one mark for each file.
pub open spec fn marks_ok(files: Seq<Seq<char>>, visited: Seq<bool>) -> bool {
    &&& visited.len() == files.len()
    &&& forall|i: int|
        0 <= i < visited.len() && #[trigger] visited[i] ==> first_index(files, files[i], 0) == i
}

/// What is marked can be reached.
pub open spec fn marks_sound(
    e: Entries,
    files: Seq<Seq<char>>,
    entries: Seq<Seq<char>>,
    visited: Seq<bool>,
) -> bool {
    forall|i: int|
        0 <= i < visited.len() && #[trigger] visited[i] ==> reachable(e, files, entries, files[i])
}

/// The file `x` is marked.
pub open spec fn marked(files: Seq<Seq<char>>, visited: Seq<bool>, x: Seq<char>) -> bool {
    let i = first_index(files, x, 0);
    0 <= i < visited.len() && visited[i]
}

/// What waits in the queue is marked.
pub open spec fn queue_ok(visited: Seq<bool>, queue: Seq<usize>) -> bool {
    forall|k: int|
        0 <= k < queue.len() ==> (#[trigger] queue[k]) < visited.len() && visited[queue[k] as int]
}

/// Every file among the first `upto` entry points is marked.
pub open spec fn seeded(
    files: Seq<Seq<char>>,
    entries: Seq<Seq<char>>,
    visited: Seq<bool>,
    upto: int,
) -> bool {
    forall|k: int|
        0 <= k < upto && files.contains(#[trigger] entries[k]) ==> marked(
            files,
            visited,
            entries[k],
        )
}

/// The files that the first `upto` entries of the row of `a` name are marked.
pub open spec fn row_done(
    e: Entries,
    files: Seq<Seq<char>>,
    visited: Seq<bool>,
    a: Seq<char>,
    upto: int,
) -> bool {
    forall|k: int|
        0 <= k < upto && k < row_of(e, a).len() && files.contains(#[trigger] row_of(e, a)[k])
            ==> marked(files, visited, row_of(e, a)[k])
}

/// Every marked file that neither waits in the queue nor is `current` has
/// all the files it names marked.
pub open spec fn settled(
    e: Entries,
    files: Seq<Seq<char>>,
    visited: Seq<bool>,
    queue: Seq<usize>,
    current: int,
) -> bool {
    forall|i: int|
        0 <= i < visited.len() && #[trigger] visited[i] && i != current && !queue.contains(
            i as usize,
        ) ==> row_done(e, files, visited, files[i], row_of(e, files[i]).len() as int)
}

/// How many files are not marked.
pub open spec fn unmarked(visited: Seq<bool>) -> nat
    decreases visited.len(),
{
    if visited.len() == 0 {
        0
    } else {
        unmarked(visited.drop_last()) + if visited.last() {
            0nat
        } else {
            1nat
        }
    }
}

pub proof fn lemma_mark_one(visited: Seq<bool>, j: int)
    requires
        0 <= j < visited.len(),
        !visited[j],
    ensures
        unmarked(visited.update(j, true)) + 1 == unmarked(visited),
    decreases visited.len(),
{
    let after = visited.update(j, true);
    if j == visited.len() - 1 {
        assert(after.drop_last() =~= visited.drop_last());
    } else {
        assert(after.drop_last() =~= visited.drop_last().update(j, true));
        lemma_mark_one(visited.drop_last(), j);
    }
}

/// Once nothing waits, whatever can be reached is marked.
pub proof fn lemma_reached_is_marked(
    e: Entries,
    files: Seq<Seq<char>>,
    entries: Seq<Seq<char>>,
    visited: Seq<bool>,
    path: Seq<Seq<char>>,
)
    requires
        marks_ok(files, visited),
        seeded(files, entries, visited, entries.len() as int),
        settled(e, files, visited, Seq::<usize>::empty(), -1),
        is_walk(e, files, path),
        entries.contains(path[0]),
    ensures
        marked(files, visited, path.last()),
    decreases path.len(),
{
    if path.len() == 1 {
        let k = choose|k: int| 0 <= k < entries.len() && entries[k] == path[0];
        assert(files.contains(entries[k]));
    } else {
        let shorter = path.drop_last();
        assert forall|i: int| 0 <= i < shorter.len() implies files.contains(
            #[trigger] shorter[i],
        ) by {
            assert(shorter[i] == path[i]);
        }
        assert forall|i: int| 0 <= i < shorter.len() - 1 implies edge(
            e,
            #[trigger] shorter[i],
            shorter[i + 1],
        ) by {
            assert(shorter[i] == path[i] && shorter[i + 1] == path[i + 1]);
        }
        assert(shorter[0] == path[0]);
        lemma_reached_is_marked(e, files, entries, visited, shorter);
        let a = shorter.last();
        let b = path.last();
        assert(a == path[path.len() - 2]);
        assert(edge(e, path[path.len() - 2], path[path.len() - 2 + 1]));
        let i = first_index(files, a, 0);
        lemma_first_index(files, a, 0);
        assert(visited[i]);
        assert(!Seq::<usize>::empty().contains(i as usize));
        assert(row_done(e, files, visited, files[i], row_of(e, files[i]).len() as int));
        let k = choose|k: int| 0 <= k < row_of(e, a).len() && row_of(e, a)[k] == b;
        assert(files.contains(path[path.len() - 1]));
        assert(files.contains(row_of(e, a)[k]));
    }
}

/// Marking a file that can be reached, and letting it wait, keeps everything
/// in order, and no file loses its mark.
pub proof fn lemma_marks_grow(
    e: Entries,
    files: Seq<Seq<char>>,
    entries: Seq<Seq<char>>,
    before: Seq<bool>,
    waiting: Seq<usize>,
    j: int,
    current: int,
)
    requires
        marks_ok(files, before),
        marks_sound(e, files, entries, before),
        queue_ok(before, waiting),
        settled(e, files, before, waiting, current),
        0 <= j < before.len(),
        j <= usize::MAX,
        !before[j],
        first_index(files, files[j], 0) == j,
        reachable(e, files, entries, files[j]),
    ensures
        marks_ok(files, before.update(j, true)),
        marks_sound(e, files, entries, before.update(j, true)),
        queue_ok(before.update(j, true), waiting.push(j as usize)),
        settled(e, files, before.update(j, true), waiting.push(j as usize), current),
        unmarked(before.update(j, true)) + 1 == unmarked(before),
        marked(files, before.update(j, true), files[j]),
        forall|x: Seq<char>|
            marked(files, before, x) ==> #[trigger] marked(files, before.update(j, true), x),
{
    let after = before.update(j, true);
    let q = waiting.push(j as usize);
    lemma_mark_one(before, j);
    assert forall|k: int| 0 <= k < q.len() implies (#[trigger] q[k]) < after.len()
        && after[q[k] as int] by {
        if k < waiting.len() {
            assert(q[k] == waiting[k]);
        }
    }
    assert forall|i: int|
        0 <= i < after.len() && #[trigger] after[i] && i != current && !q.contains(
            i as usize,
        ) implies row_done(e, files, after, files[i], row_of(e, files[i]).len() as int) by {
        assert(q[q.len() - 1] == j as usize);
        assert(i != j);
        assert(before[i]);
        if waiting.contains(i as usize) {
            let k = choose|k: int| 0 <= k < waiting.len() && waiting[k] == i as usize;
            assert(q[k] == i as usize);
        }
        assert(row_done(e, files, before, files[i], row_of(e, files[i]).len() as int));
    }
}

/// Once nothing waits, the marked files are the ones that can be reached.
pub proof fn lemma_marked_iff_reachable(
    e: Entries,
    files: Seq<Seq<char>>,
    entries: Seq<Seq<char>>,
    visited: Seq<bool>,
    x: Seq<char>,
)
    requires
        marks_ok(files, visited),
        marks_sound(e, files, entries, visited),
        seeded(files, entries, visited, entries.len() as int),
        settled(e, files, visited, Seq::<usize>::empty(), -1),
        files.contains(x),
    ensures
        marked(files, visited, x) <==> reachable(e, files, entries, x),
{
    lemma_contains_first_index(files, x);
    if reachable(e, files, entries, x) {
        let path = choose|path: Seq<Seq<char>>|
            #![trigger is_walk(e, files, path)]
            is_walk(e, files, path) && entries.contains(path[0]) && path.last() == x;
        lemma_reached_is_marked(e, files, entries, visited, path);
    }
    if marked(files, visited, x) {
        let i = first_index(files, x, 0);
        assert(visited[i]);
        assert(files[i] == x);
    }
}

/// The list of dead files holds the dead files and nothing else.
pub proof fn lemma_dead_files(
    e: Entries,
    files: Seq<Seq<char>>,
    entries: Seq<Seq<char>>,
    upto: int,
)
    requires
        0 <= upto <= files.len(),
    ensures
        forall|x: Seq<char>|
            dead_files(e, files, entries, upto).contains(x) <==> (dead(e, files, entries, x)
                && exists|i: int| 0 <= i < upto && files[i] == x),
    decreases upto,
{
    if upto > 0 {
        lemma_dead_files(e, files, entries, upto - 1);
        let prev = dead_files(e, files, entries, upto - 1);
        let now = dead_files(e, files, entries, upto);
        let last = files[upto - 1];
        assert forall|x: Seq<char>| now.contains(x) <==> (dead(e, files, entries, x) && exists|
            i: int,
        |
            0 <= i < upto && files[i] == x) by {
            assert(prev.contains(x) <==> (dead(e, files, entries, x) && exists|i: int|
                0 <= i < upto - 1 && files[i] == x));
            if dead(e, files, entries, last) {
                assert(now == prev.push(last));
                assert(now.contains(x) <==> (prev.contains(x) || x == last)) by {
                    if prev.contains(x) {
                        let i = choose|i: int| 0 <= i < prev.len() && prev[i] == x;
                        assert(now[i] == x);
                    }
                    if x == last {
                        assert(now[now.len() - 1] == x);
                    }
                    if now.contains(x) {
                        let i = choose|i: int| 0 <= i < now.len() && now[i] == x;
                        if i < prev.len() {
                            assert(prev[i] == x);
                        }
                    }
                }
            }
            if exists|i: int| 0 <= i < upto - 1 && files[i] == x {
                let i = choose|i: int| 0 <= i < upto - 1 && files[i] == x;
                assert(0 <= i < upto && files[i] == x);
            }
            if x == last {
                assert(0 <= upto - 1 < upto && files[upto - 1] == x);
            }
            if exists|i: int| 0 <= i < upto && files[i] == x {
                let i = choose|i: int| 0 <= i < upto && files[i] == x;
                if i < upto - 1 {
                    assert(0 <= i < upto - 1 && files[i] == x);
                }
            }
        }
    } else {
        assert(dead_files(e, files, entries, upto) =~= Seq::<Seq<char>>::empty());
    }
}

/// A directed graph of files, each with the files it names; a file may be
/// named more than once.
pub struct DependencyGraph {
    pub adj: PathTable,
}

impl View for DependencyGraph {
    type V = Entries;

    open spec fn view(&self) -> Entries {
        self.adj@
    }
}

fn position_in(list: &Vec<String>, name: &String) -> (r: Option<usize>)
    ensures
        match r {
            Some(i) => i as int == first_index(strs(list@), name@, 0) && i < list.len(),
            None => first_index(strs(list@), name@, 0) == -1,
        },
{
    let mut i: usize = 0;
    while i < list.len()
        invariant
            i <= list.len(),
            first_index(strs(list@), name@, i as int) == first_index(strs(list@), name@, 0),
        decreases list.len() - i,
    {
        if list[i] == *name {
            return Some(i);
        }
        i += 1;
    }
    None
}

impl DependencyGraph {
    /// The graph is in order.
    pub open spec fn wf(&self) -> bool {
        self.adj.wf()
    }

    pub fn new() -> (g: DependencyGraph)
        ensures
            g.wf(),
            g@ == Entries::empty(),
    {
        DependencyGraph { adj: PathTable::new() }
    }

    /// Adds the edge from `from` to `to`, after those that `from` has.
    pub fn add_dependency(&mut self, from: &str, to: &str)
        requires
            old(self).wf(),
        ensures
            final(self).wf(),
            final(self)@ == with_edge(old(self)@, from@, to@),
    {
        self.adj.add(from, to.to_owned());
    }

    /// The files that no entry point reaches, in the order of `all_files`.
    /// Entry points that are no files are passed over.
    pub fn find_dead_code(&self, all_files: &Vec<String>, entry_points: &Vec<String>) -> (r: Vec<
        String,
    >)
        requires
            self.wf(),
        ensures
            strs(r@) == dead_files(
                self@,
                strs(all_files@),
                strs(entry_points@),
                all_files@.len() as int,
            ),
            forall|x: Seq<char>|
                strs(r@).contains(x) <==> dead(self@, strs(all_files@), strs(entry_points@), x),
    {
        let ghost e = self@;
        let ghost files = strs(all_files@);
        let ghost entries = strs(entry_points@);
        let n = all_files.len();
        let mut visited: Vec<bool> = Vec::new();
        while visited.len() < n
            invariant
                visited.len() <= n,
                forall|i: int| 0 <= i < visited.len() ==> !visited@[i],
            decreases n - visited.len(),
        {
            visited.push(false);
        }
        let mut queue: Vec<usize> = Vec::new();
        let mut s: usize = 0;
        while s < entry_points.len()
            invariant
                s <= entry_points.len(),
                n == all_files.len(),
                files == strs(all_files@),
                entries == strs(entry_points@),
                marks_ok(files, visited@),
                marks_sound(e, files, entries, visited@),
                queue_ok(visited@, queue@),
                seeded(files, entries, visited@, s as int),
                settled(e, files, visited@, queue@, -1),
            decreases entry_points.len() - s,
        {
            let ghost before = visited@;
            let ghost waiting = queue@;
            let ghost x = entries[s as int];
            proof {
                lemma_first_index(files, x, 0);
                lemma_contains_first_index(files, x);
            }
            match position_in(all_files, &entry_points[s]) {
                Some(j) => {
                    if !visited[j] {
                        visited.set(j, true);
                        queue.push(j);
                        proof {
                            assert(entries.contains(x));
                            lemma_entry_reachable(e, files, entries, x);
                            lemma_marks_grow(e, files, entries, before, waiting, j as int, -1);
                        }
                    }
                },
                None => {},
            }
            proof {
                assert forall|k: int|
                    0 <= k < s + 1 && files.contains(#[trigger] entries[k]) implies marked(
                    files,
                    visited@,
                    entries[k],
                ) by {
                    if k < s {
                        assert(marked(files, before, entries[k]));
                    }
                }
            }
            s += 1;
        }
        while queue.len() > 0
            invariant
                n == all_files.len(),
                files == strs(all_files@),
                entries == strs(entry_points@),
                e == self@,
                self.wf(),
                marks_ok(files, visited@),
                marks_sound(e, files, entries, visited@),
                queue_ok(visited@, queue@),
                seeded(files, entries, visited@, entries.len() as int),
                settled(e, files, visited@, queue@, -1),
            decreases 2 * unmarked(visited@) + queue@.len(),
        {
            let ghost old_queue = queue@;
            let ghost measure = 2 * unmarked(visited@) + queue@.len();
            let u = queue.pop().unwrap();
            proof {
                assert(old_queue[old_queue.len() - 1] == u);
                assert forall|i: int|
                    0 <= i < visited@.len() && #[trigger] visited@[i] && i != u
                        && !queue@.contains(i as usize) implies row_done(
                    e,
                    files,
                    visited@,
                    files[i],
                    row_of(e, files[i]).len() as int,
                ) by {
                    if old_queue.contains(i as usize) {
                        let k = choose|k: int|
                            0 <= k < old_queue.len() && old_queue[k] == i as usize;
                        assert(queue@[k] == i as usize);
                    }
                }
                assert forall|k: int| 0 <= k < queue@.len() implies (#[trigger] queue@[k])
                    < visited@.len() && visited@[queue@[k] as int] by {
                    assert(queue@[k] == old_queue[k]);
                }
            }
            let ghost a = files[u as int];
            match self.adj.get(all_files[u].as_str()) {
                Some(row) => {
                    let mut k: usize = 0;
                    while k < row.len()
                        invariant
                            k <= row.len(),
                            u < n,
                            n == all_files.len(),
                            files == strs(all_files@),
                            entries == strs(entry_points@),
                            a == files[u as int],
                            strs(row@) == row_of(e, a),
                            visited@[u as int],
                            marks_ok(files, visited@),
                            marks_sound(e, files, entries, visited@),
                            queue_ok(visited@, queue@),
                            seeded(files, entries, visited@, entries.len() as int),
                            settled(e, files, visited@, queue@, u as int),
                            row_done(e, files, visited@, a, k as int),
                            2 * unmarked(visited@) + queue@.len() < measure,
                        decreases row.len() - k,
                    {
                        let ghost before = visited@;
                        let ghost waiting = queue@;
                        let ghost b = row_of(e, a)[k as int];
                        proof {
                            lemma_first_index(files, b, 0);
                            lemma_contains_first_index(files, b);
                        }
                        match position_in(all_files, &row[k]) {
                            Some(j) => {
                                if !visited[j] {
                                    visited.set(j, true);
                                    queue.push(j);
                                    proof {
                                        assert(edge(e, a, b));
                                        lemma_extend_walk(e, files, entries, a, b);
                                        lemma_marks_grow(
                                            e,
                                            files,
                                            entries,
                                            before,
                                            waiting,
                                            j as int,
                                            u as int,
                                        );
                                    }
                                }
                            },
                            None => {},
                        }
                        proof {
                            assert forall|m: int|
                                0 <= m < k + 1 && m < row_of(e, a).len() && files.contains(
                                    #[trigger] row_of(e, a)[m],
                                ) implies marked(files, visited@, row_of(e, a)[m]) by {
                                if m < k {
                                    assert(marked(files, before, row_of(e, a)[m]));
                                }
                            }
                            assert forall|m: int|
                                0 <= m < entries.len() && files.contains(
                                    #[trigger] entries[m],
                                ) implies marked(files, visited@, entries[m]) by {
                                assert(marked(files, before, entries[m]));
                            }
                        }
                        k += 1;
                    }
                },
                None => {
                    assert(row_of(e, a) =~= Seq::<Seq<char>>::empty()) by {
                        lemma_index_of(e, a, 0);
                    }
                },
            }
            proof {
                assert forall|i: int|
                    0 <= i < visited@.len() && #[trigger] visited@[i] && i != -1
                        && !queue@.contains(i as usize) implies row_done(
                    e,
                    files,
                    visited@,
                    files[i],
                    row_of(e, files[i]).len() as int,
                ) by {
                    if i == u {
                    }
                }
            }
        }
        let mut out: Vec<String> = Vec::new();
        let mut i: usize = 0;
        assert(strs(out@) =~= dead_files(e, files, entries, 0));
        assert(queue@ =~= Seq::<usize>::empty());
        while i < n
            invariant
                i <= n,
                n == all_files.len(),
                files == strs(all_files@),
                entries == strs(entry_points@),
                marks_ok(files, visited@),
                marks_sound(e, files, entries, visited@),
                seeded(files, entries, visited@, entries.len() as int),
                settled(e, files, visited@, Seq::<usize>::empty(), -1),
                strs(out@) == dead_files(e, files, entries, i as int),
            decreases n - i,
        {
            let ghost x = files[i as int];
            proof {
                assert(files.contains(x));
                lemma_marked_iff_reachable(e, files, entries, visited@, x);
                lemma_contains_first_index(files, x);
            }
            let is_dead = match position_in(all_files, &all_files[i]) {
                Some(j) => !visited[j],
                None => true,
            };
            if is_dead {
                let item = all_files[i].clone();
                proof {
                    lemma_strs_push(out@, item);
                }
                out.push(item);
            }
            i += 1;
        }
        proof {
            lemma_dead_files(e, files, entries, n as int);
            assert forall|x: Seq<char>| strs(out@).contains(x) <==> dead(
                e,
                files,
                entries,
                x,
            ) by {
                if dead(e, files, entries, x) {
                    let i = choose|i: int| 0 <= i < files.len() && files[i] == x;
                    assert(0 <= i < n && files[i] == x);
                }
            }
        }
        out
    }
}

/// `c` leads along edges from its first file back to it.
pub open spec fn is_cycle(e: Entries, c: Seq<Seq<char>>) -> bool {
    &&& c.len() > 0
    &&& forall|k: int| 0 <= k < c.len() - 1 ==> edge(e, #[trigger] c[k], c[k + 1])
    &&& edge(e, c.last(), c[0])
}

/// The graph has no cycle.
pub open spec fn acyclic(e: Entries) -> bool {
    forall|c: Seq<Seq<char>>| !is_cycle(e, c)
}

/// Every one of `cycles` is a cycle.
pub open spec fn all_cycles(e: Entries, cycles: Seq<Vec<String>>) -> bool {
    forall|k: int| 0 <= k < cycles.len() ==> is_cycle(e, strs((#[trigger] cycles[k])@))
}

/// `path` leads along edges through `nodes`.
pub open spec fn is_trail(e: Entries, nodes: Seq<Seq<char>>, path: Seq<usize>) -> bool {
    &&& forall|k: int| 0 <= k < path.len() ==> (#[trigger] path[k]) < nodes.len()
    &&& forall|k: int|
        0 <= k < path.len() - 1 ==> edge(e, nodes[(#[trigger] path[k]) as int], nodes[path[k
            + 1] as int])
}

/// Every file that an edge leads to is among `nodes`.
pub open spec fn holds_targets(e: Entries, nodes: Seq<Seq<char>>) -> bool {
    forall|a: Seq<char>, b: Seq<char>| #[trigger] edge(e, a, b) ==> nodes.contains(b)
}

/// The files named by `done`, in the order in which the walk has left them:
/// as long as no cycle was found, every edge from one of them leads to one
/// that was left before it.
pub open spec fn leads_back(
    e: Entries,
    nodes: Seq<Seq<char>>,
    done: Seq<usize>,
    found: int,
) -> bool {
    found == 0 ==> forall|p: int, b: Seq<char>|
        0 <= p < done.len() && #[trigger] edge(e, nodes[done[p] as int], b) ==> exists|q: int|
            0 <= q < p && nodes[#[trigger] done[q] as int] == b
}

/// Where the walk stands: the files on `path` are marked and not yet left,
/// every other marked file is left, and the edges of the files that are left
/// lead back.
pub open spec fn walk_ok(
    e: Entries,
    nodes: Seq<Seq<char>>,
    visited: Seq<bool>,
    path: Seq<usize>,
    done: Seq<usize>,
    found: int,
) -> bool {
    &&& visited.len() == nodes.len()
    &&& is_trail(e, nodes, path)
    &&& forall|k: int| 0 <= k < path.len() ==> visited[(#[trigger] path[k]) as int]
    &&& forall|k: int| 0 <= k < path.len() ==> !done.contains(#[trigger] path[k])
    &&& forall|p: int|
        0 <= p < done.len() ==> (#[trigger] done[p]) < nodes.len() && visited[done[p] as int]
    &&& forall|i: int|
        0 <= i < nodes.len() && #[trigger] visited[i] && !path.contains(i as usize)
            ==> done.contains(i as usize)
    &&& leads_back(e, nodes, done, found)
}

/// Where every edge leads back to a file left earlier, no file that is left
/// lies on a cycle.
pub proof fn lemma_no_cycle_through(
    e: Entries,
    nodes: Seq<Seq<char>>,
    done: Seq<usize>,
    c: Seq<Seq<char>>,
    k: int,
    p: int,
)
    requires
        leads_back(e, nodes, done, 0),
        is_cycle(e, c),
        0 <= k < c.len(),
        0 <= p < done.len(),
    ensures
        nodes[done[p] as int] != c[k],
    decreases p,
{
    if nodes[done[p] as int] == c[k] {
        let next = if k + 1 < c.len() {
            k + 1
        } else {
            0
        };
        assert(edge(e, c[k], c[next])) by {
            if k + 1 < c.len() {
                assert(edge(e, c[k], c[k + 1]));
            }
        }
        assert(edge(e, nodes[done[p] as int], c[next]));
        let q = choose|q: int| 0 <= q < p && nodes[#[trigger] done[q] as int] == c[next];
        lemma_no_cycle_through(e, nodes, done, c, next, q);
    }
}

/// `s` with `x` behind it, unless `x` stands in it already.
pub open spec fn with_name(s: Seq<Seq<char>>, x: Seq<char>) -> Seq<Seq<char>> {
    if first_index(s, x, 0) >= 0 {
        s
    } else {
        s.push(x)
    }
}

/// The names of the first `upto` entries, each once.
pub open spec fn key_nodes(e: Entries, upto: int) -> Seq<Seq<char>>
    decreases upto,
{
    if upto <= 0 {
        Seq::empty()
    } else {
        with_name(key_nodes(e, upto - 1), e[upto - 1].0)
    }
}

/// `s` with the first `upto` of `more` behind it, each once.
pub open spec fn with_names(s: Seq<Seq<char>>, more: Seq<Seq<char>>, upto: int) -> Seq<Seq<char>>
    decreases upto,
{
    if upto <= 0 {
        s
    } else {
        with_name(with_names(s, more, upto - 1), more[upto - 1])
    }
}

/// The names of all entries, and behind them what the rows of the first
/// `upto` entries name, each once.
pub open spec fn row_nodes(e: Entries, upto: int) -> Seq<Seq<char>>
    decreases upto,
{
    if upto <= 0 {
        key_nodes(e, e.len() as int)
    } else {
        with_names(row_nodes(e, upto - 1), e[upto - 1].1, e[upto - 1].1.len() as int)
    }
}

/// The files of a graph, each once: those that edges start from, in the
/// order of the entries, and then those that edges only lead to.
pub open spec fn nodes_of(e: Entries) -> Seq<Seq<char>> {
    row_nodes(e, e.len() as int)
}

/// What a walk has marked and found so far.
pub struct Walk {
    pub visited: Seq<bool>,
    pub cycles: Seq<Seq<Seq<char>>>,
}

/// The first index at or after `from` at which `j` stands on `path`, or the
/// length of `path`.
pub open spec fn path_index(path: Seq<usize>, j: usize, from: int) -> int
    decreases path.len() - from,
{
    if from < 0 || from >= path.len() {
        path.len() as int
    } else if path[from] == j {
        from
    } else {
        path_index(path, j, from + 1)
    }
}

/// The files on `path` from `from` on.
pub open spec fn trail_names(names: Seq<Seq<char>>, path: Seq<usize>, from: int) -> Seq<Seq<char>> {
    Seq::new((path.len() - from) as nat, |m: int| names[path[from + m] as int])
}

/// The walk once it has entered the file `node` from `path` and left it
/// again. The file is marked and its edges are followed in their order.
/// `fuel` bounds how deep the walk goes; it never runs out where it is no
/// less than the number of files that are not marked.
pub open spec fn walk_from(
    e: Entries,
    names: Seq<Seq<char>>,
    node: usize,
    path: Seq<usize>,
    w: Walk,
    fuel: nat,
) -> Walk
    decreases fuel, row_of(e, names[node as int]).len() + 1,
{
    if fuel == 0 {
        w
    } else {
        walk_row(
            e,
            names,
            node,
            path.push(node),
            Walk { visited: w.visited.update(node as int, true), cycles: w.cycles },
            fuel,
            row_of(e, names[node as int]).len() as int,
        )
    }
}

/// The walk once it has followed the first `upto` edges of the file `node`,
/// the last file on `path`. An edge to a file that is not marked is walked
/// from there. An edge to a file on `path` closes a cycle: the files on
/// `path` from that file on. Any other edge is passed over.
pub open spec fn walk_row(
    e: Entries,
    names: Seq<Seq<char>>,
    node: usize,
    path: Seq<usize>,
    start: Walk,
    fuel: nat,
    upto: int,
) -> Walk
    decreases fuel, upto,
{
    if upto <= 0 || fuel == 0 {
        start
    } else {
        let w = walk_row(e, names, node, path, start, fuel, upto - 1);
        let j = first_index(names, row_of(e, names[node as int])[upto - 1], 0);
        if j < 0 || j >= w.visited.len() {
            w
        } else if !w.visited[j] {
            walk_from(e, names, j as usize, path, w, (fuel - 1) as nat)
        } else {
            let pos = path_index(path, j as usize, 0);
            if pos < path.len() {
                Walk { visited: w.visited, cycles: w.cycles.push(trail_names(names, path, pos)) }
            } else {
                w
            }
        }
    }
}

/// The walk once it has started from each of the first `upto` files that
/// was not marked by then.
pub open spec fn walk_all(e: Entries, names: Seq<Seq<char>>, upto: int) -> Walk
    decreases upto,
{
    if upto <= 0 {
        Walk { visited: Seq::new(names.len(), |i: int| false), cycles: Seq::empty() }
    } else {
        let w = walk_all(e, names, upto - 1);
        if upto - 1 < w.visited.len() && !w.visited[upto - 1] {
            walk_from(e, names, (upto - 1) as usize, Seq::empty(), w, names.len())
        } else {
            w
        }
    }
}

/// The cycles that a walk through the graph comes upon, in the order in
/// which it finds them: the walk starts from each file in turn and goes
/// as deep as it can before it follows the next edge of a file.
pub open spec fn found_cycles(e: Entries) -> Seq<Seq<Seq<char>>> {
    walk_all(e, nodes_of(e), nodes_of(e).len() as int).cycles
}

pub open spec fn cycle_views(cycles: Seq<Vec<String>>) -> Seq<Seq<Seq<char>>> {
    Seq::new(cycles.len(), |k: int| strs(cycles[k]@))
}

/// No more files are unmarked than there are files.
pub proof fn lemma_unmarked_bound(visited: Seq<bool>)
    ensures
        unmarked(visited) <= visited.len(),
    decreases visited.len(),
{
    if visited.len() > 0 {
        lemma_unmarked_bound(visited.drop_last());
    }
}

fn add_node(nodes: &mut Vec<String>, name: &String)
    ensures
        strs(final(nodes)@) == with_name(strs(old(nodes)@), name@),
        strs(final(nodes)@).contains(name@),
        forall|x: Seq<char>| strs(old(nodes)@).contains(x) ==> strs(final(nodes)@).contains(x),
{
    proof {
        lemma_contains_first_index(strs(nodes@), name@);
    }
    match position_in(nodes, name) {
        Some(_) => {},
        None => {
            let ghost before = strs(nodes@);
            let item = name.clone();
            proof {
                lemma_strs_push(nodes@, item);
            }
            nodes.push(item);
            assert(strs(nodes@)[nodes@.len() - 1] == name@);
            assert forall|x: Seq<char>| before.contains(x) implies strs(nodes@).contains(x) by {
                let i = choose|i: int| 0 <= i < before.len() && before[i] == x;
                assert(strs(nodes@)[i] == x);
            }
        },
    }
}

impl DependencyGraph {
    /// The cycles that a walk through the graph comes upon: one for every
    /// edge that leads back to a file on the way of the walk, made of the
    /// files on that way from the file that the edge leads to. Each is a
    /// trail of files along edges that ends with an edge back to its first
    /// file, and there is one unless the graph has no cycle.
    pub fn detect_cycles(&self) -> (cycles: Vec<Vec<String>>)
        requires
            self.wf(),
        ensures
            cycle_views(cycles@) == found_cycles(self@),
            all_cycles(self@, cycles@),
            cycles@.len() == 0 <==> acyclic(self@),
    {
        let ghost e = self@;
        let mut nodes: Vec<String> = Vec::new();
        let mut i: usize = 0;
        assert(strs(nodes@) =~= key_nodes(e, 0));
        while i < self.adj.len()
            invariant
                i <= self.adj@.len(),
                self.wf(),
                e == self@,
                strs(nodes@) == key_nodes(e, i as int),
            decreases self.adj@.len() - i,
        {
            add_node(&mut nodes, self.adj.key_at(i));
            i += 1;
        }
        i = 0;
        while i < self.adj.len()
            invariant
                i <= self.adj@.len(),
                self.wf(),
                e == self@,
                strs(nodes@) == row_nodes(e, i as int),
                forall|j: int, k: int|
                    0 <= j < i && 0 <= k < e[j].1.len() ==> strs(nodes@).contains(
                        #[trigger] e[j].1[k],
                    ),
            decreases self.adj@.len() - i,
        {
            let row = self.adj.row_at(i);
            let mut k: usize = 0;
            while k < row.len()
                invariant
                    k <= row.len(),
                    i < e.len(),
                    strs(row@) == e[i as int].1,
                    strs(nodes@) == with_names(row_nodes(e, i as int), e[i as int].1, k as int),
                    forall|j: int, m: int|
                        0 <= j < i && 0 <= m < e[j].1.len() ==> strs(nodes@).contains(
                            #[trigger] e[j].1[m],
                        ),
                    forall|m: int|
                        0 <= m < k ==> strs(nodes@).contains(#[trigger] e[i as int].1[m]),
                decreases row.len() - k,
            {
                assert(strs(row@)[k as int] == row@[k as int]@);
                add_node(&mut nodes, &row[k]);
                k += 1;
            }
            i += 1;
        }
        let ghost names = strs(nodes@);
        assert(names == nodes_of(e));
        proof {
            assert forall|a: Seq<char>, b: Seq<char>| #[trigger] edge(e, a, b) implies names.contains(
                b,
            ) by {
                lemma_index_of(e, a, 0);
                let j = index_of(e, a, 0);
                let k = choose|k: int| 0 <= k < row_of(e, a).len() && row_of(e, a)[k] == b;
                assert(names.contains(e[j].1[k]));
            }
        }
        let mut visited: Vec<bool> = Vec::new();
        while visited.len() < nodes.len()
            invariant
                visited.len() <= nodes.len(),
                forall|j: int| 0 <= j < visited.len() ==> !visited@[j],
            decreases nodes.len() - visited.len(),
        {
            visited.push(false);
        }
        let mut cycles: Vec<Vec<String>> = Vec::new();
        let mut path: Vec<usize> = Vec::new();
        let mut done: Ghost<Seq<usize>> = Ghost(Seq::empty());
        let mut n: usize = 0;
        proof {
            assert(visited@ =~= Seq::new(names.len(), |i: int| false));
            assert(cycle_views(cycles@) =~= Seq::<Seq<Seq<char>>>::empty());
            assert(path@ =~= Seq::<usize>::empty());
        }
        while n < nodes.len()
            invariant
                n <= nodes.len(),
                self.wf(),
                e == self@,
                names == strs(nodes@),
                (Walk { visited: visited@, cycles: cycle_views(cycles@) }) == walk_all(
                    e,
                    names,
                    n as int,
                ),
                holds_targets(e, names),
                path@.len() == 0,
                walk_ok(e, names, visited@, path@, done@, cycles@.len() as int),
                all_cycles(e, cycles@),
                forall|j: int| 0 <= j < n ==> visited@[j],
            decreases nodes.len() - n,
        {
            proof {
                lemma_unmarked_bound(visited@);
                assert(path@ =~= Seq::<usize>::empty());
            }
            if !visited[n] {
                self.dfs(
                    &nodes,
                    n,
                    &mut visited,
                    &mut path,
                    &mut cycles,
                    &mut done,
                    Ghost(names.len()),
                );
            }
            n += 1;
        }
        proof {
            if cycles@.len() > 0 {
                assert(is_cycle(e, strs(cycles@[0]@)));
            } else {
                assert forall|c: Seq<Seq<char>>| !is_cycle(e, c) by {
                    if is_cycle(e, c) {
                        assert(edge(e, c.last(), c[0]));
                        lemma_contains_first_index(names, c[0]);
                        let i0 = first_index(names, c[0], 0);
                        assert(visited@[i0]);
                        assert(!path@.contains(i0 as usize));
                        assert(done@.contains(i0 as usize));
                        let p = choose|p: int| 0 <= p < done@.len() && done@[p] == i0 as usize;
                        lemma_no_cycle_through(e, names, done@, c, 0, p);
                    }
                }
            }
        }
        cycles
    }

    fn dfs(
        &self,
        nodes: &Vec<String>,
        node: usize,
        visited: &mut Vec<bool>,
        path: &mut Vec<usize>,
        cycles: &mut Vec<Vec<String>>,
        done: &mut Ghost<Seq<usize>>,
        fuel: Ghost<nat>,
    )
        requires
            self.wf(),
            node < nodes.len(),
            fuel@ >= unmarked(old(visited)@),
            !old(visited)@[node as int],
            holds_targets(self@, strs(nodes@)),
            walk_ok(
                self@,
                strs(nodes@),
                old(visited)@,
                old(path)@,
                old(done)@,
                old(cycles)@.len() as int,
            ),
            old(path)@.len() > 0 ==> edge(
                self@,
                strs(nodes@)[old(path)@.last() as int],
                strs(nodes@)[node as int],
            ),
            all_cycles(self@, old(cycles)@),
        ensures
            forall|i: int|
                0 <= i < nodes.len() && old(visited)@[i] ==> #[trigger] final(visited)@[i],
            final(visited)@[node as int],
            unmarked(final(visited)@) < unmarked(old(visited)@),
            final(path)@ == old(path)@,
            old(cycles)@.len() <= final(cycles)@.len(),
            old(done)@.len() <= final(done)@.len(),
            forall|p: int| 0 <= p < old(done)@.len() ==> final(done)@[p] == old(done)@[p],
            walk_ok(
                self@,
                strs(nodes@),
                final(visited)@,
                final(path)@,
                final(done)@,
                final(cycles)@.len() as int,
            ),
            all_cycles(self@, final(cycles)@),
            (Walk { visited: final(visited)@, cycles: cycle_views(final(cycles)@) }) == walk_from(
                self@,
                strs(nodes@),
                node,
                old(path)@,
                (Walk { visited: old(visited)@, cycles: cycle_views(old(cycles)@) }),
                fuel@,
            ),
        decreases unmarked(old(visited)@),
    {
        let ghost e = self@;
        let ghost names = strs(nodes@);
        let ghost start = Walk {
            visited: old(visited)@.update(node as int, true),
            cycles: cycle_views(old(cycles)@),
        };
        let ghost way = old(path)@.push(node);
        proof {
            lemma_mark_one(visited@, node as int);
        }
        visited.set(node, true);
        path.push(node);
        proof {
            assert forall|k: int| 0 <= k < path@.len() - 1 implies edge(
                e,
                names[(#[trigger] path@[k]) as int],
                names[path@[k + 1] as int],
            ) by {
                if k < old(path)@.len() - 1 {
                    assert(path@[k] == old(path)@[k]);
                    assert(path@[k + 1] == old(path)@[k + 1]);
                }
            }
            assert forall|k: int| 0 <= k < path@.len() implies visited@[(#[trigger] path@[k]) as int]
                && !done@.contains(path@[k]) && path@[k] < names.len() by {
                if k < old(path)@.len() {
                    assert(path@[k] == old(path)@[k]);
                } else {
                    if done@.contains(node) {
                        let p = choose|p: int| 0 <= p < done@.len() && done@[p] == node;
                        assert(old(visited)@[done@[p] as int]);
                    }
                }
            }
            assert forall|i: int|
                0 <= i < names.len() && #[trigger] visited@[i] && !path@.contains(
                    i as usize,
                ) implies done@.contains(i as usize) by {
                assert(path@[path@.len() - 1] == node);
                assert(i != node);
                if old(path)@.contains(i as usize) {
                    let k = choose|k: int| 0 <= k < old(path)@.len() && old(path)@[k] == i as usize;
                    assert(path@[k] == i as usize);
                }
            }
            assert(walk_ok(e, names, visited@, path@, done@, cycles@.len() as int));
        }
        let ghost entered = visited@;
        let ghost row_view = row_of(e, names[node as int]);
        match self.adj.get(nodes[node].as_str()) {
            Some(row) => {
                let mut k: usize = 0;
                while k < row.len()
                    invariant
                        k <= row.len(),
                        self.wf(),
                        e == self@,
                        names == strs(nodes@),
                        node < nodes.len(),
                        holds_targets(e, names),
                        strs(row@) == row_of(e, names[node as int]),
                        entered.len() == nodes.len(),
                        unmarked(entered) < unmarked(old(visited)@),
                        forall|i: int|
                            0 <= i < nodes.len() && old(visited)@[i] ==> #[trigger] visited@[i],
                        visited@[node as int],
                        unmarked(visited@) <= unmarked(entered),
                        path@ == old(path)@.push(node),
                        old(cycles)@.len() <= cycles@.len(),
                        old(done)@.len() <= done@.len(),
                        forall|p: int| 0 <= p < old(done)@.len() ==> done@[p] == old(done)@[p],
                        walk_ok(e, names, visited@, path@, done@, cycles@.len() as int),
                        all_cycles(e, cycles@),
                        cycles@.len() == 0 ==> forall|m: int|
                            0 <= m < k ==> exists|q: int|
                                0 <= q < done@.len() && names[#[trigger] done@[q] as int]
                                    == #[trigger] strs(row@)[m],
                        fuel@ >= unmarked(old(visited)@),
                        way == old(path)@.push(node),
                        (Walk { visited: visited@, cycles: cycle_views(cycles@) }) == walk_row(
                            e,
                            names,
                            node,
                            way,
                            start,
                            fuel@,
                            k as int,
                        ),
                    decreases row.len() - k,
                {
                    let ghost here = Walk { visited: visited@, cycles: cycle_views(cycles@) };
                    let ghost nb = strs(row@)[k as int];
                    let ghost done_before = done@;
                    assert(edge(e, names[node as int], nb));
                    proof {
                        lemma_first_index(names, nb, 0);
                        lemma_contains_first_index(names, nb);
                    }
                    match position_in(nodes, &row[k]) {
                        Some(j) => {
                            if !visited[j] {
                                self.dfs(
                                    nodes,
                                    j,
                                    visited,
                                    path,
                                    cycles,
                                    done,
                                    Ghost((fuel@ - 1) as nat),
                                );
                                proof {
                                    assert(!path@.contains(j)) by {
                                        if path@.contains(j) {
                                            let w = choose|w: int|
                                                0 <= w < path@.len() && path@[w] == j;
                                            if w < old(path)@.len() {
                                                assert(old(path)@[w] == j);
                                                assert(old(visited)@[old(path)@[w] as int]);
                                            }
                                        }
                                    }
                                    assert(done@.contains(j));
                                }
                            } else {
                                let mut pos: usize = 0;
                                while pos < path.len() && path[pos] != j
                                    invariant
                                        pos <= path.len(),
                                        forall|w: int| 0 <= w < pos ==> path@[w] != j,
                                        path_index(path@, j, pos as int) == path_index(path@, j, 0),
                                    decreases path.len() - pos,
                                {
                                    pos += 1;
                                }
                                if pos < path.len() {
                                    let mut cycle: Vec<String> = Vec::new();
                                    let mut q: usize = pos;
                                    while q < path.len()
                                        invariant
                                            pos <= q <= path.len(),
                                            names == strs(nodes@),
                                            is_trail(e, names, path@),
                                            cycle@.len() == q - pos,
                                            forall|m: int|
                                                0 <= m < cycle@.len() ==> (#[trigger] cycle@[m])@
                                                    == names[path@[pos + m] as int],
                                        decreases path.len() - q,
                                    {
                                        cycle.push(nodes[path[q]].clone());
                                        q += 1;
                                    }
                                    proof {
                                        let c = strs(cycle@);
                                        assert(c.last() == names[node as int]);
                                        assert(c[0] == nb);
                                        assert forall|m: int| 0 <= m < c.len() - 1 implies edge(
                                            e,
                                            #[trigger] c[m],
                                            c[m + 1],
                                        ) by {
                                            assert(c[m] == names[path@[pos + m] as int]);
                                            assert(c[m + 1] == names[path@[pos + m + 1] as int]);
                                        }
                                        assert(is_cycle(e, c));
                                        assert(c =~= trail_names(names, path@, pos as int));
                                        assert(cycle_views(cycles@.push(cycle)) =~= cycle_views(
                                            cycles@,
                                        ).push(c));
                                        let ghost before = cycles@;
                                        assert forall|w: int|
                                            0 <= w < before.push(cycle).len() implies is_cycle(
                                            e,
                                            strs((#[trigger] before.push(cycle)[w])@),
                                        ) by {
                                            if w < before.len() {
                                                assert(before.push(cycle)[w] == before[w]);
                                            }
                                        }
                                    }
                                    cycles.push(cycle);
                                } else {
                                    proof {
                                        assert(!path@.contains(j));
                                        assert(done@.contains(j));
                                    }
                                }
                            }
                        },
                        None => {},
                    }
                    proof {
                        assert((Walk { visited: visited@, cycles: cycle_views(cycles@) })
                            == walk_row(e, names, node, way, start, fuel@, k + 1));
                        if cycles@.len() == 0 {
                            assert forall|m: int| 0 <= m < k + 1 implies exists|q: int|
                                0 <= q < done@.len() && names[#[trigger] done@[q] as int]
                                    == #[trigger] strs(row@)[m] by {
                                if m < k {
                                    let q = choose|q: int|
                                        0 <= q < done_before.len() && names[
                                            #[trigger] done_before[q] as int] == strs(row@)[m];
                                    assert(done@[q] == done_before[q]);
                                } else {
                                    let j = first_index(names, nb, 0);
                                    assert(done@.contains(j as usize));
                                    let q = choose|q: int|
                                        0 <= q < done@.len() && done@[q] == j as usize;
                                    assert(names[done@[q] as int] == nb);
                                }
                            }
                        }
                    }
                    k += 1;
                }
            },
            None => {
                proof {
                    lemma_index_of(e, names[node as int], 0);
                    assert(row_view =~= Seq::<Seq<char>>::empty());
                }
            },
        }
        let ghost path_before = path@;
        let ghost done_before = done@;
        path.pop();
        proof {
            done@ = done@.push(node);
            assert(path@ =~= old(path)@);
            assert(done@[done@.len() - 1] == node);
            assert forall|k: int| 0 <= k < path@.len() implies !done@.contains(
                #[trigger] path@[k],
            ) by {
                assert(path_before[k] == path@[k]);
                assert(!done_before.contains(path@[k]));
                if done@.contains(path@[k]) {
                    let p = choose|p: int| 0 <= p < done@.len() && done@[p] == path@[k];
                    if p < done_before.len() {
                        assert(done_before[p] == path@[k]);
                    } else {
                        assert(path@[k] == node);
                        assert(old(visited)@[old(path)@[k] as int]);
                    }
                }
            }
            assert forall|i: int|
                0 <= i < names.len() && #[trigger] visited@[i] && !path@.contains(
                    i as usize,
                ) implies done@.contains(i as usize) by {
                if i == node {
                } else {
                    assert(!path_before.contains(i as usize)) by {
                        if path_before.contains(i as usize) {
                            let w = choose|w: int|
                                0 <= w < path_before.len() && path_before[w] == i as usize;
                            assert(w < path@.len());
                            assert(path@[w] == i as usize);
                        }
                    }
                    assert(done_before.contains(i as usize));
                    let p = choose|p: int|
                        0 <= p < done_before.len() && done_before[p] == i as usize;
                    assert(done@[p] == i as usize);
                }
            }
            assert forall|p: int| 0 <= p < done@.len() implies (#[trigger] done@[p]) < names.len()
                && visited@[done@[p] as int] by {
                if p < done_before.len() {
                    assert(done@[p] == done_before[p]);
                }
            }
            if cycles@.len() == 0 {
                assert forall|p: int, b: Seq<char>|
                    0 <= p < done@.len() && #[trigger] edge(
                        e,
                        names[done@[p] as int],
                        b,
                    ) implies exists|q: int|
                    0 <= q < p && names[#[trigger] done@[q] as int] == b by {
                    if p < done_before.len() {
                        assert(done@[p] == done_before[p]);
                        let q = choose|q: int|
                            0 <= q < p && names[#[trigger] done_before[q] as int] == b;
                        assert(done@[q] == done_before[q]);
                    } else {
                        let m = choose|m: int| 0 <= m < row_view.len() && row_view[m] == b;
                        let q = choose|q: int|
                            0 <= q < done_before.len() && names[#[trigger] done_before[q] as int]
                                == row_view[m];
                        assert(done@[q] == done_before[q]);
                    }
                }
            }
        }
    }
}

} // verus!
