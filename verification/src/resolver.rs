//! From a dependency as it is written in a source file to the files it may
//! stand for.

use crate::order::{lemma_sort_unique, sort_dedup, sort_unique, strictly_sorted};
use crate::paths::{file_stem, file_stem_of};
use crate::table::{row_of, Entries, PathTable};
use crate::text::{
    contains, contains_seq, lemma_views_push, split, split_from, starts_with, starts_with_seq,
    strs, to_chars, to_string, to_strings, trim, trim_seq, views,
};
use vstd::prelude::*;

verus! {

/// The paths that `dep` hits in the registry `e`, in the order in which the
/// strategies find them.
///
/// A dependency with a dot that does not start with one is looked up by its
/// first segment. One with `::` is looked up by its last segment and, if
/// nothing was found so far, by the segment before it. If nothing was found,
/// the whole text is looked up; then the trimmed text after the last `::`;
/// then the stem of the dependency read as a path.
pub open spec fn hits(e: Entries, raw: Seq<char>) -> Seq<Seq<char>> {
    let dep = trim_seq(raw);
    let dotted = split_from(dep, "."@, 0);
    let segs = split_from(dep, "::"@, 0);
    let m1 = if contains_seq(dep, "."@) && !starts_with_seq(dep, "."@) {
        row_of(e, dotted[0])
    } else {
        Seq::empty()
    };
    let m2 = if contains_seq(dep, "::"@) {
        let with_last = m1 + row_of(e, segs.last());
        if with_last.len() == 0 && segs.len() > 1 {
            row_of(e, segs[segs.len() - 2])
        } else {
            with_last
        }
    } else {
        m1
    };
    let m3 = if m2.len() == 0 {
        row_of(e, dep)
    } else {
        m2
    };
    let m4 = if m3.len() == 0 {
        row_of(
            e,
            if contains_seq(dep, "::"@) {
                trim_seq(segs.last())
            } else {
                dep
            },
        )
    } else {
        m3
    };
    if m4.len() == 0 {
        match file_stem_of(dep) {
            Some(stem) => row_of(e, stem),
            None => Seq::empty(),
        }
    } else {
        m4
    }
}

/// The files that `dep` may stand for: what it hits, sorted, each path once.
pub open spec fn resolved(e: Entries, dep: Seq<char>) -> Seq<Seq<char>> {
    sort_unique(hits(e, dep), hits(e, dep).len() as int)
}

/// Resolves dependencies against a registry of file stems.
pub struct Resolver {
    registry: PathTable,
}

impl View for Resolver {
    type V = Entries;

    closed spec fn view(&self) -> Entries {
        self.registry@
    }
}

fn row_chars(table: &PathTable, key: &Vec<char>) -> (r: Vec<Vec<char>>)
    requires
        table.wf(),
    ensures
        views(r@) == row_of(table@, key@),
{
    let name = to_string(key);
    let mut out: Vec<Vec<char>> = Vec::new();
    match table.get(name.as_str()) {
        Some(row) => {
            let mut i: usize = 0;
            assert(views(out@) =~= strs(row@).take(0));
            while i < row.len()
                invariant
                    i <= row.len(),
                    views(out@) == strs(row@).take(i as int),
                decreases row.len() - i,
            {
                let item = to_chars(row[i].as_str());
                proof {
                    lemma_views_push(out@, item);
                    assert(strs(row@).take(i + 1) =~= strs(row@).take(i as int).push(item@));
                }
                out.push(item);
                i += 1;
            }
            assert(strs(row@).take(row@.len() as int) =~= strs(row@));
        },
        None => {
            assert(views(out@) =~= Seq::<Seq<char>>::empty());
        },
    }
    out
}

fn extend(out: &mut Vec<Vec<char>>, more: Vec<Vec<char>>)
    ensures
        views(final(out)@) == views(old(out)@) + views(more@),
{
    let mut more = more;
    let ghost all = views(more@);
    let mut rev: Vec<Vec<char>> = Vec::new();
    let mut i: usize = 0;
    assert(views(out@) =~= views(old(out)@) + all.take(0));
    while i < more.len()
        invariant
            i <= more.len(),
            all == views(more@),
            views(out@) == views(old(out)@) + all.take(i as int),
        decreases more.len() - i,
    {
        let item = crate::text::slice(&more[i], 0, more[i].len());
        proof {
            lemma_views_push(out@, item);
            assert(item@ =~= all[i as int]);
            assert(all.take(i + 1) =~= all.take(i as int).push(all[i as int]));
            assert((views(old(out)@) + all.take(i as int)).push(item@) =~= views(old(out)@)
                + all.take(i + 1));
        }
        out.push(item);
        i += 1;
    }
    assert(all.take(all.len() as int) =~= all);
}

impl Resolver {
    /// The registry is in order.
    pub closed spec fn wf(&self) -> bool {
        self.registry.wf()
    }

    pub fn new(registry: PathTable) -> (r: Resolver)
        requires
            registry.wf(),
        ensures
            r.wf(),
            r@ == registry@,
    {
        Resolver { registry }
    }

    /// The files that `dep` may stand for, sorted, each path once.
    pub fn resolve(&self, dep: &str) -> (r: Vec<String>)
        requires
            self.wf(),
        ensures
            strs(r@) == resolved(self@, dep@),
            strictly_sorted(strs(r@)),
            forall|p: Seq<char>| strs(r@).contains(p) <==> hits(self@, dep@).contains(p),
    {
        let d = trim(&to_chars(dep));
        let dot = to_chars(".");
        let colons = to_chars("::");
        let mut found: Vec<Vec<char>> = Vec::new();
        assert(views(found@) =~= Seq::<Seq<char>>::empty());
        if contains(&d, &dot) && !starts_with(&d, &dot) {
            let dotted = split(&d, &dot);
            assert(views(dotted@)[0] == dotted@[0]@);
            found = row_chars(&self.registry, &dotted[0]);
        }
        let has_colons = contains(&d, &colons);
        let segs = split(&d, &colons);
        let last = &segs[segs.len() - 1];
        assert(views(segs@).last() == last@);
        if has_colons {
            extend(&mut found, row_chars(&self.registry, last));
            if found.len() == 0 && segs.len() > 1 {
                assert(views(segs@)[segs@.len() - 2] == segs@[segs@.len() - 2]@);
                found = row_chars(&self.registry, &segs[segs.len() - 2]);
            }
        }
        if found.len() == 0 {
            found = row_chars(&self.registry, &d);
        }
        if found.len() == 0 {
            found = if has_colons {
                row_chars(&self.registry, &trim(last))
            } else {
                row_chars(&self.registry, &d)
            };
        }
        if found.len() == 0 {
            match file_stem(&d) {
                Some(stem) => {
                    found = row_chars(&self.registry, &stem);
                },
                None => {},
            }
        }
        assert(views(found@) =~= hits(self@, dep@));
        let sorted = sort_dedup(&found);
        proof {
            lemma_sort_unique(views(found@), found@.len() as int);
            assert forall|p: Seq<char>| views(sorted@).contains(p) <==> views(found@).contains(
                p,
            ) by {
                if views(found@).contains(p) {
                    let i = choose|i: int| 0 <= i < found@.len() && views(found@)[i] == p;
                    assert(0 <= i < found@.len() && views(found@)[i] == p);
                }
            }
        }
        to_strings(&sorted)
    }
}

} // verus!
