//! A table from names to lists of paths, which keeps its names in the order
//! in which they came.

use crate::text::{lemma_strs_push, strs};
use vstd::prelude::*;

verus! {

/// The entries of a table: each name with its row.
pub type Entries = Seq<(Seq<char>, Seq<Seq<char>>)>;

/// The index of the first entry at or after `from` that is named `key`, or -1.
pub open spec fn index_of(e: Entries, key: Seq<char>, from: int) -> int
    decreases e.len() - from,
{
    if from < 0 || from >= e.len() {
        -1
    } else if e[from].0 == key {
        from
    } else {
        index_of(e, key, from + 1)
    }
}

/// Whether an entry is named `key`.
pub open spec fn has_key(e: Entries, key: Seq<char>) -> bool {
    index_of(e, key, 0) >= 0
}

/// The row named `key`; empty where there is none.
pub open spec fn row_of(e: Entries, key: Seq<char>) -> Seq<Seq<char>> {
    let i = index_of(e, key, 0);
    if 0 <= i < e.len() {
        e[i].1
    } else {
        Seq::empty()
    }
}

/// No two entries have the same name.
pub open spec fn distinct_keys(e: Entries) -> bool {
    forall|i: int, j: int| 0 <= i < j < e.len() ==> (#[trigger] e[i]).0 != (#[trigger] e[j]).0
}

pub proof fn lemma_index_of(e: Entries, key: Seq<char>, from: int)
    requires
        0 <= from,
    ensures
        index_of(e, key, from) == -1 || from <= index_of(e, key, from) < e.len(),
        index_of(e, key, from) >= 0 ==> e[index_of(e, key, from)].0 == key,
        forall|j: int|
            from <= j < e.len() && (j < index_of(e, key, from) || index_of(e, key, from) < 0)
                ==> (#[trigger] e[j]).0 != key,
    decreases e.len() - from,
{
    if from < e.len() && e[from].0 != key {
        lemma_index_of(e, key, from + 1);
    }
}

/// Where two tables agree on their names, a name is found at the same place
/// in both.
pub proof fn lemma_index_same_keys(e: Entries, other: Entries, key: Seq<char>, from: int)
    requires
        0 <= from,
        e.len() == other.len(),
        forall|i: int| 0 <= i < e.len() ==> (#[trigger] e[i]).0 == other[i].0,
    ensures
        index_of(e, key, from) == index_of(other, key, from),
    decreases e.len() - from,
{
    if from < e.len() {
        assert(e[from].0 == other[from].0);
        if e[from].0 != key {
            lemma_index_same_keys(e, other, key, from + 1);
        }
    }
}

/// In a table with one entry more, a name is found where it was found, or
/// else at the end if the new entry has it.
pub proof fn lemma_index_pushed(
    e: Entries,
    entry: (Seq<char>, Seq<Seq<char>>),
    key: Seq<char>,
    from: int,
)
    requires
        0 <= from <= e.len(),
    ensures
        index_of(e.push(entry), key, from) == if index_of(e, key, from) >= 0 {
            index_of(e, key, from)
        } else if entry.0 == key {
            e.len() as int
        } else {
            -1
        },
    decreases e.len() - from,
{
    let longer = e.push(entry);
    if from < e.len() {
        assert(longer[from] == e[from]);
        if e[from].0 != key {
            lemma_index_pushed(e, entry, key, from + 1);
        }
    } else {
        assert(longer[from] == entry);
        assert(index_of(longer, key, from + 1) == -1);
    }
}

/// Once `row` stands under `key`, it is the row of `key`, and the rows of
/// other names are what they were.
pub proof fn lemma_put(e: Entries, key: Seq<char>, row: Seq<Seq<char>>, other: Seq<char>)
    ensures
        ({
            let after = if has_key(e, key) {
                e.update(index_of(e, key, 0), (key, row))
            } else {
                e.push((key, row))
            };
            &&& has_key(after, key)
            &&& row_of(after, key) == row
            &&& other != key ==> row_of(after, other) == row_of(e, other) && has_key(after, other)
                == has_key(e, other)
        }),
{
    lemma_index_of(e, key, 0);
    lemma_index_of(e, other, 0);
    if has_key(e, key) {
        let i = index_of(e, key, 0);
        let after = e.update(i, (key, row));
        assert forall|j: int| 0 <= j < e.len() implies (#[trigger] e[j]).0 == after[j].0 by {}
        lemma_index_same_keys(e, after, key, 0);
        lemma_index_same_keys(e, after, other, 0);
    } else {
        lemma_index_pushed(e, (key, row), key, 0);
        lemma_index_pushed(e, (key, row), other, 0);
    }
}

/// A table from names to rows of paths.
pub struct PathTable {
    keys: Vec<String>,
    rows: Vec<Vec<String>>,
}

impl View for PathTable {
    type V = Entries;

    closed spec fn view(&self) -> Entries {
        Seq::new(self.keys@.len(), |i: int| (self.keys@[i]@, strs(self.rows@[i]@)))
    }
}

impl PathTable {
    /// The table is in order: each name has a row, and no name occurs twice.
    pub closed spec fn wf(&self) -> bool {
        &&& self.keys@.len() == self.rows@.len()
        &&& distinct_keys(self@)
    }

    pub fn new() -> (t: PathTable)
        ensures
            t.wf(),
            t@ == Entries::empty(),
    {
        let t = PathTable { keys: Vec::new(), rows: Vec::new() };
        assert(t@ =~= Entries::empty());
        t
    }

    /// How many names the table holds.
    pub fn len(&self) -> (n: usize)
        requires
            self.wf(),
        ensures
            n == self@.len(),
    {
        self.keys.len()
    }

    /// The name of the entry at `i`.
    pub fn key_at(&self, i: usize) -> (k: &String)
        requires
            self.wf(),
            i < self@.len(),
        ensures
            k@ == self@[i as int].0,
    {
        &self.keys[i]
    }

    /// The row of the entry at `i`.
    pub fn row_at(&self, i: usize) -> (r: &Vec<String>)
        requires
            self.wf(),
            i < self@.len(),
        ensures
            strs(r@) == self@[i as int].1,
    {
        &self.rows[i]
    }

    /// Where the entry named `key` stands.
    pub fn position(&self, key: &str) -> (r: Option<usize>)
        requires
            self.wf(),
        ensures
            match r {
                Some(i) => i as int == index_of(self@, key@, 0) && i < self@.len(),
                None => index_of(self@, key@, 0) == -1,
            },
    {
        let wanted: String = key.to_owned();
        let mut i: usize = 0;
        while i < self.keys.len()
            invariant
                i <= self.keys.len(),
                self.wf(),
                wanted@ == key@,
                index_of(self@, key@, i as int) == index_of(self@, key@, 0),
            decreases self.keys.len() - i,
        {
            if self.keys[i] == wanted {
                return Some(i);
            }
            i += 1;
        }
        None
    }

    /// The row named `key`, if there is one.
    pub fn get(&self, key: &str) -> (r: Option<&Vec<String>>)
        requires
            self.wf(),
        ensures
            match r {
                Some(row) => has_key(self@, key@) && strs(row@) == row_of(self@, key@),
                None => !has_key(self@, key@),
            },
    {
        match self.position(key) {
            Some(i) => Some(&self.rows[i]),
            None => None,
        }
    }

    /// Puts `row` under `key`, in place of the row that was there, if any.
    pub fn insert(&mut self, key: String, row: Vec<String>)
        requires
            old(self).wf(),
        ensures
            final(self).wf(),
            final(self)@ == if has_key(old(self)@, key@) {
                old(self)@.update(index_of(old(self)@, key@, 0), (key@, strs(row@)))
            } else {
                old(self)@.push((key@, strs(row@)))
            },
            has_key(final(self)@, key@),
            row_of(final(self)@, key@) == strs(row@),
            forall|other: Seq<char>|
                #![trigger row_of(final(self)@, other)]
                #![trigger has_key(final(self)@, other)]
                other != key@ ==> row_of(final(self)@, other) == row_of(old(self)@, other)
                    && has_key(final(self)@, other) == has_key(old(self)@, other),
    {
        proof {
            lemma_index_of(self@, key@, 0);
        }
        match self.position(key.as_str()) {
            Some(i) => {
                self.rows.set(i, row);
                assert(self@ =~= old(self)@.update(i as int, (key@, strs(row@))));
            },
            None => {
                self.keys.push(key);
                self.rows.push(row);
                assert(self@ =~= old(self)@.push((key@, strs(row@))));
            },
        }
        proof {
            lemma_put(old(self)@, key@, strs(row@), key@);
            assert forall|other: Seq<char>|
                #![trigger row_of(self@, other)]
                #![trigger has_key(self@, other)]
                other != key@ implies row_of(self@, other) == row_of(old(self)@, other)
                && has_key(self@, other) == has_key(old(self)@, other) by {
                lemma_put(old(self)@, key@, strs(row@), other);
            }
        }
    }

    /// Adds `item` to the row named `key`; a name that is new gets a row of
    /// its own, after the others.
    pub fn add(&mut self, key: &str, item: String)
        requires
            old(self).wf(),
        ensures
            final(self).wf(),
            final(self)@ == if has_key(old(self)@, key@) {
                old(self)@.update(
                    index_of(old(self)@, key@, 0),
                    (key@, row_of(old(self)@, key@).push(item@)),
                )
            } else {
                old(self)@.push((key@, seq![item@]))
            },
            has_key(final(self)@, key@),
            row_of(final(self)@, key@) == row_of(old(self)@, key@).push(item@),
            forall|other: Seq<char>|
                #![trigger row_of(final(self)@, other)]
                #![trigger has_key(final(self)@, other)]
                other != key@ ==> row_of(final(self)@, other) == row_of(old(self)@, other)
                    && has_key(final(self)@, other) == has_key(old(self)@, other),
    {
        proof {
            lemma_index_of(self@, key@, 0);
        }
        match self.position(key) {
            Some(i) => {
                let mut row = self.rows.remove(i);
                proof {
                    lemma_strs_push(row@, item);
                }
                row.push(item);
                self.rows.insert(i, row);
                assert(self@ =~= old(self)@.update(
                    i as int,
                    (key@, row_of(old(self)@, key@).push(item@)),
                ));
            },
            None => {
                let mut row: Vec<String> = Vec::new();
                row.push(item);
                assert(strs(row@) =~= seq![item@]);
                self.keys.push(key.to_string());
                self.rows.push(row);
                assert(self@ =~= old(self)@.push((key@, seq![item@])));
            },
        }
        proof {
            let longer = row_of(old(self)@, key@).push(item@);
            lemma_index_of(old(self)@, key@, 0);
            if !has_key(old(self)@, key@) {
                assert(longer =~= seq![item@]);
            }
            lemma_put(old(self)@, key@, longer, key@);
            assert forall|other: Seq<char>|
                #![trigger row_of(self@, other)]
                #![trigger has_key(self@, other)]
                other != key@ implies row_of(self@, other) == row_of(old(self)@, other)
                && has_key(self@, other) == has_key(old(self)@, other) by {
                lemma_put(old(self)@, key@, longer, other);
            }
        }
    }
}

} // verus!
