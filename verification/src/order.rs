//! The order of texts, character by character, and sorting by it.

use crate::text::views;
use vstd::prelude::*;

verus! {

/// `a` comes before `b`, both read from `i` on, where they agree before `i`:
/// at the first place where they differ `a` has the lesser character, or `a`
/// ends first.
pub open spec fn lex_lt_from(a: Seq<char>, b: Seq<char>, i: int) -> bool
    decreases a.len() - i,
{
    if i < 0 || i >= b.len() {
        false
    } else if i >= a.len() {
        true
    } else if a[i] < b[i] {
        true
    } else if a[i] > b[i] {
        false
    } else {
        lex_lt_from(a, b, i + 1)
    }
}

/// `a` comes before `b`.
pub open spec fn lex_lt(a: Seq<char>, b: Seq<char>) -> bool {
    lex_lt_from(a, b, 0)
}

/// `a` comes before `b` or is `b`.
pub open spec fn lex_le(a: Seq<char>, b: Seq<char>) -> bool {
    a == b || lex_lt(a, b)
}

/// Each text comes before or is the one after it.
pub open spec fn sorted(s: Seq<Seq<char>>) -> bool {
    forall|i: int, j: int| 0 <= i < j < s.len() ==> lex_le(#[trigger] s[i], #[trigger] s[j])
}

/// Each text comes before the one after it: sorted, and nothing twice.
pub open spec fn strictly_sorted(s: Seq<Seq<char>>) -> bool {
    forall|i: int, j: int| 0 <= i < j < s.len() ==> lex_lt(#[trigger] s[i], #[trigger] s[j])
}

/// Two texts that agree before `i` are equal, or one comes before the other,
/// and never both.
pub proof fn lemma_lex_total(a: Seq<char>, b: Seq<char>, i: int)
    requires
        0 <= i <= a.len(),
        i <= b.len(),
        a.subrange(0, i) == b.subrange(0, i),
    ensures
        a == b || lex_lt_from(a, b, i) || lex_lt_from(b, a, i),
        !(lex_lt_from(a, b, i) && lex_lt_from(b, a, i)),
        a == b ==> !lex_lt_from(a, b, i),
    decreases a.len() - i,
{
    if i >= a.len() || i >= b.len() {
        if i >= a.len() && i >= b.len() {
            assert(a.subrange(0, i) =~= a);
            assert(b.subrange(0, i) =~= b);
        }
    } else if a[i] == b[i] {
        assert(a.subrange(0, i + 1) =~= a.subrange(0, i).push(a[i]));
        assert(b.subrange(0, i + 1) =~= b.subrange(0, i).push(b[i]));
        lemma_lex_total(a, b, i + 1);
    } else {
    }
}

pub proof fn lemma_lex_trichotomy(a: Seq<char>, b: Seq<char>)
    ensures
        a == b || lex_lt(a, b) || lex_lt(b, a),
        !(lex_lt(a, b) && lex_lt(b, a)),
        !lex_lt(a, a),
{
    assert(a.subrange(0, 0) =~= b.subrange(0, 0));
    lemma_lex_total(a, b, 0);
    assert(a.subrange(0, 0) =~= a.subrange(0, 0));
    lemma_lex_total(a, a, 0);
}

/// What comes before `lex_lt_from` and what it compares: if `a` is before
/// `b` from `i` on, there is a place `k` up to which they agree and at which
/// `a` ends or has the lesser character.
pub open spec fn splits_at(a: Seq<char>, b: Seq<char>, i: int, k: int) -> bool {
    &&& i <= k <= a.len()
    &&& k < b.len()
    &&& forall|j: int| i <= j < k ==> a[j] == b[j]
    &&& (k == a.len() || a[k] < b[k])
}

pub proof fn lemma_lex_witness(a: Seq<char>, b: Seq<char>, i: int) -> (k: int)
    requires
        0 <= i <= a.len(),
        lex_lt_from(a, b, i),
    ensures
        splits_at(a, b, i, k),
    decreases a.len() - i,
{
    if i >= a.len() {
        i
    } else if a[i] < b[i] {
        i
    } else {
        let k = lemma_lex_witness(a, b, i + 1);
        assert(a[i] == b[i]);
        assert forall|j: int| i <= j < k implies a[j] == b[j] by {
            if j > i {
                assert(i + 1 <= j < k);
            }
        }
        k
    }
}

pub proof fn lemma_lex_from_witness(a: Seq<char>, b: Seq<char>, i: int, k: int)
    requires
        0 <= i,
        splits_at(a, b, i, k),
    ensures
        lex_lt_from(a, b, i),
    decreases k - i,
{
    if i < k {
        lemma_lex_from_witness(a, b, i + 1, k);
    }
}

pub proof fn lemma_lex_trans(a: Seq<char>, b: Seq<char>, c: Seq<char>)
    requires
        lex_lt(a, b),
        lex_lt(b, c),
    ensures
        lex_lt(a, c),
{
    let k1 = lemma_lex_witness(a, b, 0);
    let k2 = lemma_lex_witness(b, c, 0);
    let k = if k1 <= k2 {
        k1
    } else {
        k2
    };
    assert(splits_at(a, c, 0, k));
    lemma_lex_from_witness(a, c, 0, k);
}

/// The first index at or after `i` whose text does not come before `x`.
pub open spec fn first_not_below(s: Seq<Seq<char>>, x: Seq<char>, i: int) -> int
    decreases s.len() - i,
{
    if i < 0 || i >= s.len() {
        s.len() as int
    } else if lex_lt(s[i], x) {
        first_not_below(s, x, i + 1)
    } else {
        i
    }
}

/// The first index at or after `i` whose text comes after `x`.
pub open spec fn first_above(s: Seq<Seq<char>>, x: Seq<char>, i: int) -> int
    decreases s.len() - i,
{
    if i < 0 || i >= s.len() {
        s.len() as int
    } else if lex_le(s[i], x) {
        first_above(s, x, i + 1)
    } else {
        i
    }
}

/// `s` with `x` put in its place, unless it is there already.
pub open spec fn insert_unique(s: Seq<Seq<char>>, x: Seq<char>) -> Seq<Seq<char>> {
    let k = first_not_below(s, x, 0);
    if 0 <= k < s.len() && s[k] == x {
        s
    } else if 0 <= k <= s.len() {
        s.insert(k, x)
    } else {
        s
    }
}

/// `s` with `x` put in its place, after the texts equal to it.
pub open spec fn insert_after(s: Seq<Seq<char>>, x: Seq<char>) -> Seq<Seq<char>> {
    let k = first_above(s, x, 0);
    if 0 <= k <= s.len() {
        s.insert(k, x)
    } else {
        s
    }
}

/// The first `upto` texts of `s`, sorted, each kept once.
pub open spec fn sort_unique(s: Seq<Seq<char>>, upto: int) -> Seq<Seq<char>>
    decreases upto,
{
    if upto <= 0 {
        Seq::empty()
    } else {
        insert_unique(sort_unique(s, upto - 1), s[upto - 1])
    }
}

/// The first `upto` texts of `s`, sorted.
pub open spec fn sort_all(s: Seq<Seq<char>>, upto: int) -> Seq<Seq<char>>
    decreases upto,
{
    if upto <= 0 {
        Seq::empty()
    } else {
        insert_after(sort_all(s, upto - 1), s[upto - 1])
    }
}

pub proof fn lemma_first_not_below(s: Seq<Seq<char>>, x: Seq<char>, i: int)
    requires
        0 <= i <= s.len(),
    ensures
        i <= first_not_below(s, x, i) <= s.len(),
        forall|j: int| i <= j < first_not_below(s, x, i) ==> lex_lt(#[trigger] s[j], x),
        first_not_below(s, x, i) < s.len() ==> !lex_lt(s[first_not_below(s, x, i)], x),
    decreases s.len() - i,
{
    if i < s.len() && lex_lt(s[i], x) {
        lemma_first_not_below(s, x, i + 1);
    }
}

pub proof fn lemma_first_above(s: Seq<Seq<char>>, x: Seq<char>, i: int)
    requires
        0 <= i <= s.len(),
    ensures
        i <= first_above(s, x, i) <= s.len(),
        forall|j: int| i <= j < first_above(s, x, i) ==> lex_le(#[trigger] s[j], x),
        first_above(s, x, i) < s.len() ==> !lex_le(s[first_above(s, x, i)], x),
    decreases s.len() - i,
{
    if i < s.len() && lex_le(s[i], x) {
        lemma_first_above(s, x, i + 1);
    }
}

/// Putting a text in its place keeps a list sorted without repeats, and adds
/// that text and no other.
pub proof fn lemma_insert_unique(s: Seq<Seq<char>>, x: Seq<char>)
    requires
        strictly_sorted(s),
    ensures
        strictly_sorted(insert_unique(s, x)),
        forall|y: Seq<char>| insert_unique(s, x).contains(y) <==> (s.contains(y) || y == x),
{
    let k = first_not_below(s, x, 0);
    let r = insert_unique(s, x);
    lemma_first_not_below(s, x, 0);
    if k < s.len() && s[k] == x {
        assert(s.contains(x));
    } else {
        assert forall|i: int, j: int| 0 <= i < j < r.len() implies lex_lt(
            #[trigger] r[i],
            #[trigger] r[j],
        ) by {
            if j == k {
                assert(r[i] == s[i]);
            } else if i == k {
                assert(r[j] == s[j - 1]);
                lemma_lex_trichotomy(s[k], x);
                if j - 1 > k {
                    lemma_lex_trans(x, s[k], s[j - 1]);
                }
            } else {
                let si = if i < k {
                    i
                } else {
                    i - 1
                };
                let sj = if j < k {
                    j
                } else {
                    j - 1
                };
                assert(r[i] == s[si] && r[j] == s[sj]);
            }
        }
        assert forall|y: Seq<char>| r.contains(y) <==> (s.contains(y) || y == x) by {
            if r.contains(y) {
                let i = choose|i: int| 0 <= i < r.len() && r[i] == y;
                if i < k {
                    assert(s[i] == y);
                } else if i > k {
                    assert(s[i - 1] == y);
                }
            }
            if s.contains(y) {
                let i = choose|i: int| 0 <= i < s.len() && s[i] == y;
                if i < k {
                    assert(r[i] == y);
                } else {
                    assert(r[i + 1] == y);
                }
            }
            if y == x {
                assert(r[k] == x);
            }
        }
    }
}

/// Sorting with each text kept once gives a list in strict order that holds
/// exactly the texts that went in.
pub proof fn lemma_sort_unique(s: Seq<Seq<char>>, upto: int)
    requires
        0 <= upto <= s.len(),
    ensures
        strictly_sorted(sort_unique(s, upto)),
        forall|y: Seq<char>|
            sort_unique(s, upto).contains(y) <==> exists|i: int| 0 <= i < upto && s[i] == y,
    decreases upto,
{
    if upto > 0 {
        lemma_sort_unique(s, upto - 1);
        lemma_insert_unique(sort_unique(s, upto - 1), s[upto - 1]);
        let prev = sort_unique(s, upto - 1);
        let r = sort_unique(s, upto);
        let x = s[upto - 1];
        assert(r == insert_unique(prev, x));
        assert forall|y: Seq<char>| r.contains(y) <==> exists|i: int|
            0 <= i < upto && s[i] == y by {
            assert(r.contains(y) <==> (prev.contains(y) || y == x));
            assert(prev.contains(y) <==> exists|i: int| 0 <= i < upto - 1 && s[i] == y);
            if prev.contains(y) {
                let i = choose|i: int| 0 <= i < upto - 1 && s[i] == y;
                assert(0 <= i < upto && s[i] == y);
            }
            if y == x {
                assert(0 <= upto - 1 < upto && s[upto - 1] == y);
            }
            if exists|i: int| 0 <= i < upto && s[i] == y {
                let i = choose|i: int| 0 <= i < upto && s[i] == y;
                if i < upto - 1 {
                    assert(0 <= i < upto - 1 && s[i] == y);
                }
            }
        }
    } else {
        assert(sort_unique(s, upto) =~= Seq::<Seq<char>>::empty());
    }
}

/// Putting a text in its place, after its equals, keeps a list sorted.
pub proof fn lemma_insert_after(s: Seq<Seq<char>>, x: Seq<char>)
    requires
        sorted(s),
    ensures
        sorted(insert_after(s, x)),
        insert_after(s, x).len() == s.len() + 1,
        forall|y: Seq<char>| insert_after(s, x).contains(y) <==> (s.contains(y) || y == x),
{
    let k = first_above(s, x, 0);
    let r = insert_after(s, x);
    lemma_first_above(s, x, 0);
    assert forall|i: int, j: int| 0 <= i < j < r.len() implies lex_le(
        #[trigger] r[i],
        #[trigger] r[j],
    ) by {
        if j == k {
            assert(r[i] == s[i]);
        } else if i == k {
            assert(r[j] == s[j - 1]);
            lemma_lex_trichotomy(s[k], x);
            if j - 1 > k {
                if s[k] != s[j - 1] {
                    lemma_lex_trans(x, s[k], s[j - 1]);
                }
            }
        } else {
            let si = if i < k {
                i
            } else {
                i - 1
            };
            let sj = if j < k {
                j
            } else {
                j - 1
            };
            assert(r[i] == s[si] && r[j] == s[sj]);
        }
    }
    assert forall|y: Seq<char>| r.contains(y) <==> (s.contains(y) || y == x) by {
        if r.contains(y) {
            let i = choose|i: int| 0 <= i < r.len() && r[i] == y;
            if i < k {
                assert(s[i] == y);
            } else if i > k {
                assert(s[i - 1] == y);
            }
        }
        if s.contains(y) {
            let i = choose|i: int| 0 <= i < s.len() && s[i] == y;
            if i < k {
                assert(r[i] == y);
            } else {
                assert(r[i + 1] == y);
            }
        }
        if y == x {
            assert(r[k] == x);
        }
    }
}

/// Sorting gives a sorted list of the same length that holds exactly the
/// texts that went in.
pub proof fn lemma_sort_all(s: Seq<Seq<char>>, upto: int)
    requires
        0 <= upto <= s.len(),
    ensures
        sorted(sort_all(s, upto)),
        sort_all(s, upto).len() == upto,
        forall|y: Seq<char>|
            sort_all(s, upto).contains(y) <==> exists|i: int| 0 <= i < upto && s[i] == y,
    decreases upto,
{
    if upto > 0 {
        lemma_sort_all(s, upto - 1);
        lemma_insert_after(sort_all(s, upto - 1), s[upto - 1]);
        let prev = sort_all(s, upto - 1);
        let r = sort_all(s, upto);
        let x = s[upto - 1];
        assert(r == insert_after(prev, x));
        assert forall|y: Seq<char>| r.contains(y) <==> exists|i: int|
            0 <= i < upto && s[i] == y by {
            assert(r.contains(y) <==> (prev.contains(y) || y == x));
            assert(prev.contains(y) <==> exists|i: int| 0 <= i < upto - 1 && s[i] == y);
            if prev.contains(y) {
                let i = choose|i: int| 0 <= i < upto - 1 && s[i] == y;
                assert(0 <= i < upto && s[i] == y);
            }
            if y == x {
                assert(0 <= upto - 1 < upto && s[upto - 1] == y);
            }
            if exists|i: int| 0 <= i < upto && s[i] == y {
                let i = choose|i: int| 0 <= i < upto && s[i] == y;
                if i < upto - 1 {
                    assert(0 <= i < upto - 1 && s[i] == y);
                }
            }
        }
    } else {
        assert(sort_all(s, upto) =~= Seq::<Seq<char>>::empty());
    }
}


/// Sorting keeps the texts: each comes out as often as it went in.
pub proof fn lemma_sort_all_keeps(s: Seq<Seq<char>>, upto: int)
    requires
        0 <= upto <= s.len(),
    ensures
        sort_all(s, upto).to_multiset() == s.take(upto).to_multiset(),
    decreases upto,
{
    broadcast use vstd::seq_lib::group_to_multiset_ensures;

    if upto > 0 {
        let prev = sort_all(s, upto - 1);
        let x = s[upto - 1];
        lemma_sort_all_keeps(s, upto - 1);
        lemma_first_above(prev, x, 0);
        let k = first_above(prev, x, 0);
        vstd::seq_lib::to_multiset_insert(prev, k, x);
        assert(s.take(upto) =~= s.take(upto - 1).push(x));
        assert(sort_all(s, upto).to_multiset() =~= s.take(upto).to_multiset());
    } else {
        assert(s.take(upto) =~= Seq::<Seq<char>>::empty());
        assert(sort_all(s, upto) =~= Seq::<Seq<char>>::empty());
    }
}

/// A text of a sorted list comes before its last text or is it.
pub proof fn lemma_last_is_greatest(s: Seq<Seq<char>>, x: Seq<char>)
    requires
        sorted(s),
        s.contains(x),
    ensures
        lex_le(x, s.last()),
{
    let i = choose|i: int| 0 <= i < s.len() && s[i] == x;
    if i < s.len() - 1 {
        assert(lex_le(s[i], s[s.len() - 1]));
    }
}

/// Two sorted lists that hold the same texts, each as often, are one list.
pub proof fn lemma_sorted_same(a: Seq<Seq<char>>, b: Seq<Seq<char>>)
    requires
        sorted(a),
        sorted(b),
        a.to_multiset() == b.to_multiset(),
    ensures
        a == b,
    decreases a.len(),
{
    broadcast use vstd::seq_lib::group_to_multiset_ensures;

    assert(a.len() == b.len()) by {
        assert(a.len() == a.to_multiset().len());
        assert(b.len() == b.to_multiset().len());
    }
    if a.len() == 0 {
        assert(a =~= b);
    } else {
        let x = a.last();
        let y = b.last();
        assert(a[a.len() - 1] == x);
        assert(b[b.len() - 1] == y);
        assert(a.contains(x));
        assert(b.contains(y));
        assert(b.contains(x)) by {
            assert(a.to_multiset().count(x) > 0);
        }
        assert(a.contains(y)) by {
            assert(b.to_multiset().count(y) > 0);
        }
        lemma_last_is_greatest(b, x);
        lemma_last_is_greatest(a, y);
        lemma_lex_trichotomy(x, y);
        assert(x == y);
        let n = a.len() - 1;
        assert(a.remove(n) =~= a.drop_last());
        assert(b.remove(n) =~= b.drop_last());
        vstd::seq_lib::to_multiset_remove(a, n);
        vstd::seq_lib::to_multiset_remove(b, n);
        assert(sorted(a.drop_last())) by {
            assert forall|i: int, j: int| 0 <= i < j < a.drop_last().len() implies lex_le(
                #[trigger] a.drop_last()[i],
                #[trigger] a.drop_last()[j],
            ) by {
                assert(lex_le(a[i], a[j]));
            }
        }
        assert(sorted(b.drop_last())) by {
            assert forall|i: int, j: int| 0 <= i < j < b.drop_last().len() implies lex_le(
                #[trigger] b.drop_last()[i],
                #[trigger] b.drop_last()[j],
            ) by {
                assert(lex_le(b[i], b[j]));
            }
        }
        lemma_sorted_same(a.drop_last(), b.drop_last());
        assert(a =~= a.drop_last().push(x));
        assert(b =~= b.drop_last().push(y));
    }
}

/// What comes of sorting depends on the texts alone, not on their order:
/// two lists that hold the same texts, each as often, are sorted into one
/// list.
pub proof fn lemma_sort_order_free(a: Seq<Seq<char>>, b: Seq<Seq<char>>)
    requires
        a.to_multiset() == b.to_multiset(),
    ensures
        sort_all(a, a.len() as int) == sort_all(b, b.len() as int),
{
    lemma_sort_all(a, a.len() as int);
    lemma_sort_all(b, b.len() as int);
    lemma_sort_all_keeps(a, a.len() as int);
    lemma_sort_all_keeps(b, b.len() as int);
    assert(a.take(a.len() as int) =~= a);
    assert(b.take(b.len() as int) =~= b);
    lemma_sorted_same(sort_all(a, a.len() as int), sort_all(b, b.len() as int));
}

/// Two lists in strict order that hold the same texts are one list.
pub proof fn lemma_strictly_sorted_same(a: Seq<Seq<char>>, b: Seq<Seq<char>>)
    requires
        strictly_sorted(a),
        strictly_sorted(b),
        forall|y: Seq<char>| a.contains(y) <==> b.contains(y),
    ensures
        a == b,
    decreases a.len() + b.len(),
{
    if a.len() == 0 {
        if b.len() > 0 {
            assert(b.contains(b[0]));
        }
        assert(a =~= b);
    } else if b.len() == 0 {
        assert(a.contains(a[0]));
    } else {
        let x = a.last();
        let y = b.last();
        assert(a[a.len() - 1] == x);
        assert(b[b.len() - 1] == y);
        assert(a.contains(x));
        assert(b.contains(y));
        let i = choose|i: int| 0 <= i < b.len() && b[i] == x;
        let j = choose|j: int| 0 <= j < a.len() && a[j] == y;
        if i < b.len() - 1 {
            assert(lex_lt(b[i], b[b.len() - 1]));
        }
        if j < a.len() - 1 {
            assert(lex_lt(a[j], a[a.len() - 1]));
        }
        lemma_lex_trichotomy(x, y);
        assert(x == y);
        let a0 = a.drop_last();
        let b0 = b.drop_last();
        assert forall|z: Seq<char>| a0.contains(z) <==> b0.contains(z) by {
            if a0.contains(z) {
                let k = choose|k: int| 0 <= k < a0.len() && a0[k] == z;
                assert(a[k] == z);
                assert(lex_lt(a[k], a[a.len() - 1]));
                lemma_lex_trichotomy(z, x);
                assert(a.contains(z));
                let m = choose|m: int| 0 <= m < b.len() && b[m] == z;
                assert(m < b.len() - 1);
                assert(b0[m] == z);
            }
            if b0.contains(z) {
                let k = choose|k: int| 0 <= k < b0.len() && b0[k] == z;
                assert(b[k] == z);
                assert(lex_lt(b[k], b[b.len() - 1]));
                lemma_lex_trichotomy(z, y);
                assert(b.contains(z));
                let m = choose|m: int| 0 <= m < a.len() && a[m] == z;
                assert(m < a.len() - 1);
                assert(a0[m] == z);
            }
        }
        assert(strictly_sorted(a0)) by {
            assert forall|p: int, q: int| 0 <= p < q < a0.len() implies lex_lt(
                #[trigger] a0[p],
                #[trigger] a0[q],
            ) by {
                assert(lex_lt(a[p], a[q]));
            }
        }
        assert(strictly_sorted(b0)) by {
            assert forall|p: int, q: int| 0 <= p < q < b0.len() implies lex_lt(
                #[trigger] b0[p],
                #[trigger] b0[q],
            ) by {
                assert(lex_lt(b[p], b[q]));
            }
        }
        lemma_strictly_sorted_same(a0, b0);
        assert(a =~= a0.push(x));
        assert(b =~= b0.push(y));
    }
}

/// Whether `a` comes before `b`.
pub fn text_lt(a: &Vec<char>, b: &Vec<char>) -> (r: bool)
    ensures
        r == lex_lt(a@, b@),
{
    let mut i: usize = 0;
    loop
        invariant
            i <= a.len(),
            i <= b.len(),
            lex_lt_from(a@, b@, i as int) == lex_lt(a@, b@),
        decreases a.len() - i,
    {
        if i >= b.len() {
            return false;
        }
        if i >= a.len() {
            return true;
        }
        if a[i] < b[i] {
            return true;
        }
        if a[i] > b[i] {
            return false;
        }
        i += 1;
    }
}

/// Whether `a` and `b` hold the same text.
pub fn text_eq(a: &Vec<char>, b: &Vec<char>) -> (r: bool)
    ensures
        r == (a@ == b@),
{
    crate::text::same_text(a, b)
}

/// Puts `x` in its place in the sorted list `out`, unless it is there.
pub fn place_unique(out: &mut Vec<Vec<char>>, x: Vec<char>)
    ensures
        views(final(out)@) == insert_unique(views(old(out)@), x@),
{
    let mut k: usize = 0;
    while k < out.len() && text_lt(&out[k], &x)
        invariant
            k <= out.len(),
            first_not_below(views(out@), x@, k as int) == first_not_below(views(out@), x@, 0),
        decreases out.len() - k,
    {
        k += 1;
    }
    if k < out.len() && text_eq(&out[k], &x) {
    } else {
        out.insert(k, x);
        assert(views(out@) =~= views(old(out)@).insert(k as int, x@));
    }
}

/// Puts `x` in its place in the sorted list `out`, after its equals.
pub fn place_after(out: &mut Vec<Vec<char>>, x: Vec<char>)
    ensures
        views(final(out)@) == insert_after(views(old(out)@), x@),
{
    let mut k: usize = 0;
    while k < out.len() && (text_eq(&out[k], &x) || text_lt(&out[k], &x))
        invariant
            k <= out.len(),
            first_above(views(out@), x@, k as int) == first_above(views(out@), x@, 0),
        decreases out.len() - k,
    {
        k += 1;
    }
    out.insert(k, x);
    assert(views(out@) =~= views(old(out)@).insert(k as int, x@));
}

/// The texts of `list`, sorted.
pub fn sort_texts(list: &Vec<Vec<char>>) -> (r: Vec<Vec<char>>)
    ensures
        views(r@) == sort_all(views(list@), list@.len() as int),
        sorted(views(r@)),
        r@.len() == list@.len(),
{
    let mut out: Vec<Vec<char>> = Vec::new();
    let mut i: usize = 0;
    assert(views(out@) =~= sort_all(views(list@), 0));
    while i < list.len()
        invariant
            i <= list.len(),
            views(out@) == sort_all(views(list@), i as int),
        decreases list.len() - i,
    {
        let x = crate::text::slice(&list[i], 0, list[i].len());
        assert(x@ =~= views(list@)[i as int]);
        place_after(&mut out, x);
        i += 1;
    }
    proof {
        lemma_sort_all(views(list@), list@.len() as int);
    }
    out
}

/// The texts of `list`, sorted, each kept once.
pub fn sort_dedup(list: &Vec<Vec<char>>) -> (r: Vec<Vec<char>>)
    ensures
        views(r@) == sort_unique(views(list@), list@.len() as int),
        strictly_sorted(views(r@)),
{
    let mut out: Vec<Vec<char>> = Vec::new();
    let mut i: usize = 0;
    assert(views(out@) =~= sort_unique(views(list@), 0));
    while i < list.len()
        invariant
            i <= list.len(),
            views(out@) == sort_unique(views(list@), i as int),
        decreases list.len() - i,
    {
        let x = crate::text::slice(&list[i], 0, list[i].len());
        assert(x@ =~= views(list@)[i as int]);
        place_unique(&mut out, x);
        i += 1;
    }
    proof {
        lemma_sort_unique(views(list@), list@.len() as int);
    }
    out
}

} // verus!
