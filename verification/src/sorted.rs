//! Sorted sequences of lines, and the two canonical arrangements of a
//! collection of lines: sorted, and sorted with every line once.

use crate::order::{
    lemma_lex_le_antisymmetric, lemma_lex_le_transitive, lemma_lex_lt_irreflexive,
    lemma_lex_lt_transitive, lemma_lex_total, lex_le, lex_lt,
};
use vstd::prelude::*;
use vstd::relations::*;
use vstd::seq_lib::*;

verus! {

/// Every line comes no later than the lines after it.
pub open spec fn is_sorted(s: Seq<Seq<u8>>) -> bool {
    forall|i: int, j: int| #![trigger s[i], s[j]] 0 <= i < j < s.len() ==> lex_le(s[i], s[j])
}

/// Every line comes strictly before the lines after it.
pub open spec fn is_strictly_sorted(s: Seq<Seq<u8>>) -> bool {
    forall|i: int, j: int| #![trigger s[i], s[j]] 0 <= i < j < s.len() ==> lex_lt(s[i], s[j])
}

/// Every line comes strictly before its successor.
pub open spec fn adjacent_increasing(s: Seq<Seq<u8>>) -> bool {
    forall|i: int| 0 <= i < s.len() - 1 ==> lex_lt(#[trigger] s[i], s[i + 1])
}

/// The weak line order as a relation.
pub open spec fn line_order() -> spec_fn(Seq<u8>, Seq<u8>) -> bool {
    |a: Seq<u8>, b: Seq<u8>| lex_le(a, b)
}

/// The lines of `s` in sorted order, duplicates kept.
pub open spec fn sorted_lines(s: Seq<Seq<u8>>) -> Seq<Seq<u8>> {
    s.sort_by(line_order())
}

/// The distinct lines of `s` in increasing order.
pub open spec fn sorted_distinct(s: Seq<Seq<u8>>) -> Seq<Seq<u8>> {
    s.to_set().to_sorted_seq(line_order())
}

/// The weak line order is a total order.
pub proof fn lemma_line_order_total()
    ensures
        total_ordering(line_order()),
{
    let r = line_order();
    assert forall|x: Seq<u8>, y: Seq<u8>| #[trigger] r(x, y) && #[trigger] r(y, x) implies x
        == y by {
        lemma_lex_le_antisymmetric(x, y);
    }
    assert forall|x: Seq<u8>, y: Seq<u8>, z: Seq<u8>| #[trigger] r(x, y) && #[trigger] r(
        y,
        z,
    ) implies r(x, z) by {
        lemma_lex_le_transitive(x, y, z);
    }
    assert forall|x: Seq<u8>, y: Seq<u8>| #[trigger] r(x, y) || #[trigger] r(y, x) by {
        lemma_lex_total(x, y);
    }
}

/// Being sorted is being sorted by the weak line order.
pub proof fn lemma_is_sorted_by_line_order(s: Seq<Seq<u8>>)
    ensures
        is_sorted(s) <==> sorted_by(s, line_order()),
{
    let r = line_order();
    if is_sorted(s) {
        assert forall|i: int, j: int| 0 <= i < j < s.len() implies #[trigger] r(s[i], s[j]) by {
            assert(lex_le(s[i], s[j]));
        }
    }
    if sorted_by(s, r) {
        assert forall|i: int, j: int| #![trigger s[i], s[j]] 0 <= i < j < s.len() implies lex_le(
            s[i],
            s[j],
        ) by {
            assert(r(s[i], s[j]));
        }
    }
}

/// A strictly sorted sequence is sorted and holds no line twice.
pub proof fn lemma_strictly_sorted_is_sorted(s: Seq<Seq<u8>>)
    requires
        is_strictly_sorted(s),
    ensures
        is_sorted(s),
        s.no_duplicates(),
{
    assert forall|i: int, j: int| 0 <= i < s.len() && 0 <= j < s.len() && i != j implies s[i]
        != s[j] by {
        lemma_lex_lt_irreflexive(s[i]);
        if i < j {
            assert(lex_lt(s[i], s[j]));
        } else {
            assert(lex_lt(s[j], s[i]));
        }
    }
}

/// A sorted sequence that holds no line twice is strictly sorted.
pub proof fn lemma_sorted_no_duplicates_is_strict(s: Seq<Seq<u8>>)
    requires
        is_sorted(s),
        s.no_duplicates(),
    ensures
        is_strictly_sorted(s),
{
    assert forall|i: int, j: int| #![trigger s[i], s[j]] 0 <= i < j < s.len() implies lex_lt(
        s[i],
        s[j],
    ) by {
        assert(lex_le(s[i], s[j]));
        assert(s[i] != s[j]);
    }
}

/// A sequence in which every line comes before its successor is strictly
/// sorted, and conversely.
pub proof fn lemma_adjacent_increasing(s: Seq<Seq<u8>>)
    ensures
        adjacent_increasing(s) <==> is_strictly_sorted(s),
    decreases s.len(),
{
    if is_strictly_sorted(s) {
        assert forall|i: int| 0 <= i < s.len() - 1 implies lex_lt(#[trigger] s[i], s[i + 1]) by {
            assert(lex_lt(s[i], s[i + 1]));
        }
    }
    if adjacent_increasing(s) && s.len() > 0 {
        let t = s.drop_last();
        assert forall|i: int| 0 <= i < t.len() - 1 implies lex_lt(#[trigger] t[i], t[i + 1]) by {
            assert(lex_lt(s[i], s[i + 1]));
        }
        lemma_adjacent_increasing(t);
        if t.len() > 0 {
            assert(lex_lt(s[t.len() - 1], s[t.len() - 1 + 1]));
            assert(t.last() == s[t.len() - 1]);
            lemma_strictly_sorted_push(t, s.last());
        }
        assert(t.push(s.last()) =~= s);
    }
}

/// Appending a line that comes after the last one keeps a sequence strictly
/// sorted.
pub proof fn lemma_strictly_sorted_push(s: Seq<Seq<u8>>, l: Seq<u8>)
    requires
        is_strictly_sorted(s),
        s.len() > 0 ==> lex_lt(s.last(), l),
    ensures
        is_strictly_sorted(s.push(l)),
{
    let t = s.push(l);
    assert forall|i: int, j: int| #![trigger t[i], t[j]] 0 <= i < j < t.len() implies lex_lt(
        t[i],
        t[j],
    ) by {
        if j < s.len() {
            assert(lex_lt(s[i], s[j]));
        } else if i < s.len() - 1 {
            assert(lex_lt(s[i], s[s.len() - 1]));
            lemma_lex_lt_transitive(s[i], s.last(), l);
        }
    }
}

/// `sorted_lines` is sorted and holds each line as often as its argument does.
pub proof fn lemma_sorted_lines(s: Seq<Seq<u8>>)
    ensures
        is_sorted(sorted_lines(s)),
        sorted_lines(s).to_multiset() == s.to_multiset(),
        sorted_lines(s).len() == s.len(),
{
    lemma_line_order_total();
    s.lemma_sort_by_ensures(line_order());
    lemma_is_sorted_by_line_order(sorted_lines(s));
    to_multiset_len(s);
    to_multiset_len(sorted_lines(s));
}

/// A sorted rearrangement of `s` is `sorted_lines(s)`.
pub proof fn lemma_sorted_lines_unique(t: Seq<Seq<u8>>, s: Seq<Seq<u8>>)
    requires
        is_sorted(t),
        t.to_multiset() == s.to_multiset(),
    ensures
        t == sorted_lines(s),
{
    lemma_sorted_lines(s);
    lemma_line_order_total();
    lemma_is_sorted_by_line_order(t);
    lemma_is_sorted_by_line_order(sorted_lines(s));
    lemma_sorted_unique(t, sorted_lines(s), line_order());
}

/// Sequences that hold each line equally often hold the same lines.
pub proof fn lemma_same_multiset_same_set(t: Seq<Seq<u8>>, s: Seq<Seq<u8>>)
    requires
        t.to_multiset() == s.to_multiset(),
    ensures
        t.to_set() == s.to_set(),
{
    assert forall|x: Seq<u8>| t.contains(x) <==> s.contains(x) by {
        to_multiset_contains(t, x);
        to_multiset_contains(s, x);
    }
    assert(t.to_set() =~= s.to_set());
}

proof fn lemma_to_seq_len(set: Set<Seq<u8>>)
    requires
        set.finite(),
    ensures
        set.to_seq().len() == set.len(),
    decreases set.len(),
{
    broadcast use vstd::set::group_set_axioms;

    if set.len() != 0 {
        let x = set.choose();
        lemma_to_seq_len(set.remove(x));
    }
}

/// `sorted_distinct` is strictly sorted and holds exactly the lines of its
/// argument, so as many as the argument holds distinct lines.
pub proof fn lemma_sorted_distinct(s: Seq<Seq<u8>>)
    ensures
        is_strictly_sorted(sorted_distinct(s)),
        sorted_distinct(s).to_set() == s.to_set(),
        sorted_distinct(s).len() == s.to_set().len(),
{
    let set = s.to_set();
    seq_to_set_is_finite(s);
    let q = set.to_seq();
    set.lemma_to_seq_to_set_id();
    lemma_to_seq_len(set);
    q.lemma_no_dup_set_cardinality();
    let w = sorted_distinct(s);
    assert(w == sorted_lines(q));
    lemma_sorted_lines(q);
    lemma_same_multiset_same_set(w, q);
    q.lemma_multiset_has_no_duplicates();
    w.lemma_multiset_has_no_duplicates_conv();
    lemma_sorted_no_duplicates_is_strict(w);
}

/// A strictly sorted sequence that holds exactly the lines of `s` is
/// `sorted_distinct(s)`.
pub proof fn lemma_strictly_sorted_unique(w: Seq<Seq<u8>>, s: Seq<Seq<u8>>)
    requires
        is_strictly_sorted(w),
        w.to_set() == s.to_set(),
    ensures
        w == sorted_distinct(s),
{
    let d = sorted_distinct(s);
    lemma_sorted_distinct(s);
    lemma_strictly_sorted_is_sorted(w);
    lemma_strictly_sorted_is_sorted(d);
    w.lemma_multiset_has_no_duplicates();
    d.lemma_multiset_has_no_duplicates();
    assert forall|x: Seq<u8>| w.to_multiset().count(x) == d.to_multiset().count(x) by {
        to_multiset_contains(w, x);
        to_multiset_contains(d, x);
        assert(w.contains(x) <==> w.to_set().contains(x));
        assert(d.contains(x) <==> d.to_set().contains(x));
    }
    assert(w.to_multiset() =~= d.to_multiset());
    lemma_line_order_total();
    lemma_is_sorted_by_line_order(w);
    lemma_is_sorted_by_line_order(d);
    lemma_sorted_unique(w, d, line_order());
}

} // verus!
