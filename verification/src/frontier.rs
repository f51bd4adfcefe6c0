//! The merge frontier: a priority queue that holds one buffered line per open
//! spill unit and yields the smallest first.

use crate::order::{
    compare_lines, lemma_lex_le_transitive, lemma_lex_lt_asymmetric, lemma_lex_lt_irreflexive,
    lemma_lex_total, lex_le, lex_lt,
};
use std::cmp::Ordering;
use vstd::multiset::Multiset;
use vstd::prelude::*;
use vstd::seq_lib::*;

verus! {

/// A line buffered from a spill unit, with the position of that unit among
/// the units being merged.
#[derive(Clone, Eq)]
pub struct HeapItem {
    pub line: Vec<u8>,
    pub index: usize,
}

impl View for HeapItem {
    type V = (Seq<u8>, usize);

    open spec fn view(&self) -> (Seq<u8>, usize) {
        (self.line@, self.index)
    }
}

impl HeapItem {
    /// Orders entries by line, reversed: the entry with the smaller line is
    /// the greater entry, so that a queue which yields its greatest entry
    /// yields the smallest line. The unit index takes no part.
    pub fn cmp(&self, other: &HeapItem) -> (r: Ordering)
        ensures
            match r {
                Ordering::Less => lex_lt(other.line@, self.line@),
                Ordering::Equal => self.line@ == other.line@,
                Ordering::Greater => lex_lt(self.line@, other.line@),
            },
    {
        compare_lines(&other.line, &self.line)
    }

    /// Whether this entry leaves the queue before `other`: whether its line
    /// is strictly smaller.
    pub fn outranks(&self, other: &HeapItem) -> (r: bool)
        ensures
            r == lex_lt(self.line@, other.line@),
    {
        proof {
            lemma_lex_total(self.line@, other.line@);
            lemma_lex_lt_irreflexive(self.line@);
            if lex_lt(self.line@, other.line@) {
                lemma_lex_lt_asymmetric(self.line@, other.line@);
            }
        }
        matches!(self.cmp(other), Ordering::Greater)
    }
}

impl PartialEq for HeapItem {
    /// Entries are equal where their lines are. The unit index takes no part.
    fn eq(&self, other: &HeapItem) -> (r: bool) {
        proof {
            lemma_lex_lt_irreflexive(self.line@);
        }
        matches!(self.cmp(other), Ordering::Equal)
    }
}

impl vstd::std_specs::cmp::PartialEqSpecImpl for HeapItem {
    open spec fn obeys_eq_spec() -> bool {
        true
    }

    open spec fn eq_spec(&self, other: &HeapItem) -> bool {
        self.line@ == other.line@
    }
}

impl PartialOrd for HeapItem {
    /// The order of `cmp`, which is total.
    fn partial_cmp(&self, other: &HeapItem) -> (r: Option<Ordering>) {
        proof {
            lemma_lex_lt_irreflexive(self.line@);
            if lex_lt(other.line@, self.line@) {
                lemma_lex_lt_asymmetric(other.line@, self.line@);
            }
        }
        Some(self.cmp(other))
    }
}

impl vstd::std_specs::cmp::PartialOrdSpecImpl for HeapItem {
    open spec fn obeys_partial_cmp_spec() -> bool {
        true
    }

    open spec fn partial_cmp_spec(&self, other: &HeapItem) -> Option<Ordering> {
        if self.line@ == other.line@ {
            Some(Ordering::Equal)
        } else if lex_lt(self.line@, other.line@) {
            Some(Ordering::Greater)
        } else {
            Some(Ordering::Less)
        }
    }
}

/// Position of the parent of position `i` in the array layout of the heap.
spec fn parent(i: int) -> int {
    (i - 1) / 2
}

/// The entries of a sequence of items.
spec fn views(items: Seq<HeapItem>) -> Seq<(Seq<u8>, usize)> {
    Seq::new(items.len(), |i: int| items[i]@)
}

/// The item at `i` comes no earlier than its parent.
spec fn ordered_at(s: Seq<HeapItem>, i: int) -> bool {
    lex_le(s[parent(i)].line@, s[i].line@)
}

/// Heap order: no item comes earlier than its parent.
spec fn heap_ordered(s: Seq<HeapItem>) -> bool {
    forall|i: int| 1 <= i < s.len() ==> #[trigger] ordered_at(s, i)
}

spec fn up_ok(s: Seq<HeapItem>, k: int, i: int) -> bool {
    &&& i != k ==> ordered_at(s, i)
    &&& parent(i) == k && k >= 1 ==> lex_le(s[parent(k)].line@, s[i].line@)
}

/// Heap order but for the item at `k`, which may come earlier than its parent.
spec fn up_inv(s: Seq<HeapItem>, k: int) -> bool {
    forall|i: int| 1 <= i < s.len() ==> #[trigger] up_ok(s, k, i)
}

spec fn down_ok(s: Seq<HeapItem>, k: int, i: int) -> bool {
    &&& parent(i) != k ==> ordered_at(s, i)
    &&& parent(i) == k && k >= 1 ==> lex_le(s[parent(k)].line@, s[i].line@)
}

/// Heap order but for the item at `k`, which may come later than its children.
spec fn down_inv(s: Seq<HeapItem>, k: int) -> bool {
    forall|i: int| 1 <= i < s.len() ==> #[trigger] down_ok(s, k, i)
}

spec fn swapped(s: Seq<HeapItem>, i: int, j: int) -> Seq<HeapItem> {
    s.update(i, s[j]).update(j, s[i])
}

proof fn lemma_swapped_entries(s: Seq<HeapItem>, i: int, j: int)
    requires
        0 <= i < s.len(),
        0 <= j < s.len(),
        i != j,
    ensures
        views(swapped(s, i, j)).to_multiset() == views(s).to_multiset(),
{
    broadcast use vstd::multiset::group_multiset_axioms;

    let e = views(s);
    let e1 = e.update(i, e[j]);
    let e2 = e1.update(j, e[i]);
    assert(views(swapped(s, i, j)) =~= e2);
    to_multiset_update(e, i, e[j]);
    to_multiset_update(e1, j, e[i]);
    to_multiset_contains(e, e[i]);
    to_multiset_contains(e, e[j]);
    assert(e.contains(e[i]));
    assert(e.contains(e[j]));
    assert(e2.to_multiset() =~= e.to_multiset());
}

proof fn lemma_up_step(s: Seq<HeapItem>, k: int)
    requires
        1 <= k < s.len(),
        up_inv(s, k),
        lex_lt(s[k].line@, s[parent(k)].line@),
    ensures
        up_inv(swapped(s, k, parent(k)), parent(k)),
{
    let p = parent(k);
    let t = swapped(s, k, p);
    assert forall|i: int| 1 <= i < t.len() implies #[trigger] up_ok(t, p, i) by {
        assert(up_ok(s, k, i));
        let q = parent(i);
        if i == k {
            if p >= 1 {
                assert(up_ok(s, k, p));
            }
        } else if i == p {
        } else if q == k {
        } else if q == p {
            lemma_lex_le_transitive(s[k].line@, s[p].line@, s[i].line@);
            if p >= 1 {
                assert(up_ok(s, k, p));
                lemma_lex_le_transitive(s[parent(p)].line@, s[p].line@, s[i].line@);
            }
        } else {
        }
    }
}

proof fn lemma_up_done(s: Seq<HeapItem>, k: int)
    requires
        0 <= k < s.len(),
        up_inv(s, k),
        k == 0 || !lex_lt(s[k].line@, s[parent(k)].line@),
    ensures
        heap_ordered(s),
{
    assert forall|i: int| 1 <= i < s.len() implies #[trigger] ordered_at(s, i) by {
        assert(up_ok(s, k, i));
        if i == k {
            lemma_lex_total(s[k].line@, s[parent(k)].line@);
        }
    }
}

proof fn lemma_down_step(s: Seq<HeapItem>, k: int, c: int)
    requires
        0 <= k < c < s.len(),
        parent(c) == k,
        down_inv(s, k),
        forall|i: int| 1 <= i < s.len() && parent(i) == k ==> lex_le(s[c].line@, s[i].line@),
        lex_lt(s[c].line@, s[k].line@),
    ensures
        down_inv(swapped(s, k, c), c),
{
    let t = swapped(s, k, c);
    assert forall|i: int| 1 <= i < t.len() implies #[trigger] down_ok(t, c, i) by {
        assert(down_ok(s, k, i));
        let q = parent(i);
        if i == c {
        } else if i == k {
            assert(down_ok(s, k, c));
        } else if q == k {
        } else if q == c {
        } else {
        }
    }
}

proof fn lemma_down_done(s: Seq<HeapItem>, k: int)
    requires
        0 <= k,
        down_inv(s, k),
        forall|i: int| 1 <= i < s.len() && parent(i) == k ==> lex_le(s[k].line@, s[i].line@),
    ensures
        heap_ordered(s),
{
    assert forall|i: int| 1 <= i < s.len() implies #[trigger] ordered_at(s, i) by {
        assert(down_ok(s, k, i));
    }
}

/// In heap order the first item comes no later than any other.
proof fn lemma_root_is_least(s: Seq<HeapItem>, i: int)
    requires
        heap_ordered(s),
        0 <= i < s.len(),
    ensures
        lex_le(s[0].line@, s[i].line@),
    decreases i,
{
    if i > 0 {
        assert(ordered_at(s, i));
        lemma_root_is_least(s, parent(i));
        lemma_lex_le_transitive(s[0].line@, s[parent(i)].line@, s[i].line@);
    }
}

fn swap_items(v: &mut Vec<HeapItem>, i: usize, j: usize)
    requires
        i < old(v).len(),
        j < old(v).len(),
        i != j,
    ensures
        final(v)@ == swapped(old(v)@, i as int, j as int),
{
    let mut held = HeapItem { line: Vec::new(), index: 0 };
    v.set_and_swap(i, &mut held);
    v.set_and_swap(j, &mut held);
    v.set(i, held);
    assert(v@ =~= swapped(old(v)@, i as int, j as int));
}

fn sift_up(v: &mut Vec<HeapItem>, start: usize)
    requires
        start < old(v).len(),
        up_inv(old(v)@, start as int),
    ensures
        heap_ordered(final(v)@),
        views(final(v)@).to_multiset() == views(old(v)@).to_multiset(),
{
    let mut k: usize = start;
    while k > 0 && v[k].outranks(&v[(k - 1) / 2])
        invariant
            k < v.len(),
            up_inv(v@, k as int),
            views(v@).to_multiset() == views(old(v)@).to_multiset(),
        decreases k,
    {
        let p: usize = (k - 1) / 2;
        proof {
            lemma_up_step(v@, k as int);
            lemma_swapped_entries(v@, k as int, p as int);
        }
        swap_items(v, k, p);
        k = p;
    }
    proof {
        lemma_up_done(v@, k as int);
    }
}

fn sift_down(v: &mut Vec<HeapItem>)
    requires
        down_inv(old(v)@, 0),
    ensures
        heap_ordered(final(v)@),
        views(final(v)@).to_multiset() == views(old(v)@).to_multiset(),
{
    let n: usize = v.len();
    let mut k: usize = 0;
    loop
        invariant
            v.len() == n,
            k < n || n == 0,
            down_inv(v@, k as int),
            views(v@).to_multiset() == views(old(v)@).to_multiset(),
        ensures
            heap_ordered(v@),
        decreases n - k,
    {
        if k >= n / 2 {
            proof {
                lemma_down_done(v@, k as int);
            }
            break ;
        }
        let left: usize = 2 * k + 1;
        let right: usize = left + 1;
        let mut c: usize = left;
        if right < n && v[right].outranks(&v[left]) {
            c = right;
        }
        proof {
            let s = v@;
            lemma_lex_total(s[left as int].line@, s[right as int].line@);
            assert forall|i: int| 1 <= i < s.len() && parent(i) == k implies lex_le(
                s[c as int].line@,
                s[i].line@,
            ) by {
                assert(i == left || i == right);
            }
        }
        if !v[c].outranks(&v[k]) {
            proof {
                let s = v@;
                lemma_lex_total(s[c as int].line@, s[k as int].line@);
                assert forall|i: int| 1 <= i < s.len() && parent(i) == k implies lex_le(
                    s[k as int].line@,
                    s[i].line@,
                ) by {
                    lemma_lex_le_transitive(s[k as int].line@, s[c as int].line@, s[i].line@);
                }
                lemma_down_done(s, k as int);
            }
            break ;
        }
        proof {
            lemma_down_step(v@, k as int, c as int);
            lemma_swapped_entries(v@, k as int, c as int);
        }
        swap_items(v, k, c);
        k = c;
    }
}

fn push_item(v: &mut Vec<HeapItem>, item: HeapItem)
    requires
        heap_ordered(old(v)@),
    ensures
        heap_ordered(final(v)@),
        views(final(v)@).to_multiset() == views(old(v)@).to_multiset().insert(item@),
{
    let ghost s = v@;
    v.push(item);
    proof {
        let t = v@;
        let k = s.len() as int;
        assert(views(t) =~= views(s).push(item@));
        to_multiset_build(views(s), item@);
        assert forall|i: int| 1 <= i < t.len() implies #[trigger] up_ok(t, k, i) by {
            if i != k {
                assert(ordered_at(s, i));
            }
        }
    }
    let last: usize = v.len() - 1;
    sift_up(v, last);
}

fn pop_item(v: &mut Vec<HeapItem>) -> (r: Option<HeapItem>)
    requires
        heap_ordered(old(v)@),
    ensures
        heap_ordered(final(v)@),
        match r {
            None => old(v)@.len() == 0 && final(v)@ == old(v)@,
            Some(item) => {
                &&& views(old(v)@).to_multiset().contains(item@)
                &&& views(final(v)@).to_multiset() == views(old(v)@).to_multiset().remove(item@)
                &&& forall|i: int| 0 <= i < old(v)@.len() ==> lex_le(item.line@, old(v)@[i].line@)
            },
        },
{
    let n: usize = v.len();
    if n == 0 {
        return None;
    }
    let ghost s = v@;
    proof {
        assert forall|i: int| 0 <= i < s.len() implies lex_le(s[0].line@, s[i].line@) by {
            lemma_root_is_least(s, i);
        }
    }
    if n > 1 {
        proof {
            lemma_swapped_entries(s, 0, n - 1);
        }
        swap_items(v, 0, n - 1);
    }
    let ghost t = v@;
    let item = v.pop().unwrap();
    proof {
        broadcast use vstd::multiset::group_multiset_axioms;

        let u = v@;
        assert(item == s[0]);
        assert(views(t) =~= views(u).push(item@));
        to_multiset_build(views(u), item@);
        assert(views(u).to_multiset() =~= views(s).to_multiset().remove(item@));
        assert forall|i: int| 1 <= i < u.len() implies #[trigger] down_ok(u, 0, i) by {
            if parent(i) != 0 {
                assert(ordered_at(s, i));
            }
        }
    }
    sift_down(v);
    Some(item)
}

/// A priority queue of buffered lines that yields the smallest line first.
pub struct Frontier {
    items: Vec<HeapItem>,
}

impl View for Frontier {
    type V = Multiset<(Seq<u8>, usize)>;

    closed spec fn view(&self) -> Multiset<(Seq<u8>, usize)> {
        views(self.items@).to_multiset()
    }
}

impl Frontier {
    /// The items are in heap order. Every operation requires and keeps this.
    pub closed spec fn wf(&self) -> bool {
        heap_ordered(self.items@)
    }

    /// An empty frontier.
    pub fn new() -> (f: Frontier)
        ensures
            f.wf(),
            f@ == Multiset::<(Seq<u8>, usize)>::empty(),
    {
        let f = Frontier { items: Vec::new() };
        proof {
            broadcast use vstd::multiset::group_multiset_axioms;

            let entries = views(f.items@);
            to_multiset_len(entries);
            vstd::multiset::lemma_multiset_empty_len(entries.to_multiset());
            assert(entries.to_multiset() =~= Multiset::empty());
        }
        f
    }

    /// Number of buffered entries.
    pub fn len(&self) -> (n: usize)
        ensures
            n == self@.len(),
    {
        proof {
            to_multiset_len(views(self.items@));
        }
        self.items.len()
    }

    /// Whether no entry is buffered.
    pub fn is_empty(&self) -> (b: bool)
        ensures
            b == (self@.len() == 0),
    {
        proof {
            to_multiset_len(views(self.items@));
        }
        self.items.len() == 0
    }

    /// Adds an entry.
    pub fn push(&mut self, item: HeapItem)
        requires
            old(self).wf(),
        ensures
            final(self).wf(),
            final(self)@ == old(self)@.insert(item@),
    {
        push_item(&mut self.items, item);
    }

    /// Removes and returns an entry whose line is smallest, or `None` where
    /// the frontier is empty. Among entries with the same line, which one
    /// leaves is not fixed.
    pub fn pop(&mut self) -> (r: Option<HeapItem>)
        requires
            old(self).wf(),
        ensures
            final(self).wf(),
            match r {
                None => old(self)@.len() == 0 && final(self)@ == old(self)@,
                Some(item) => {
                    &&& old(self)@.contains(item@)
                    &&& final(self)@ == old(self)@.remove(item@)
                    &&& forall|l: Seq<u8>, i: usize|
                        #![trigger old(self)@.count((l, i))]
                        old(self)@.contains((l, i)) ==> lex_le(item.line@, l)
                },
            },
    {
        proof {
            to_multiset_len(views(self.items@));
        }
        let ghost s = self.items@;
        let r = pop_item(&mut self.items);
        proof {
            if r is Some {
                let item = r->0;
                assert forall|l: Seq<u8>, idx: usize|
                    #![trigger views(s).to_multiset().count((l, idx))]
                    views(s).to_multiset().contains((l, idx)) implies lex_le(item.line@, l) by {
                    to_multiset_contains(views(s), (l, idx));
                    let i = choose|i: int| 0 <= i < views(s).len() && views(s)[i] == (l, idx);
                    assert(views(s)[i] == s[i]@);
                }
            }
        }
        r
    }
}

} // verus!
