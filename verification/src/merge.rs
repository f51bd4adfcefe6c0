//! The merge phase: a k-way merge over sorted spill units that writes every
//! distinct line once.

use crate::frontier::{Frontier, HeapItem};
use crate::lines::{
    concat_lines, lemma_lines_from_step, lines_from, lines_of, views_of, read_line,
};
use crate::order::{lex_le, line_eq};
use crate::sorted::{
    is_sorted, is_strictly_sorted, lemma_strictly_sorted_push, lemma_strictly_sorted_unique,
    sorted_distinct,
};
use vstd::multiset::Multiset;
use vstd::prelude::*;

verus! {

/// What the merger hands out in one step: the smallest buffered line, the unit
/// it was read from, and whether it is to be written.
pub struct MergeStep {
    pub line: Vec<u8>,
    pub index: usize,
    /// The line differs from the line written last, so it is written now.
    pub fresh: bool,
}

/// The state of a merge: the frontier of buffered lines and the line written
/// last.
///
/// The caller owns the readers. It offers the first line of every unit, then
/// takes steps until none is left; after each step it offers the next line of
/// the unit that the step names, if that unit has one.
pub struct Merger {
    frontier: Frontier,
    last_written: Option<Vec<u8>>,
}

impl Merger {
    /// The frontier is in heap order. Every operation requires and keeps this.
    pub closed spec fn wf(&self) -> bool {
        self.frontier.wf()
    }

    /// The buffered entries: pairs of a line and the index of its unit.
    pub closed spec fn frontier(&self) -> Multiset<(Seq<u8>, usize)> {
        self.frontier@
    }

    /// The line written last, if any was.
    pub closed spec fn last_written(&self) -> Option<Seq<u8>> {
        match self.last_written {
            Some(l) => Some(l@),
            None => None,
        }
    }

    /// A merger with nothing buffered and nothing written.
    pub fn new() -> (m: Merger)
        ensures
            m.wf(),
            m.frontier() == Multiset::<(Seq<u8>, usize)>::empty(),
            m.last_written() is None,
    {
        Merger { frontier: Frontier::new(), last_written: None }
    }

    /// Number of buffered entries.
    pub fn pending(&self) -> (n: usize)
        ensures
            n == self.frontier().len(),
    {
        self.frontier.len()
    }

    /// Buffers `line` as the current line of unit `index`.
    pub fn offer(&mut self, line: Vec<u8>, index: usize)
        requires
            old(self).wf(),
        ensures
            final(self).wf(),
            final(self).frontier() == old(self).frontier().insert((line@, index)),
            final(self).last_written() == old(self).last_written(),
    {
        self.frontier.push(HeapItem { line, index });
    }

    /// Takes the smallest buffered line out of the frontier, or returns `None`
    /// where nothing is buffered. The line is fresh, and is recorded as
    /// written, unless it equals the line written last.
    pub fn next_step(&mut self) -> (r: Option<MergeStep>)
        requires
            old(self).wf(),
        ensures
            final(self).wf(),
            match r {
                None => {
                    &&& old(self).frontier().len() == 0
                    &&& final(self).frontier() == old(self).frontier()
                    &&& final(self).last_written() == old(self).last_written()
                },
                Some(step) => {
                    &&& old(self).frontier().contains((step.line@, step.index))
                    &&& final(self).frontier() == old(self).frontier().remove(
                        (step.line@, step.index),
                    )
                    &&& forall|l: Seq<u8>, i: usize|
                        #![trigger old(self).frontier().count((l, i))]
                        old(self).frontier().contains((l, i)) ==> lex_le(step.line@, l)
                    &&& step.fresh == (old(self).last_written() != Some(step.line@))
                    &&& final(self).last_written() == Some(step.line@)
                },
            },
    {
        match self.frontier.pop() {
            None => None,
            Some(item) => {
                let fresh = match &self.last_written {
                    Some(prev) => !line_eq(prev, &item.line),
                    None => true,
                };
                if fresh {
                    let copy = item.line.clone();
                    assert(copy@ =~= item.line@);
                    self.last_written = Some(copy);
                }
                Some(MergeStep { line: item.line, index: item.index, fresh })
            },
        }
    }
}

/// The lines of each spill unit.
pub open spec fn unit_lines(units: Seq<Seq<u8>>) -> Seq<Seq<Seq<u8>>> {
    Seq::new(units.len(), |i: int| lines_of(units[i]))
}

/// Every unit holds its lines in sorted order.
pub open spec fn all_sorted(units: Seq<Seq<Seq<u8>>>) -> bool {
    forall|i: int| 0 <= i < units.len() ==> is_sorted(#[trigger] units[i])
}

/// No line is followed by an equal line.
pub open spec fn no_adjacent_repeat(s: Seq<Seq<u8>>) -> bool {
    forall|j: int| 0 <= j < s.len() - 1 ==> (#[trigger] s[j]) != s[j + 1]
}

/// `written` is what a merge of `units` writes: exactly the lines that the
/// units hold, none of them twice in a row and, where every unit is sorted,
/// in strictly increasing order.
pub open spec fn merges(written: Seq<Seq<u8>>, units: Seq<Seq<Seq<u8>>>) -> bool {
    &&& written.to_set() == units.flatten().to_set()
    &&& no_adjacent_repeat(written)
    &&& all_sorted(units) ==> is_strictly_sorted(written)
}

/// A line is among the flattened units exactly if some unit holds it.
pub proof fn lemma_flatten_contains(u: Seq<Seq<Seq<u8>>>, x: Seq<u8>)
    ensures
        u.flatten().contains(x) <==> exists|i: int, k: int|
            0 <= i < u.len() && 0 <= k < u[i].len() && (#[trigger] u[i][k]) == x,
    decreases u.len(),
{
    if u.len() > 0 {
        let first = u.first();
        let rest = u.drop_first();
        lemma_flatten_contains(rest, x);
        let fl = u.flatten();
        assert(fl == first + rest.flatten());
        if fl.contains(x) {
            let j = choose|j: int| 0 <= j < fl.len() && fl[j] == x;
            if j < first.len() {
                assert(u[0][j] == x);
            } else {
                assert(rest.flatten()[j - first.len()] == x);
                let (i, k) = choose|i: int, k: int|
                    0 <= i < rest.len() && 0 <= k < rest[i].len() && (#[trigger] rest[i][k]) == x;
                assert(u[i + 1][k] == x);
            }
        }
        if exists|i: int, k: int|
            0 <= i < u.len() && 0 <= k < u[i].len() && (#[trigger] u[i][k]) == x {
            let (i, k) = choose|i: int, k: int|
                0 <= i < u.len() && 0 <= k < u[i].len() && (#[trigger] u[i][k]) == x;
            if i == 0 {
                assert(fl[k] == x);
            } else {
                assert(rest[i - 1][k] == x);
                assert(rest.flatten().contains(x));
                let j = choose|j: int| 0 <= j < rest.flatten().len() && rest.flatten()[j] == x;
                assert(fl[first.len() + j] == x);
            }
        }
    }
}

/// The frontier holds at most one entry for each unit.
pub open spec fn one_entry_per_unit(f: Multiset<(Seq<u8>, usize)>) -> bool {
    forall|l1: Seq<u8>, l2: Seq<u8>, i: usize|
        #![trigger f.count((l1, i)), f.count((l2, i))]
        f.count((l1, i)) > 0 && f.count((l2, i)) > 0 ==> l1 == l2 && f.count((l1, i)) == 1
}

/// Taking a unit's entry out of a frontier that holds at most one entry for
/// each unit leaves none for that unit.
pub proof fn lemma_step_frees_unit(f: Multiset<(Seq<u8>, usize)>, line: Seq<u8>, index: usize)
    requires
        one_entry_per_unit(f),
        f.contains((line, index)),
    ensures
        one_entry_per_unit(f.remove((line, index))),
        forall|l: Seq<u8>| f.remove((line, index)).count((l, index)) == 0,
{
    broadcast use vstd::multiset::group_multiset_axioms;

    let g = f.remove((line, index));
    assert forall|l: Seq<u8>| g.count((l, index)) == 0 by {
        if g.count((l, index)) > 0 {
            assert(f.count((l, index)) > 0 && f.count((line, index)) > 0);
        }
    }
    assert forall|l1: Seq<u8>, l2: Seq<u8>, i: usize|
        #![trigger g.count((l1, i)), g.count((l2, i))]
        g.count((l1, i)) > 0 && g.count((l2, i)) > 0 implies l1 == l2 && g.count((l1, i)) == 1 by {
        assert(f.count((l1, i)) > 0 && f.count((l2, i)) > 0);
    }
}

/// Offering a line of a unit that has no entry keeps the frontier at one entry
/// for each unit at most.
pub proof fn lemma_offer_to_free_unit(f: Multiset<(Seq<u8>, usize)>, line: Seq<u8>, index: usize)
    requires
        one_entry_per_unit(f),
        forall|l: Seq<u8>| f.count((l, index)) == 0,
    ensures
        one_entry_per_unit(f.insert((line, index))),
{
    broadcast use vstd::multiset::group_multiset_axioms;

    let g = f.insert((line, index));
    assert forall|l1: Seq<u8>, l2: Seq<u8>, i: usize|
        #![trigger g.count((l1, i)), g.count((l2, i))]
        g.count((l1, i)) > 0 && g.count((l2, i)) > 0 implies l1 == l2 && g.count((l1, i)) == 1 by {
        if i == index {
            assert(f.count((l1, i)) == 0 && f.count((l2, i)) == 0);
        } else {
            assert(f.count((l1, i)) > 0 && f.count((l2, i)) > 0);
        }
    }
}

/// A frontier that holds at most one entry for each of `n` units holds at most
/// `n` entries: one buffered line for each open unit.
pub proof fn lemma_frontier_is_bounded(f: Multiset<(Seq<u8>, usize)>, n: nat)
    requires
        one_entry_per_unit(f),
        forall|l: Seq<u8>, i: usize| #![trigger f.count((l, i))] f.count((l, i)) > 0 ==> i < n,
    ensures
        f.len() <= n,
    decreases n,
{
    broadcast use vstd::multiset::group_multiset_axioms;

    if f.len() > 0 {
        vstd::multiset::lemma_multiset_empty_len(f);
        let v = choose|v: (Seq<u8>, usize)| 0 < f.count(v);
        assert(f.count((v.0, v.1)) > 0);
        assert(n > 0);
        let last = (n - 1) as usize;
        if exists|l: Seq<u8>| f.count((l, last)) > 0 {
            let l = choose|l: Seq<u8>| f.count((l, last)) > 0;
            let g = f.remove((l, last));
            lemma_remove_len(f, (l, last));
            lemma_step_frees_unit(f, l, last);
            assert forall|l2: Seq<u8>, i: usize| #![trigger g.count((l2, i))] g.count((l2, i))
                > 0 implies i < n - 1 by {
                assert(f.count((l2, i)) > 0);
            }
            lemma_frontier_is_bounded(g, (n - 1) as nat);
        } else {
            assert forall|l2: Seq<u8>, i: usize| #![trigger f.count((l2, i))] f.count((l2, i))
                > 0 implies i < n - 1 by {
                if i == last {
                    assert(exists|l: Seq<u8>| f.count((l, last)) > 0);
                }
            }
            lemma_frontier_is_bounded(f, (n - 1) as nat);
        }
    }
}

spec fn holds(f: Multiset<(Seq<u8>, usize)>, l: Seq<u8>, idx: usize) -> bool {
    f.count((l, idx)) > 0
}

spec fn pending(f: Multiset<(Seq<u8>, usize)>, l: Seq<u8>) -> bool {
    exists|idx: usize| #[trigger] holds(f, l, idx)
}

spec fn has_entry(f: Multiset<(Seq<u8>, usize)>, idx: usize) -> bool {
    exists|l: Seq<u8>| #[trigger] holds(f, l, idx)
}

spec fn was_read(u: Seq<Seq<Seq<u8>>>, c: Seq<int>, x: Seq<u8>) -> bool {
    exists|i: int, k: int|
        0 <= i < u.len() && 0 <= k < c[i] && k < u[i].len() && (#[trigger] u[i][k]) == x
}

spec fn sorted_inv(
    u: Seq<Seq<Seq<u8>>>,
    c: Seq<int>,
    f: Multiset<(Seq<u8>, usize)>,
    w: Seq<Seq<u8>>,
) -> bool {
    &&& is_strictly_sorted(w)
    &&& forall|l: Seq<u8>, idx: usize| #[trigger]
        holds(f, l, idx) ==> {
            &&& w.len() > 0 ==> lex_le(w.last(), l)
            &&& forall|k: int|
                c[idx as int] <= k < u[idx as int].len() ==> lex_le(l, #[trigger] u[idx as int][k])
        }
}

/// What holds between the steps of a merge over units `u`, of which the first
/// `opened` have been opened: `c[i]` lines have been read from unit `i`, `f`
/// is the frontier and `w` the lines written. Unit `hole`, if there is one,
/// has just given up its entry and has not been asked for its next line.
spec fn merge_inv(
    u: Seq<Seq<Seq<u8>>>,
    c: Seq<int>,
    f: Multiset<(Seq<u8>, usize)>,
    w: Seq<Seq<u8>>,
    opened: int,
    hole: int,
) -> bool {
    &&& c.len() == u.len()
    &&& u.len() <= usize::MAX
    &&& 0 <= opened <= u.len()
    &&& forall|i: int| 0 <= i < u.len() ==> 0 <= #[trigger] c[i] <= u[i].len()
    &&& no_adjacent_repeat(w)
    &&& forall|j: int| 0 <= j < w.len() ==> was_read(u, c, #[trigger] w[j])
    &&& forall|l: Seq<u8>, idx: usize| #[trigger]
        holds(f, l, idx) ==> idx < opened && was_read(u, c, l)
    &&& one_entry_per_unit(f)
    &&& hole >= 0 ==> forall|l: Seq<u8>| !#[trigger] holds(f, l, hole as usize)
    &&& forall|i: int, k: int|
        0 <= i < u.len() && 0 <= k < c[i] ==> w.contains(#[trigger] u[i][k]) || pending(
            f,
            u[i][k],
        )
    &&& forall|i: int|
        0 <= i < opened && i != hole ==> #[trigger] c[i] == u[i].len() || has_entry(
            f,
            i as usize,
        )
    &&& all_sorted(u) ==> sorted_inv(u, c, f, w)
}

proof fn lemma_inv_init(u: Seq<Seq<Seq<u8>>>)
    requires
        u.len() <= usize::MAX,
    ensures
        merge_inv(
            u,
            Seq::new(u.len(), |i: int| 0int),
            Multiset::empty(),
            Seq::empty(),
            0,
            -1,
        ),
{
    broadcast use vstd::multiset::group_multiset_axioms;

}

proof fn lemma_open_next(
    u: Seq<Seq<Seq<u8>>>,
    c: Seq<int>,
    f: Multiset<(Seq<u8>, usize)>,
    w: Seq<Seq<u8>>,
    opened: int,
)
    requires
        merge_inv(u, c, f, w, opened, -1),
        opened < u.len(),
    ensures
        merge_inv(u, c, f, w, opened + 1, opened),
{
}

/// The step that takes a smallest entry out of the frontier and writes its
/// line unless it equals the line written last.
proof fn lemma_write(
    u: Seq<Seq<Seq<u8>>>,
    c: Seq<int>,
    f: Multiset<(Seq<u8>, usize)>,
    w: Seq<Seq<u8>>,
    x: Seq<u8>,
    idx: usize,
)
    requires
        merge_inv(u, c, f, w, u.len() as int, -1),
        f.contains((x, idx)),
        forall|l: Seq<u8>, i: usize| #![trigger f.count((l, i))] f.contains((l, i)) ==> lex_le(x, l),
    ensures
        idx < u.len(),
        merge_inv(
            u,
            c,
            f.remove((x, idx)),
            if w.len() == 0 || w.last() != x {
                w.push(x)
            } else {
                w
            },
            u.len() as int,
            idx as int,
        ),
        all_sorted(u) ==> forall|k: int|
            c[idx as int] <= k < u[idx as int].len() ==> lex_le(x, #[trigger] u[idx as int][k]),
{
    broadcast use vstd::multiset::group_multiset_axioms;

    let f2 = f.remove((x, idx));
    let w2 = if w.len() == 0 || w.last() != x {
        w.push(x)
    } else {
        w
    };
    assert(holds(f, x, idx));
    lemma_step_frees_unit(f, x, idx);
    assert forall|l: Seq<u8>, i: usize| #[trigger] holds(f2, l, i) implies holds(f, l, i) by {}
    assert forall|j: int| 0 <= j < w.len() implies w2.contains(#[trigger] w[j]) by {
        assert(w2[j] == w[j]);
    }
    assert(w2.len() > 0 && w2.last() == x);
    assert forall|j: int| 0 <= j < w2.len() - 1 implies (#[trigger] w2[j]) != w2[j + 1] by {
        if j < w.len() - 1 {
            assert(w[j] != w[j + 1]);
        }
    }
    assert(w2.contains(x)) by {
        assert(w2[w2.len() - 1] == x);
    }
    assert forall|j: int| 0 <= j < w2.len() implies was_read(u, c, #[trigger] w2[j]) by {
        if j < w.len() {
            assert(w2[j] == w[j]);
        }
    }
    assert forall|i: int, k: int| 0 <= i < u.len() && 0 <= k < c[i] implies w2.contains(
        #[trigger] u[i][k],
    ) || pending(f2, u[i][k]) by {
        let y = u[i][k];
        if w.contains(y) {
            let j = choose|j: int| 0 <= j < w.len() && w[j] == y;
            assert(w2.contains(w[j]));
        } else {
            assert(pending(f, y));
            let i2 = choose|i2: usize| #[trigger] holds(f, y, i2);
            if y != x {
                assert(holds(f2, y, i2));
            }
        }
    }
    assert forall|i: int| 0 <= i < u.len() && i != idx implies #[trigger] c[i] == u[i].len()
        || has_entry(f2, i as usize) by {
        if c[i] != u[i].len() {
            assert(has_entry(f, i as usize));
            let l = choose|l: Seq<u8>| #[trigger] holds(f, l, i as usize);
            assert(holds(f2, l, i as usize));
        }
    }
    if all_sorted(u) {
        assert(sorted_inv(u, c, f, w));
        if w.len() == 0 || w.last() != x {
            if w.len() > 0 {
                assert(lex_le(w.last(), x));
            }
            lemma_strictly_sorted_push(w, x);
        }
        assert forall|l: Seq<u8>, i: usize| #[trigger] holds(f2, l, i) implies {
            &&& w2.len() > 0 ==> lex_le(w2.last(), l)
            &&& forall|k: int|
                c[i as int] <= k < u[i as int].len() ==> lex_le(l, #[trigger] u[i as int][k])
        } by {
            assert(holds(f, l, i));
            assert(f.contains((l, i)));
        }
        assert(sorted_inv(u, c, f2, w2));
    }
}

/// The step that reads the next line of the unit that has just given up its
/// entry.
proof fn lemma_advance_read(
    u: Seq<Seq<Seq<u8>>>,
    c: Seq<int>,
    f: Multiset<(Seq<u8>, usize)>,
    w: Seq<Seq<u8>>,
    i: usize,
    opened: int,
)
    requires
        merge_inv(u, c, f, w, opened, i as int),
        i < opened,
        c[i as int] < u[i as int].len(),
        all_sorted(u) && w.len() > 0 ==> lex_le(w.last(), u[i as int][c[i as int]]),
    ensures
        merge_inv(
            u,
            c.update(i as int, c[i as int] + 1),
            f.insert((u[i as int][c[i as int]], i)),
            w,
            opened,
            -1,
        ),
{
    broadcast use vstd::multiset::group_multiset_axioms;

    let y = u[i as int][c[i as int]];
    let c2 = c.update(i as int, c[i as int] + 1);
    let f2 = f.insert((y, i));
    assert forall|x: Seq<u8>| was_read(u, c, x) implies was_read(u, c2, x) by {
        let (a, k) = choose|a: int, k: int|
            0 <= a < u.len() && 0 <= k < c[a] && k < u[a].len() && (#[trigger] u[a][k]) == x;
        assert(0 <= k < c2[a] && u[a][k] == x);
    }
    assert(was_read(u, c2, y)) by {
        assert(0 <= c[i as int] < c2[i as int] && u[i as int][c[i as int]] == y);
    }
    assert(holds(f2, y, i));
    assert forall|l: Seq<u8>| f.count((l, i)) == 0 by {
        assert((i as int) as usize == i);
        assert(!holds(f, l, (i as int) as usize));
    }
    lemma_offer_to_free_unit(f, y, i);
    assert forall|l: Seq<u8>, idx: usize| #[trigger] holds(f, l, idx) implies holds(
        f2,
        l,
        idx,
    ) by {}
    assert forall|l: Seq<u8>, idx: usize| #[trigger] holds(f2, l, idx) implies idx < opened
        && was_read(u, c2, l) by {
        if (l, idx) != (y, i) {
            assert(holds(f, l, idx));
        }
    }
    assert forall|j: int| 0 <= j < w.len() implies was_read(u, c2, #[trigger] w[j]) by {
        assert(was_read(u, c, w[j]));
    }
    assert forall|a: int, k: int| 0 <= a < u.len() && 0 <= k < c2[a] implies w.contains(
        #[trigger] u[a][k],
    ) || pending(f2, u[a][k]) by {
        if a == i && k == c[i as int] {
            assert(holds(f2, y, i));
        } else if !w.contains(u[a][k]) {
            assert(pending(f, u[a][k]));
            let i2 = choose|i2: usize| #[trigger] holds(f, u[a][k], i2);
            assert(holds(f2, u[a][k], i2));
        }
    }
    assert forall|a: int| 0 <= a < opened implies #[trigger] c2[a] == u[a].len() || has_entry(
        f2,
        a as usize,
    ) by {
        if a == i {
            assert(holds(f2, y, a as usize));
        } else if c[a] != u[a].len() {
            assert(has_entry(f, a as usize));
            let l = choose|l: Seq<u8>| #[trigger] holds(f, l, a as usize);
            assert(holds(f2, l, a as usize));
        }
    }
    if all_sorted(u) {
        assert(sorted_inv(u, c, f, w));
        assert(is_sorted(u[i as int]));
        assert forall|l: Seq<u8>, idx: usize| #[trigger] holds(f2, l, idx) implies {
            &&& w.len() > 0 ==> lex_le(w.last(), l)
            &&& forall|k: int|
                c2[idx as int] <= k < u[idx as int].len() ==> lex_le(
                    l,
                    #[trigger] u[idx as int][k],
                )
        } by {
            if (l, idx) != (y, i) {
                assert(holds(f, l, idx));
            } else {
                assert forall|k: int| c2[i as int] <= k < u[i as int].len() implies lex_le(
                    y,
                    #[trigger] u[i as int][k],
                ) by {
                    let line = u[i as int];
                    assert(lex_le(line[c[i as int]], line[k]));
                }
            }
        }
        assert(sorted_inv(u, c2, f2, w));
    }
}

/// The step that finds the unit that has just given up its entry exhausted.
proof fn lemma_advance_done(
    u: Seq<Seq<Seq<u8>>>,
    c: Seq<int>,
    f: Multiset<(Seq<u8>, usize)>,
    w: Seq<Seq<u8>>,
    i: usize,
    opened: int,
)
    requires
        merge_inv(u, c, f, w, opened, i as int),
        i < u.len(),
        c[i as int] == u[i as int].len(),
    ensures
        merge_inv(u, c, f, w, opened, -1),
{
}

/// Once every unit is open and the frontier is empty, what was written is a
/// merge of the units.
proof fn lemma_merged(
    u: Seq<Seq<Seq<u8>>>,
    c: Seq<int>,
    f: Multiset<(Seq<u8>, usize)>,
    w: Seq<Seq<u8>>,
)
    requires
        merge_inv(u, c, f, w, u.len() as int, -1),
        f.len() == 0,
    ensures
        merges(w, u),
{
    broadcast use vstd::multiset::group_multiset_axioms;

    assert forall|l: Seq<u8>, idx: usize| !#[trigger] holds(f, l, idx) by {
        vstd::multiset::lemma_multiset_empty_len(f);
    }
    assert forall|i: int| 0 <= i < u.len() implies #[trigger] c[i] == u[i].len() by {
        if c[i] != u[i].len() {
            assert(has_entry(f, i as usize));
        }
    }
    assert forall|x: Seq<u8>| w.contains(x) <==> u.flatten().contains(x) by {
        lemma_flatten_contains(u, x);
        if w.contains(x) {
            let j = choose|j: int| 0 <= j < w.len() && w[j] == x;
            assert(was_read(u, c, w[j]));
        }
        if u.flatten().contains(x) {
            let (i, k) = choose|i: int, k: int|
                0 <= i < u.len() && 0 <= k < u[i].len() && (#[trigger] u[i][k]) == x;
            assert(w.contains(u[i][k]) || pending(f, u[i][k]));
        }
    }
    assert(w.to_set() =~= u.flatten().to_set());
    if all_sorted(u) {
        assert(sorted_inv(u, c, f, w));
    }
}

/// Number of lines not yet read from the first `n` units.
spec fn unread(u: Seq<Seq<Seq<u8>>>, c: Seq<int>, n: int) -> int
    decreases n,
{
    if n <= 0 {
        0
    } else {
        unread(u, c, n - 1) + (u[n - 1].len() - c[n - 1])
    }
}

proof fn lemma_unread_nonneg(u: Seq<Seq<Seq<u8>>>, c: Seq<int>, n: int)
    requires
        0 <= n <= u.len(),
        c.len() == u.len(),
        forall|i: int| 0 <= i < u.len() ==> 0 <= #[trigger] c[i] <= u[i].len(),
    ensures
        unread(u, c, n) >= 0,
    decreases n,
{
    if n > 0 {
        lemma_unread_nonneg(u, c, n - 1);
        assert(c[n - 1] <= u[n - 1].len());
    }
}

proof fn lemma_unread_step(u: Seq<Seq<Seq<u8>>>, c: Seq<int>, i: int, n: int)
    requires
        0 <= i < u.len(),
        0 <= n <= u.len(),
        c.len() == u.len(),
    ensures
        unread(u, c.update(i, c[i] + 1), n) == unread(u, c, n) - if i < n {
            1int
        } else {
            0int
        },
    decreases n,
{
    if n > 0 {
        lemma_unread_step(u, c, i, n - 1);
    }
}

proof fn lemma_remove_len(f: Multiset<(Seq<u8>, usize)>, e: (Seq<u8>, usize))
    requires
        f.contains(e),
    ensures
        f.remove(e).len() == f.len() - 1,
{
    broadcast use vstd::multiset::group_multiset_axioms;

    assert(Multiset::singleton(e).subset_of(f)) by {
        assert forall|v: (Seq<u8>, usize)| Multiset::singleton(e).count(v) <= f.count(v) by {
            if v != e {
                assert(Multiset::singleton(e).count(v) == 0);
            }
        }
    }
}

/// Each reader stands at the byte offset that follows the lines it has read.
spec fn readers_inv(units: Seq<Vec<u8>>, positions: Seq<usize>, c: Seq<int>) -> bool {
    &&& positions.len() == units.len()
    &&& c.len() == units.len()
    &&& forall|i: int|
        0 <= i < units.len() ==> {
            &&& (#[trigger] positions[i]) <= units[i]@.len()
            &&& 0 <= c[i] <= lines_of(units[i]@).len()
            &&& lines_from(units[i]@, positions[i] as int) == lines_of(units[i]@).skip(c[i])
        }
}

/// Reads the next line of unit `index`, if it has one, and offers it.
fn advance_unit(
    chunk_files: &Vec<Vec<u8>>,
    positions: &mut Vec<usize>,
    merger: &mut Merger,
    index: usize,
    Ghost(c): Ghost<Seq<int>>,
    Ghost(w): Ghost<Seq<Seq<u8>>>,
    Ghost(opened): Ghost<int>,
) -> (c2: Ghost<Seq<int>>)
    requires
        index < chunk_files.len(),
        index < opened,
        old(merger).wf(),
        readers_inv(chunk_files@, old(positions)@, c),
        merge_inv(
            unit_lines(views_of(chunk_files@)),
            c,
            old(merger).frontier(),
            w,
            opened,
            index as int,
        ),
        all_sorted(unit_lines(views_of(chunk_files@))) && w.len() > 0 && c[index as int] < unit_lines(
            views_of(chunk_files@),
        )[index as int].len() ==> lex_le(
            w.last(),
            unit_lines(views_of(chunk_files@))[index as int][c[index as int]],
        ),
    ensures
        final(merger).wf(),
        final(merger).last_written() == old(merger).last_written(),
        readers_inv(chunk_files@, final(positions)@, c2@),
        merge_inv(unit_lines(views_of(chunk_files@)), c2@, final(merger).frontier(), w, opened, -1),
        final(merger).frontier().len() + 2 * unread(
            unit_lines(views_of(chunk_files@)),
            c2@,
            chunk_files@.len() as int,
        ) <= old(merger).frontier().len() + 2 * unread(
            unit_lines(views_of(chunk_files@)),
            c,
            chunk_files@.len() as int,
        ),
{
    broadcast use vstd::multiset::group_multiset_axioms;

    let ghost u = unit_lines(views_of(chunk_files@));
    let ghost f = merger.frontier();
    let unit = &chunk_files[index];
    let pos: usize = positions[index];
    let line = read_line(unit, pos);
    assert(lines_from(unit@, pos as int) == u[index as int].skip(c[index as int]));
    proof {
        if pos < unit.len() {
            lemma_lines_from_step(unit@, pos as int);
        }
    }
    if line.len() > 0 {
        proof {
            let rest = lines_from(unit@, pos as int);
            assert(rest[0] == u[index as int][c[index as int]]);
            assert(rest.drop_first() =~= u[index as int].skip(c[index as int] + 1));
            lemma_advance_read(u, c, f, w, index, opened);
            lemma_unread_step(u, c, index as int, chunk_files@.len() as int);
        }
        positions.set(index, pos + line.len());
        merger.offer(line, index);
        Ghost(c.update(index as int, c[index as int] + 1))
    } else {
        proof {
            assert(u[index as int].skip(c[index as int]).len() == 0);
            lemma_advance_done(u, c, f, w, index, opened);
        }
        Ghost(c)
    }
}

/// Merges spill units, given as the bytes of each, and returns the lines
/// written, in the order in which they are written.
///
/// Every line that some unit holds is written, and nothing else. Where every
/// unit holds its lines in sorted order, the lines come out in strictly
/// increasing order, so each distinct line once.
pub fn merge_lines(chunk_files: &Vec<Vec<u8>>) -> (written: Vec<Vec<u8>>)
    ensures
        merges(views_of(written@), unit_lines(views_of(chunk_files@))),
{
    broadcast use vstd::multiset::group_multiset_axioms;

    let n: usize = chunk_files.len();
    let ghost u = unit_lines(views_of(chunk_files@));
    let mut positions: Vec<usize> = Vec::new();
    let mut i: usize = 0;
    while i < n
        invariant
            i <= n,
            positions@.len() == i,
            forall|j: int| 0 <= j < i ==> positions@[j] == 0,
        decreases n - i,
    {
        positions.push(0);
        i += 1;
    }
    let ghost mut c: Seq<int> = Seq::new(n as nat, |i: int| 0int);
    let mut merger = Merger::new();
    let mut written: Vec<Vec<u8>> = Vec::new();
    proof {
        lemma_inv_init(u);
        assert forall|j: int| 0 <= j < n implies lines_from(chunk_files@[j]@, 0) == lines_of(
            chunk_files@[j]@,
        ).skip(0) by {
            let b = chunk_files@[j]@;
            assert(b.skip(0) =~= b);
            assert(lines_of(b).skip(0) =~= lines_of(b));
        }
        assert(views_of(written@) =~= Seq::<Seq<u8>>::empty());
    }
    i = 0;
    while i < n
        invariant
            i <= n,
            n == chunk_files.len(),
            u == unit_lines(views_of(chunk_files@)),
            merger.wf(),
            merger.last_written() is None,
            written@.len() == 0,
            readers_inv(chunk_files@, positions@, c),
            merge_inv(u, c, merger.frontier(), Seq::empty(), i as int, -1),
        decreases n - i,
    {
        proof {
            lemma_open_next(u, c, merger.frontier(), Seq::empty(), i as int);
        }
        let c2 = advance_unit(
            chunk_files,
            &mut positions,
            &mut merger,
            i,
            Ghost(c),
            Ghost(Seq::empty()),
            Ghost(i + 1),
        );
        proof {
            c = c2@;
        }
        i += 1;
    }
    while merger.pending() > 0
        invariant
            n == chunk_files.len(),
            u == unit_lines(views_of(chunk_files@)),
            merger.wf(),
            readers_inv(chunk_files@, positions@, c),
            merge_inv(u, c, merger.frontier(), views_of(written@), n as int, -1),
            merger.last_written() == (if written@.len() == 0 {
                None
            } else {
                Some(written@.last()@)
            }),
        decreases merger.frontier().len() + 2 * unread(u, c, n as int),
    {
        let ghost f = merger.frontier();
        let ghost w = views_of(written@);
        let step = merger.next_step().unwrap();
        let index: usize = step.index;
        proof {
            lemma_remove_len(f, (step.line@, index));
            lemma_write(u, c, f, w, step.line@, index);
            if w.len() > 0 {
                assert(w.last() == written@.last()@);
            }
        }
        if step.fresh {
            proof {
                assert(views_of(written@.push(step.line)) =~= w.push(step.line@));
            }
            written.push(step.line);
        }
        let c2 = advance_unit(
            chunk_files,
            &mut positions,
            &mut merger,
            index,
            Ghost(c),
            Ghost(views_of(written@)),
            Ghost(n as int),
        );
        proof {
            c = c2@;
            lemma_unread_nonneg(u, c, n as int);
        }
    }
    proof {
        lemma_merged(u, c, merger.frontier(), views_of(written@));
    }
    written
}

/// Merges spill units into the output stream: the lines that `merge_lines`
/// writes, one after another.
pub fn merge_chunks(chunk_files: &Vec<Vec<u8>>) -> (out: Vec<u8>)
    ensures
        exists|w: Seq<Seq<u8>>| out@ == w.flatten() && merges(w, unit_lines(views_of(chunk_files@))),
        all_sorted(unit_lines(views_of(chunk_files@))) ==> out@ == sorted_distinct(
            unit_lines(views_of(chunk_files@)).flatten(),
        ).flatten(),
{
    let written = merge_lines(chunk_files);
    let out = concat_lines(&written);
    proof {
        let w = views_of(written@);
        let u = unit_lines(views_of(chunk_files@));
        assert(out@ == w.flatten() && merges(w, u));
        if all_sorted(u) {
            lemma_strictly_sorted_unique(w, u.flatten());
        }
    }
    out
}

} // verus!
