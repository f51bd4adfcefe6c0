//! The byte-lexicographic order on lines.

use std::cmp::Ordering;
use vstd::prelude::*;

verus! {

/// `a` comes strictly before `b` in byte-lexicographic order: at the first
/// position where they differ `a` holds the smaller byte, or `a` is a proper
/// prefix of `b`.
pub open spec fn lex_lt(a: Seq<u8>, b: Seq<u8>) -> bool
    decreases a.len(),
{
    if b.len() == 0 {
        false
    } else if a.len() == 0 {
        true
    } else if a[0] != b[0] {
        a[0] < b[0]
    } else {
        lex_lt(a.drop_first(), b.drop_first())
    }
}

/// `a` equals `b` or comes before it.
pub open spec fn lex_le(a: Seq<u8>, b: Seq<u8>) -> bool {
    a == b || lex_lt(a, b)
}

/// No line comes before itself.
pub proof fn lemma_lex_lt_irreflexive(a: Seq<u8>)
    ensures
        !lex_lt(a, a),
    decreases a.len(),
{
    if a.len() > 0 {
        lemma_lex_lt_irreflexive(a.drop_first());
    }
}

/// Of two lines at most one comes before the other.
pub proof fn lemma_lex_lt_asymmetric(a: Seq<u8>, b: Seq<u8>)
    requires
        lex_lt(a, b),
    ensures
        !lex_lt(b, a),
    decreases a.len(),
{
    if a.len() > 0 && b.len() > 0 && a[0] == b[0] {
        lemma_lex_lt_asymmetric(a.drop_first(), b.drop_first());
    }
}

/// The strict order is transitive.
pub proof fn lemma_lex_lt_transitive(a: Seq<u8>, b: Seq<u8>, c: Seq<u8>)
    requires
        lex_lt(a, b),
        lex_lt(b, c),
    ensures
        lex_lt(a, c),
    decreases a.len(),
{
    if a.len() > 0 && a[0] == b[0] && b[0] == c[0] {
        lemma_lex_lt_transitive(a.drop_first(), b.drop_first(), c.drop_first());
    }
}

/// Any two lines are equal or strictly ordered one way or the other.
pub proof fn lemma_lex_total(a: Seq<u8>, b: Seq<u8>)
    ensures
        lex_lt(a, b) || a == b || lex_lt(b, a),
    decreases a.len(),
{
    if a.len() == 0 || b.len() == 0 {
        if a.len() == 0 && b.len() == 0 {
            assert(a =~= b);
        }
    } else if a[0] == b[0] {
        lemma_lex_total(a.drop_first(), b.drop_first());
        if a.drop_first() == b.drop_first() {
            assert(a.len() == a.drop_first().len() + 1);
            assert(b.len() == b.drop_first().len() + 1);
            assert forall|i: int| 0 <= i < a.len() implies a[i] == b[i] by {
                if i > 0 {
                    assert(a[i] == a.drop_first()[i - 1]);
                    assert(b[i] == b.drop_first()[i - 1]);
                }
            }
            assert(a =~= b);
        }
    }
}

/// The weak order is transitive.
pub proof fn lemma_lex_le_transitive(a: Seq<u8>, b: Seq<u8>, c: Seq<u8>)
    requires
        lex_le(a, b),
        lex_le(b, c),
    ensures
        lex_le(a, c),
{
    if a != b && b != c {
        lemma_lex_lt_transitive(a, b, c);
    }
}

/// Two lines that each come no later than the other are the same line.
pub proof fn lemma_lex_le_antisymmetric(a: Seq<u8>, b: Seq<u8>)
    requires
        lex_le(a, b),
        lex_le(b, a),
    ensures
        a == b,
{
    if a != b {
        lemma_lex_lt_asymmetric(a, b);
    }
}

/// Lines that agree on their first `k` bytes are ordered as their remainders are.
pub proof fn lemma_lex_lt_skip_common(a: Seq<u8>, b: Seq<u8>, k: int)
    requires
        0 <= k <= a.len(),
        k <= b.len(),
        forall|i: int| 0 <= i < k ==> a[i] == b[i],
    ensures
        lex_lt(a, b) == lex_lt(a.skip(k), b.skip(k)),
    decreases k,
{
    if k == 0 {
        assert(a.skip(0) =~= a);
        assert(b.skip(0) =~= b);
    } else {
        let a1 = a.drop_first();
        let b1 = b.drop_first();
        assert forall|i: int| 0 <= i < k - 1 implies a1[i] == b1[i] by {
            assert(a1[i] == a[i + 1]);
            assert(b1[i] == b[i + 1]);
        }
        lemma_lex_lt_skip_common(a1, b1, k - 1);
        assert(a1.skip(k - 1) =~= a.skip(k));
        assert(b1.skip(k - 1) =~= b.skip(k));
        assert(a[0] == b[0]);
    }
}

/// `k` is the length of the longest common prefix of `a` and `b`.
pub open spec fn is_common_prefix_len(a: Seq<u8>, b: Seq<u8>, k: int) -> bool {
    &&& 0 <= k <= a.len()
    &&& k <= b.len()
    &&& forall|i: int| 0 <= i < k ==> a[i] == b[i]
    &&& k < a.len() && k < b.len() ==> a[k] != b[k]
}

/// The first position at which two lines differ decides their order.
pub proof fn lemma_first_difference_decides(a: Seq<u8>, b: Seq<u8>, k: usize)
    requires
        is_common_prefix_len(a, b, k as int),
    ensures
        k == a.len() && k == b.len() ==> a == b,
        k == a.len() && k < b.len() ==> lex_lt(a, b),
        k < a.len() && k == b.len() ==> lex_lt(b, a),
        k < a.len() && k < b.len() && a[k as int] < b[k as int] ==> lex_lt(a, b),
        k < a.len() && k < b.len() && a[k as int] > b[k as int] ==> lex_lt(b, a),
{
    let ki = k as int;
    lemma_lex_lt_skip_common(a, b, ki);
    lemma_lex_lt_skip_common(b, a, ki);
    if ki == a.len() && ki == b.len() {
        assert(a =~= b);
    }
    if ki < a.len() {
        assert(a.skip(ki)[0] == a[ki]);
    }
    if ki < b.len() {
        assert(b.skip(ki)[0] == b[ki]);
    }
}

/// Length of the longest common prefix of two lines.
pub fn common_prefix_len(a: &Vec<u8>, b: &Vec<u8>) -> (k: usize)
    ensures
        is_common_prefix_len(a@, b@, k as int),
{
    let mut k: usize = 0;
    while k < a.len() && k < b.len() && a[k] == b[k]
        invariant
            k <= a.len(),
            k <= b.len(),
            forall|i: int| 0 <= i < k ==> a@[i] == b@[i],
        decreases a.len() - k,
    {
        k += 1;
    }
    k
}

/// Compares two lines in byte-lexicographic order.
pub fn compare_lines(a: &Vec<u8>, b: &Vec<u8>) -> (r: Ordering)
    ensures
        match r {
            Ordering::Less => lex_lt(a@, b@),
            Ordering::Equal => a@ == b@,
            Ordering::Greater => lex_lt(b@, a@),
        },
{
    let k = common_prefix_len(a, b);
    proof {
        lemma_first_difference_decides(a@, b@, k);
    }
    if k < a.len() && k < b.len() {
        if a[k] < b[k] {
            Ordering::Less
        } else {
            Ordering::Greater
        }
    } else if a.len() < b.len() {
        Ordering::Less
    } else if a.len() == b.len() {
        Ordering::Equal
    } else {
        Ordering::Greater
    }
}

/// Whether two lines hold the same bytes.
pub fn line_eq(a: &Vec<u8>, b: &Vec<u8>) -> (r: bool)
    ensures
        r == (a@ == b@),
{
    proof {
        lemma_lex_lt_irreflexive(a@);
    }
    matches!(compare_lines(a, b), Ordering::Equal)
}

} // verus!
