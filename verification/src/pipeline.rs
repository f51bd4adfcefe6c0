//! Both phases together, and what holds of the whole run.
//!
//! A line that lacks the delimiter is written as it is, so it runs into
//! whatever is written after it. A run keeps every line apart only where such
//! a line is written last: where no line comes after it in sorted order.

use crate::chunk::{chunks_of, lemma_chunks_of_last, spill_of, spill_units, split_into_chunks};
use crate::lines::{
    first_line_len, is_line, is_terminated, lemma_first_line_len, lemma_flatten_lines_of,
    lemma_lines_of_flatten, lemma_lines_of_well_framed, lines_of, well_framed, DELIMITER,
};
use crate::merge::{all_sorted, lemma_flatten_contains, merge_chunks, merges, unit_lines};
use crate::order::{lemma_lex_le_antisymmetric, lemma_lex_lt_asymmetric, lex_le, lex_lt};
use crate::sorted::{
    adjacent_increasing, is_sorted, is_strictly_sorted, lemma_adjacent_increasing,
    lemma_same_multiset_same_set, lemma_sorted_distinct, lemma_sorted_lines,
    lemma_strictly_sorted_unique, sorted_distinct, sorted_lines,
};
use vstd::prelude::*;
use vstd::seq_lib::*;

verus! {

/// What a run yields from `input` where it keeps every line apart: the
/// distinct lines of the input in increasing order, one after another.
pub open spec fn deduped(input: Seq<u8>) -> Seq<u8> {
    sorted_distinct(lines_of(input)).flatten()
}

/// No line comes after a line that lacks the delimiter.
pub open spec fn tail_is_greatest(lines: Seq<Seq<u8>>) -> bool {
    forall|i: int|
        0 <= i < lines.len() && !is_terminated(#[trigger] lines[i]) ==> forall|j: int|
            0 <= j < lines.len() ==> lex_le(#[trigger] lines[j], lines[i])
}

/// Within each chunk, no line comes after a line that lacks the delimiter: the
/// condition under which every spill unit reads back as the lines that were
/// written to it.
pub open spec fn spill_safe(lines: Seq<Seq<u8>>, cap: int) -> bool {
    forall|i: int|
        0 <= i < chunks_of(lines, cap).len() ==> tail_is_greatest(
            #[trigger] chunks_of(lines, cap)[i],
        )
}

/// The chunks, one after another, are the lines they were cut from.
pub proof fn lemma_chunks_flatten(lines: Seq<Seq<u8>>, cap: int)
    requires
        cap >= 1,
    ensures
        chunks_of(lines, cap).flatten() == lines,
    decreases lines.len(),
{
    if lines.len() == 0 {
        assert(chunks_of(lines, cap).flatten() =~= lines);
    } else if lines.len() <= cap {
        seq![lines].lemma_flatten_one_element();
    } else {
        lemma_chunks_flatten(lines.skip(cap), cap);
        lemma_flatten_concat(seq![lines.take(cap)], chunks_of(lines.skip(cap), cap));
        seq![lines.take(cap)].lemma_flatten_one_element();
        assert(lines.take(cap) + lines.skip(cap) =~= lines);
    }
}

/// A line is among the lines exactly if some chunk holds it.
pub proof fn lemma_chunks_hold_the_lines(lines: Seq<Seq<u8>>, cap: int, x: Seq<u8>)
    requires
        cap >= 1,
    ensures
        lines.contains(x) <==> exists|i: int, k: int|
            0 <= i < chunks_of(lines, cap).len() && 0 <= k < chunks_of(lines, cap)[i].len() && (
            #[trigger] chunks_of(lines, cap)[i][k]) == x,
{
    lemma_chunks_flatten(lines, cap);
    lemma_flatten_contains(chunks_of(lines, cap), x);
}

/// The chunks of well-framed lines are well framed.
pub proof fn lemma_chunks_well_framed(lines: Seq<Seq<u8>>, cap: int)
    requires
        cap >= 1,
        well_framed(lines),
    ensures
        forall|i: int|
            0 <= i < chunks_of(lines, cap).len() ==> well_framed(
                #[trigger] chunks_of(lines, cap)[i],
            ),
    decreases lines.len(),
{
    if lines.len() > cap {
        let head = lines.take(cap);
        let tail = lines.skip(cap);
        assert forall|k: int| 0 <= k < tail.len() implies is_line(
            #[trigger] tail[k],
        ) && (k < tail.len() - 1 ==> is_terminated(tail[k])) by {
            assert(tail[k] == lines[k + cap]);
        }
        lemma_chunks_well_framed(tail, cap);
        let chunks = chunks_of(lines, cap);
        assert forall|i: int| 0 <= i < chunks.len() implies well_framed(#[trigger] chunks[i]) by {
            if i == 0 {
                assert(chunks[0] == head);
                assert forall|k: int| 0 <= k < head.len() implies is_line(
                    #[trigger] head[k],
                ) && (k < head.len() - 1 ==> is_terminated(head[k])) by {
                    assert(head[k] == lines[k]);
                }
            } else {
                assert(chunks[i] == chunks_of(tail, cap)[i - 1]);
            }
        }
    }
}

/// Where no line of the input comes after a line that lacks the delimiter,
/// the same holds within each chunk.
pub proof fn lemma_tail_is_greatest_in_chunks(lines: Seq<Seq<u8>>, cap: int)
    requires
        cap >= 1,
        tail_is_greatest(lines),
    ensures
        spill_safe(lines, cap),
{
    let chunks = chunks_of(lines, cap);
    assert forall|i: int| 0 <= i < chunks.len() implies tail_is_greatest(#[trigger] chunks[i]) by {
        let ch = chunks[i];
        assert forall|a: int| 0 <= a < ch.len() && !is_terminated(#[trigger] ch[a]) implies forall|
            b: int,
        |
            0 <= b < ch.len() ==> lex_le(#[trigger] ch[b], ch[a]) by {
            assert forall|b: int| 0 <= b < ch.len() implies lex_le(#[trigger] ch[b], ch[a]) by {
                lemma_chunks_hold_the_lines(lines, cap, ch[a]);
                lemma_chunks_hold_the_lines(lines, cap, ch[b]);
                assert(chunks[i][a] == ch[a]);
                assert(chunks[i][b] == ch[b]);
                let m = choose|m: int| 0 <= m < lines.len() && lines[m] == ch[a];
                let n = choose|n: int| 0 <= n < lines.len() && lines[n] == ch[b];
                assert(lex_le(lines[n], lines[m]));
            }
        }
    }
}

proof fn lemma_count_twice(s: Seq<Seq<u8>>, i: int, j: int)
    requires
        0 <= i < j < s.len(),
        s[i] == s[j],
    ensures
        s.to_multiset().count(s[i]) >= 2,
{
    broadcast use vstd::multiset::group_multiset_axioms;

    let a = s.subrange(0, j);
    let b = s.subrange(j, s.len() as int);
    assert(s =~= a + b);
    lemma_multiset_commutative(a, b);
    assert(a[i] == s[i]);
    assert(b[0] == s[j]);
    to_multiset_contains(a, s[i]);
    to_multiset_contains(b, s[i]);
}

proof fn lemma_count_last_once(s: Seq<Seq<u8>>)
    requires
        s.len() > 0,
        forall|k: int| 0 <= k < s.len() - 1 ==> s[k] != s.last(),
    ensures
        s.to_multiset().count(s.last()) == 1,
{
    broadcast use vstd::multiset::group_multiset_axioms;

    let d = s.drop_last();
    assert(s =~= d.push(s.last()));
    to_multiset_build(d, s.last());
    to_multiset_contains(d, s.last());
    if d.contains(s.last()) {
        let k = choose|k: int| 0 <= k < d.len() && d[k] == s.last();
        assert(s[k] == d[k]);
    }
}

/// Sorting well-framed lines, none of which comes after a line that lacks the
/// delimiter, leaves them well framed: with duplicates kept, and with each
/// line once.
pub proof fn lemma_sorted_well_framed(lines: Seq<Seq<u8>>)
    requires
        well_framed(lines),
        tail_is_greatest(lines),
    ensures
        well_framed(sorted_lines(lines)),
        well_framed(sorted_distinct(lines)),
{
    let s = sorted_lines(lines);
    let d = sorted_distinct(lines);
    lemma_sorted_lines(lines);
    lemma_sorted_distinct(lines);
    lemma_same_multiset_same_set(s, lines);
    assert forall|i: int| 0 <= i < s.len() implies is_line(#[trigger] s[i]) && (i
        < s.len() - 1 ==> is_terminated(s[i])) by {
        assert(s.to_set().contains(s[i]));
        assert(lines.contains(s[i]));
        let k = choose|k: int| 0 <= k < lines.len() && lines[k] == s[i];
        assert(is_line(lines[k]));
        if i < s.len() - 1 && !is_terminated(s[i]) {
            assert(k == lines.len() - 1);
            assert(s.to_set().contains(s[i + 1]));
            assert(lines.contains(s[i + 1]));
            let m = choose|m: int| 0 <= m < lines.len() && lines[m] == s[i + 1];
            assert(lex_le(lines[m], lines[k]));
            assert(lex_le(s[i], s[i + 1]));
            lemma_lex_le_antisymmetric(s[i], s[i + 1]);
            lemma_count_twice(s, i, i + 1);
            assert forall|a: int| 0 <= a < lines.len() - 1 implies lines[a] != lines.last() by {
                assert(is_terminated(lines[a]));
            }
            lemma_count_last_once(lines);
        }
    }
    assert forall|i: int| 0 <= i < d.len() implies is_line(#[trigger] d[i]) && (i
        < d.len() - 1 ==> is_terminated(d[i])) by {
        assert(d.to_set().contains(d[i]));
        assert(lines.contains(d[i]));
        let k = choose|k: int| 0 <= k < lines.len() && lines[k] == d[i];
        assert(is_line(lines[k]));
        if i < d.len() - 1 && !is_terminated(d[i]) {
            assert(d.to_set().contains(d[i + 1]));
            assert(lines.contains(d[i + 1]));
            let m = choose|m: int| 0 <= m < lines.len() && lines[m] == d[i + 1];
            assert(lex_le(lines[m], lines[k]));
            assert(lex_lt(d[i], d[i + 1]));
            crate::order::lemma_lex_lt_irreflexive(d[i]);
            if d[i + 1] != d[i] {
                lemma_lex_lt_asymmetric(d[i], d[i + 1]);
            }
        }
    }
}

/// Where `spill_safe` holds of well-framed lines, every spill unit reads back
/// as its chunk in sorted order. So every unit is sorted, and together the
/// units hold exactly the lines of the input.
pub proof fn lemma_spill_units_read_back(lines: Seq<Seq<u8>>, cap: int)
    requires
        cap >= 1,
        well_framed(lines),
        spill_safe(lines, cap),
    ensures
        unit_lines(spill_units(lines, cap)).len() == chunks_of(lines, cap).len(),
        forall|i: int|
            0 <= i < chunks_of(lines, cap).len() ==> #[trigger] unit_lines(
                spill_units(lines, cap),
            )[i] == sorted_lines(chunks_of(lines, cap)[i]),
        all_sorted(unit_lines(spill_units(lines, cap))),
        unit_lines(spill_units(lines, cap)).flatten().to_set() == lines.to_set(),
{
    let chunks = chunks_of(lines, cap);
    let u = unit_lines(spill_units(lines, cap));
    lemma_chunks_well_framed(lines, cap);
    assert forall|i: int| 0 <= i < chunks.len() implies #[trigger] u[i] == sorted_lines(
        chunks[i],
    ) && is_sorted(u[i]) && u[i].to_set() == chunks[i].to_set() by {
        assert(tail_is_greatest(chunks[i]));
        assert(well_framed(chunks[i]));
        lemma_sorted_well_framed(chunks[i]);
        lemma_lines_of_flatten(sorted_lines(chunks[i]));
        lemma_sorted_lines(chunks[i]);
        lemma_same_multiset_same_set(sorted_lines(chunks[i]), chunks[i]);
        assert(spill_units(lines, cap)[i] == spill_of(chunks[i]));
    }
    assert forall|x: Seq<u8>| u.flatten().contains(x) <==> lines.contains(x) by {
        lemma_flatten_contains(u, x);
        lemma_chunks_hold_the_lines(lines, cap, x);
        if u.flatten().contains(x) {
            let (i, k) = choose|i: int, k: int|
                0 <= i < u.len() && 0 <= k < u[i].len() && (#[trigger] u[i][k]) == x;
            assert(u[i].to_set().contains(x));
            assert(chunks[i].contains(x));
            let k2 = choose|k2: int| 0 <= k2 < chunks[i].len() && chunks[i][k2] == x;
            assert(chunks_of(lines, cap)[i][k2] == x);
        }
        if lines.contains(x) {
            let (i, k) = choose|i: int, k: int|
                0 <= i < chunks.len() && 0 <= k < chunks[i].len() && (#[trigger] chunks[i][k])
                    == x;
            assert(chunks[i].to_set().contains(x));
            assert(u[i].contains(x));
            let k2 = choose|k2: int| 0 <= k2 < u[i].len() && u[i][k2] == x;
            assert(u[i][k2] == x);
        }
    }
    assert(u.flatten().to_set() =~= lines.to_set());
}

/// Where every spill unit reads back as it was written, the lines that a run
/// writes are the distinct lines of the input in increasing order: strictly
/// increasing, the same set of lines, and as many as the input holds distinct
/// lines.
pub proof fn lemma_lines_written(lines: Seq<Seq<u8>>, cap: int, written: Seq<Seq<u8>>)
    requires
        cap >= 1,
        well_framed(lines),
        spill_safe(lines, cap),
        merges(written, unit_lines(spill_units(lines, cap))),
    ensures
        written == sorted_distinct(lines),
        is_strictly_sorted(written),
        written.to_set() == lines.to_set(),
        written.len() == lines.to_set().len(),
{
    lemma_spill_units_read_back(lines, cap);
    lemma_strictly_sorted_unique(written, lines);
    lemma_sorted_distinct(lines);
}

/// Sorts the lines of `input` and drops every repeated line, by cutting the
/// input into chunks of `chunk_size` lines, spilling each chunk in sorted
/// order and merging the spill units.
///
/// The result is `deduped(input)` where every spill unit reads back as it was
/// written. In any case it is made of exactly the lines that the spill units
/// read back as.
pub fn sort_dedup(input: &Vec<u8>, chunk_size: usize) -> (out: Vec<u8>)
    requires
        chunk_size >= 1,
    ensures
        exists|w: Seq<Seq<u8>>|
            out@ == w.flatten() && merges(
                w,
                unit_lines(spill_units(lines_of(input@), chunk_size as int)),
            ),
        spill_safe(lines_of(input@), chunk_size as int) ==> out@ == deduped(input@),
{
    let chunk_files = split_into_chunks(input, chunk_size);
    let out = merge_chunks(&chunk_files);
    proof {
        let lines = lines_of(input@);
        if spill_safe(lines, chunk_size as int) {
            lemma_lines_of_well_framed(input@);
            lemma_spill_units_read_back(lines, chunk_size as int);
        }
    }
    out
}

/// The last line of a stream ends where the stream ends.
pub proof fn lemma_last_line_end(s: Seq<u8>)
    requires
        s.len() > 0,
    ensures
        lines_of(s).len() > 0,
        lines_of(s).last().len() > 0,
        lines_of(s).last().last() == s.last(),
    decreases s.len(),
{
    let n = first_line_len(s) as int;
    lemma_first_line_len(s);
    let rest = s.skip(n);
    if rest.len() == 0 {
        assert(lines_of(s) =~= seq![s.take(n)]);
        assert(s.take(n) =~= s);
    } else {
        lemma_last_line_end(rest);
        assert(lines_of(s).last() == lines_of(rest).last());
        assert(rest.last() == s.last());
    }
}

/// In an input that is empty or ends in the delimiter every line ends in the
/// delimiter, so no line lacks it.
pub proof fn lemma_terminated_input(input: Seq<u8>)
    requires
        input.len() == 0 || input.last() == DELIMITER,
    ensures
        forall|i: int| 0 <= i < lines_of(input).len() ==> is_terminated(#[trigger] lines_of(input)[i]),
        tail_is_greatest(lines_of(input)),
{
    lemma_lines_of_well_framed(input);
    if input.len() > 0 {
        lemma_last_line_end(input);
    }
}

/// Where no line of the input comes after a line that lacks the delimiter,
/// the output reads back as the distinct lines of the input in increasing
/// order.
pub proof fn lemma_output_lines(input: Seq<u8>)
    requires
        tail_is_greatest(lines_of(input)),
    ensures
        lines_of(deduped(input)) == sorted_distinct(lines_of(input)),
{
    lemma_lines_of_well_framed(input);
    lemma_sorted_well_framed(lines_of(input));
    lemma_lines_of_flatten(sorted_distinct(lines_of(input)));
}

/// Every line of the output comes strictly before the line that follows it,
/// and so before every later line. No line occurs twice.
pub proof fn lemma_output_strictly_increasing(input: Seq<u8>)
    requires
        tail_is_greatest(lines_of(input)),
    ensures
        adjacent_increasing(lines_of(deduped(input))),
        is_strictly_sorted(lines_of(deduped(input))),
        lines_of(deduped(input)).no_duplicates(),
{
    lemma_output_lines(input);
    lemma_sorted_distinct(lines_of(input));
    lemma_adjacent_increasing(lines_of(deduped(input)));
    crate::sorted::lemma_strictly_sorted_is_sorted(lines_of(deduped(input)));
}

/// The output holds exactly the lines that the input holds. None is lost and
/// none is made up.
pub proof fn lemma_output_holds_the_input_lines(input: Seq<u8>)
    requires
        tail_is_greatest(lines_of(input)),
    ensures
        lines_of(deduped(input)).to_set() == lines_of(input).to_set(),
{
    lemma_output_lines(input);
    lemma_sorted_distinct(lines_of(input));
}

/// The output holds as many lines as the input holds distinct lines.
pub proof fn lemma_output_line_count(input: Seq<u8>)
    requires
        tail_is_greatest(lines_of(input)),
    ensures
        lines_of(deduped(input)).len() == lines_of(input).to_set().len(),
{
    lemma_output_lines(input);
    lemma_sorted_distinct(lines_of(input));
}

/// An input whose lines are strictly increasing is its own output.
pub proof fn lemma_sorted_input_is_unchanged(input: Seq<u8>)
    requires
        is_strictly_sorted(lines_of(input)),
    ensures
        tail_is_greatest(lines_of(input)),
        deduped(input) == input,
{
    let lines = lines_of(input);
    lemma_lines_of_well_framed(input);
    lemma_strictly_sorted_unique(lines, lines);
    lemma_flatten_lines_of(input);
    assert forall|i: int| 0 <= i < lines.len() && !is_terminated(#[trigger] lines[i]) implies forall|
        j: int,
    |
        0 <= j < lines.len() ==> lex_le(#[trigger] lines[j], lines[i]) by {
        assert forall|j: int| 0 <= j < lines.len() implies lex_le(#[trigger] lines[j], lines[i]) by {
            if j < i {
                assert(lex_lt(lines[j], lines[i]));
            }
        }
    }
}

/// The output of a run is a fit input for another run, with any chunk size,
/// and the output of that run is the same, byte for byte.
pub proof fn lemma_second_run_changes_nothing(input: Seq<u8>, cap: int)
    requires
        cap >= 1,
        tail_is_greatest(lines_of(input)),
    ensures
        tail_is_greatest(lines_of(deduped(input))),
        spill_safe(lines_of(deduped(input)), cap),
        deduped(deduped(input)) == deduped(input),
{
    lemma_output_strictly_increasing(input);
    lemma_sorted_input_is_unchanged(deduped(input));
    lemma_tail_is_greatest_in_chunks(lines_of(deduped(input)), cap);
}

/// An empty input has no lines, so it gives no spill unit and an empty output.
pub proof fn lemma_empty_input(cap: int)
    ensures
        lines_of(Seq::<u8>::empty()).len() == 0,
        spill_units(lines_of(Seq::<u8>::empty()), cap).len() == 0,
        spill_safe(lines_of(Seq::<u8>::empty()), cap),
        deduped(Seq::<u8>::empty()) == Seq::<u8>::empty(),
{
    let lines = lines_of(Seq::<u8>::empty());
    lemma_sorted_distinct(lines);
    assert(lines.to_set() =~= Set::<Seq<u8>>::empty());
    assert(sorted_distinct(lines) =~= Seq::<Seq<u8>>::empty());
    assert(deduped(Seq::<u8>::empty()) =~= Seq::<u8>::empty());
}

/// Lines that fit into one chunk make exactly one spill unit, that of all the
/// lines.
pub proof fn lemma_single_chunk(lines: Seq<Seq<u8>>, cap: int)
    requires
        0 < lines.len() <= cap,
    ensures
        chunks_of(lines, cap) == seq![lines],
        spill_units(lines, cap) == seq![spill_of(lines)],
{
    lemma_chunks_of_last(lines, cap);
}

/// Merging a single sorted unit passes its lines through, each once.
pub proof fn lemma_single_unit_merge(written: Seq<Seq<u8>>, unit: Seq<Seq<u8>>)
    requires
        is_sorted(unit),
        merges(written, seq![unit]),
    ensures
        written == sorted_distinct(unit),
{
    let units = seq![unit];
    assert(all_sorted(units));
    units.lemma_flatten_one_element();
    lemma_strictly_sorted_unique(written, unit);
}

/// What is written by a merge of sorted units is the distinct lines of the
/// units in increasing order, and so as many lines as the units hold distinct
/// lines.
pub proof fn lemma_merge_of_sorted_units(written: Seq<Seq<u8>>, units: Seq<Seq<Seq<u8>>>)
    requires
        all_sorted(units),
        merges(written, units),
    ensures
        written == sorted_distinct(units.flatten()),
        written.len() == units.flatten().to_set().len(),
{
    lemma_strictly_sorted_unique(written, units.flatten());
    lemma_sorted_distinct(units.flatten());
}

} // verus!
