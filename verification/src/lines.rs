//! Framing of a byte stream into lines.
//!
//! A line runs up to and including the next delimiter byte. The last line of
//! a stream may lack the delimiter.

use vstd::prelude::*;

verus! {

/// The byte that ends a line.
pub const DELIMITER: u8 = 10;

/// Length of the first line of `s`: up to and including the first delimiter,
/// or all of `s` where it holds none.
pub open spec fn first_line_len(s: Seq<u8>) -> nat
    decreases s.len(),
{
    if s.len() == 0 {
        0
    } else if s[0] == DELIMITER {
        1
    } else {
        1 + first_line_len(s.drop_first())
    }
}

/// The first line is a nonempty prefix that holds no delimiter before its last
/// byte, and ends in one unless it reaches the end of the stream.
pub proof fn lemma_first_line_len(s: Seq<u8>)
    ensures
        first_line_len(s) <= s.len(),
        s.len() > 0 ==> first_line_len(s) >= 1,
        forall|i: int| 0 <= i < first_line_len(s) - 1 ==> s[i] != DELIMITER,
        first_line_len(s) < s.len() ==> s[first_line_len(s) - 1] == DELIMITER,
    decreases s.len(),
{
    if s.len() > 0 && s[0] != DELIMITER {
        let t = s.drop_first();
        lemma_first_line_len(t);
        assert forall|i: int| 0 <= i < first_line_len(s) - 1 implies s[i] != DELIMITER by {
            if i > 0 {
                assert(s[i] == t[i - 1]);
            }
        }
        if first_line_len(s) < s.len() {
            assert(s[first_line_len(s) - 1] == t[first_line_len(t) - 1]);
        }
    }
}

/// A stream whose first `k` bytes hold no delimiter has a first line that is
/// `k` bytes longer than that of the rest.
pub proof fn lemma_first_line_len_scan(s: Seq<u8>, k: int)
    requires
        0 <= k <= s.len(),
        forall|i: int| 0 <= i < k ==> s[i] != DELIMITER,
    ensures
        first_line_len(s) == k + first_line_len(s.skip(k)),
    decreases k,
{
    if k == 0 {
        assert(s.skip(0) =~= s);
    } else {
        let t = s.drop_first();
        assert forall|i: int| 0 <= i < k - 1 implies t[i] != DELIMITER by {
            assert(t[i] == s[i + 1]);
        }
        lemma_first_line_len_scan(t, k - 1);
        assert(t.skip(k - 1) =~= s.skip(k));
        assert(s[0] != DELIMITER);
    }
}

/// The lines of a stream, in order.
pub open spec fn lines_of(s: Seq<u8>) -> Seq<Seq<u8>>
    decreases s.len(),
    via lines_of_decreases
{
    if s.len() == 0 {
        Seq::empty()
    } else {
        let n = first_line_len(s) as int;
        seq![s.take(n)] + lines_of(s.skip(n))
    }
}

#[via_fn]
proof fn lines_of_decreases(s: Seq<u8>) {
    if s.len() > 0 {
        lemma_first_line_len(s);
    }
}

/// The line that a reader at offset `pos` of `s` yields next; empty at the end.
pub open spec fn next_line(s: Seq<u8>, pos: int) -> Seq<u8> {
    if 0 <= pos < s.len() {
        s.skip(pos).take(first_line_len(s.skip(pos)) as int)
    } else {
        Seq::empty()
    }
}

/// The lines that a reader at offset `pos` of `s` has yet to yield.
pub open spec fn lines_from(s: Seq<u8>, pos: int) -> Seq<Seq<u8>> {
    if 0 <= pos < s.len() {
        lines_of(s.skip(pos))
    } else {
        Seq::empty()
    }
}

/// Reading one line yields the first of the remaining lines and leaves the rest.
pub proof fn lemma_lines_from_step(s: Seq<u8>, pos: int)
    requires
        0 <= pos < s.len(),
    ensures
        next_line(s, pos).len() >= 1,
        pos + next_line(s, pos).len() <= s.len(),
        lines_from(s, pos).len() >= 1,
        lines_from(s, pos)[0] == next_line(s, pos),
        lines_from(s, pos + next_line(s, pos).len()) == lines_from(s, pos).drop_first(),
{
    let r = s.skip(pos);
    let n = first_line_len(r) as int;
    lemma_first_line_len(r);
    assert(r.skip(n) =~= s.skip(pos + n));
    let rest = lines_of(r.skip(n));
    assert((seq![r.take(n)] + rest).drop_first() =~= rest);
    if pos + n == s.len() {
        assert(rest =~= Seq::<Seq<u8>>::empty());
    }
}

/// A stored line: nonempty, with no delimiter before its last byte.
pub open spec fn is_line(l: Seq<u8>) -> bool {
    l.len() > 0 && forall|i: int| 0 <= i < l.len() - 1 ==> l[i] != DELIMITER
}

/// The line ends in the delimiter.
pub open spec fn is_terminated(l: Seq<u8>) -> bool {
    l.len() > 0 && l.last() == DELIMITER
}

/// Every element is a line, and all but the last end in the delimiter: the
/// shape of what a stream is cut into.
pub open spec fn well_framed(lines: Seq<Seq<u8>>) -> bool {
    forall|i: int|
        0 <= i < lines.len() ==> is_line(#[trigger] lines[i]) && (i < lines.len() - 1
            ==> is_terminated(lines[i]))
}

/// Cutting a stream yields well-framed lines.
pub proof fn lemma_lines_of_well_framed(s: Seq<u8>)
    ensures
        well_framed(lines_of(s)),
    decreases s.len(),
{
    if s.len() > 0 {
        let n = first_line_len(s) as int;
        lemma_first_line_len(s);
        lemma_lines_of_well_framed(s.skip(n));
        let rest = lines_of(s.skip(n));
        let all = lines_of(s);
        assert forall|i: int| 0 <= i < all.len() implies is_line(#[trigger] all[i]) && (i
            < all.len() - 1 ==> is_terminated(all[i])) by {
            if i == 0 {
                assert(all[0] == s.take(n));
                if n == s.len() {
                    assert(rest.len() == 0);
                }
            } else {
                assert(all[i] == rest[i - 1]);
            }
        }
    }
}

/// Writing the lines of a stream one after another gives the stream back.
pub proof fn lemma_flatten_lines_of(s: Seq<u8>)
    ensures
        lines_of(s).flatten() == s,
    decreases s.len(),
{
    if s.len() == 0 {
        assert(lines_of(s).flatten() =~= s);
    } else {
        let n = first_line_len(s) as int;
        lemma_first_line_len(s);
        lemma_flatten_lines_of(s.skip(n));
        vstd::seq_lib::lemma_flatten_concat(seq![s.take(n)], lines_of(s.skip(n)));
        seq![s.take(n)].lemma_flatten_one_element();
        assert(s.take(n) + s.skip(n) =~= s);
    }
}

/// A line followed by more bytes is the first line of the whole, provided it
/// ends in the delimiter or nothing follows.
pub proof fn lemma_first_line_of_concat(l: Seq<u8>, rest: Seq<u8>)
    requires
        is_line(l),
        is_terminated(l) || rest.len() == 0,
    ensures
        first_line_len(l + rest) == l.len(),
{
    let s = l + rest;
    let k = l.len() - 1;
    assert forall|i: int| 0 <= i < k implies s[i] != DELIMITER by {
        assert(s[i] == l[i]);
    }
    lemma_first_line_len_scan(s, k);
    let t = s.skip(k);
    assert(t[0] == l[k]);
    if is_terminated(l) {
        assert(l.last() == l[k]);
        assert(first_line_len(t) == 1);
    } else {
        assert(t.len() == 1);
        assert(first_line_len(t.drop_first()) == 0);
        assert(first_line_len(t) == 1);
    }
}

/// Well-framed lines, written one after another and cut again, come back
/// unchanged.
pub proof fn lemma_lines_of_flatten(lines: Seq<Seq<u8>>)
    requires
        well_framed(lines),
    ensures
        lines_of(lines.flatten()) == lines,
    decreases lines.len(),
{
    if lines.len() == 0 {
        assert(lines_of(lines.flatten()) =~= lines);
    } else {
        let l = lines[0];
        let rest = lines.drop_first();
        assert(is_line(l));
        assert forall|i: int| 0 <= i < rest.len() implies is_line(#[trigger] rest[i]) && (i
            < rest.len() - 1 ==> is_terminated(rest[i])) by {
            assert(rest[i] == lines[i + 1]);
        }
        lemma_lines_of_flatten(rest);
        let s = lines.flatten();
        assert(s == l + rest.flatten());
        if rest.len() == 0 {
            assert(rest.flatten().len() == 0);
        }
        lemma_first_line_of_concat(l, rest.flatten());
        let n = l.len() as int;
        assert(s.take(n) =~= l);
        assert(s.skip(n) =~= rest.flatten());
        assert(seq![l] + rest =~= lines);
    }
}

/// The byte sequences held by a vector of byte vectors, such as lines or
/// spill units.
pub open spec fn views_of(v: Seq<Vec<u8>>) -> Seq<Seq<u8>> {
    Seq::new(v.len(), |i: int| v[i]@)
}

/// Reads the line that starts at offset `pos` of `input`. The result is empty
/// exactly when `pos` is at or past the end.
pub fn read_line(input: &Vec<u8>, pos: usize) -> (line: Vec<u8>)
    ensures
        line@ == next_line(input@, pos as int),
{
    let mut line: Vec<u8> = Vec::new();
    if pos >= input.len() {
        return line;
    }
    let mut i: usize = pos;
    while i < input.len() && input[i] != DELIMITER
        invariant
            pos <= i <= input.len(),
            line@ == input@.subrange(pos as int, i as int),
            forall|j: int| pos <= j < i ==> input@[j] != DELIMITER,
        decreases input.len() - i,
    {
        line.push(input[i]);
        i += 1;
        assert(line@ =~= input@.subrange(pos as int, i as int));
    }
    proof {
        let r = input@.skip(pos as int);
        let k = i - pos;
        assert forall|j: int| 0 <= j < k implies r[j] != DELIMITER by {
            assert(r[j] == input@[pos + j]);
        }
        lemma_first_line_len_scan(r, k);
        assert(r.skip(k) =~= input@.skip(i as int));
        if i < input.len() {
            assert(input@.skip(i as int)[0] == input@[i as int]);
        }
    }
    if i < input.len() {
        line.push(input[i]);
        assert(line@ =~= input@.skip(pos as int).take(i - pos + 1));
    } else {
        assert(line@ =~= input@.skip(pos as int).take(i - pos));
    }
    line
}

/// Cuts a stream into its lines.
pub fn split_lines(input: &Vec<u8>) -> (lines: Vec<Vec<u8>>)
    ensures
        views_of(lines@) == lines_of(input@),
{
    let mut lines: Vec<Vec<u8>> = Vec::new();
    let mut pos: usize = 0;
    proof {
        if input@.len() > 0 {
            assert(input@.skip(0) =~= input@);
        }
        assert(views_of(lines@) + lines_from(input@, 0) =~= lines_of(input@));
    }
    while pos < input.len()
        invariant
            pos <= input.len(),
            views_of(lines@) + lines_from(input@, pos as int) == lines_of(input@),
        decreases input.len() - pos,
    {
        let line = read_line(input, pos);
        proof {
            lemma_lines_from_step(input@, pos as int);
            let rest = lines_from(input@, pos as int);
            assert(views_of(lines@.push(line)) =~= views_of(lines@).push(line@));
            assert(views_of(lines@).push(rest[0]) + rest.drop_first() =~= views_of(lines@)
                + rest);
        }
        pos += line.len();
        lines.push(line);
    }
    assert(views_of(lines@) + lines_from(input@, pos as int) =~= views_of(lines@));
    lines
}

/// Writes lines one after another into a single stream.
pub fn concat_lines(lines: &Vec<Vec<u8>>) -> (out: Vec<u8>)
    ensures
        out@ == views_of(lines@).flatten(),
{
    let mut out: Vec<u8> = Vec::new();
    let mut i: usize = 0;
    assert(views_of(lines@).take(0) =~= Seq::<Seq<u8>>::empty());
    while i < lines.len()
        invariant
            i <= lines.len(),
            out@ == views_of(lines@).take(i as int).flatten(),
        decreases lines.len() - i,
    {
        let line = &lines[i];
        let mut j: usize = 0;
        let ghost before = out@;
        while j < line.len()
            invariant
                j <= line.len(),
                out@ == before + line@.take(j as int),
            decreases line.len() - j,
        {
            out.push(line[j]);
            j += 1;
            assert(out@ =~= before + line@.take(j as int));
        }
        proof {
            let lv = views_of(lines@);
            assert(line@.take(j as int) =~= line@);
            assert(lv.take(i + 1) =~= lv.take(i as int).push(line@));
            lv.take(i as int).lemma_flatten_push(line@);
        }
        i += 1;
    }
    assert(views_of(lines@).take(i as int) =~= views_of(lines@));
    out
}

} // verus!
