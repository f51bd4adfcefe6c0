//! The chunk phase: the input's lines are gathered into chunks of a bounded
//! number of lines, and each chunk is sorted and serialized as a spill unit.

use crate::lines::{concat_lines, lemma_lines_from_step, lines_from, lines_of, read_line, views_of};
use crate::order::compare_lines;
use crate::sorted::{is_sorted, lemma_sorted_lines_unique, sorted_lines};
use rayon::slice::ParallelSliceMut;
use vstd::prelude::*;

verus! {

/// The chunks that a sequence of lines is cut into: consecutive groups of
/// `cap` lines, the last of which may hold fewer.
pub open spec fn chunks_of(lines: Seq<Seq<u8>>, cap: int) -> Seq<Seq<Seq<u8>>>
    decreases lines.len(),
{
    if lines.len() == 0 || cap <= 0 {
        Seq::empty()
    } else if lines.len() <= cap {
        seq![lines]
    } else {
        seq![lines.take(cap)] + chunks_of(lines.skip(cap), cap)
    }
}

/// The spill unit of a chunk: its lines in sorted order, one after another.
pub open spec fn spill_of(chunk: Seq<Seq<u8>>) -> Seq<u8> {
    sorted_lines(chunk).flatten()
}

/// The spill units of a sequence of lines, in the order of their creation.
pub open spec fn spill_units(lines: Seq<Seq<u8>>, cap: int) -> Seq<Seq<u8>> {
    let chunks = chunks_of(lines, cap);
    Seq::new(chunks.len(), |i: int| spill_of(chunks[i]))
}

/// Where at least `cap` lines are left, the next chunk holds the first `cap`
/// of them.
pub proof fn lemma_chunks_of_step(lines: Seq<Seq<u8>>, cap: int)
    requires
        1 <= cap <= lines.len(),
    ensures
        chunks_of(lines, cap) == seq![lines.take(cap)] + chunks_of(lines.skip(cap), cap),
        spill_units(lines, cap) == seq![spill_of(lines.take(cap))] + spill_units(
            lines.skip(cap),
            cap,
        ),
{
    if lines.len() == cap {
        assert(lines.take(cap) =~= lines);
        assert(lines.skip(cap).len() == 0);
        assert(chunks_of(lines, cap) =~= seq![lines.take(cap)] + chunks_of(lines.skip(cap), cap));
    }
    assert(spill_units(lines, cap) =~= seq![spill_of(lines.take(cap))] + spill_units(
        lines.skip(cap),
        cap,
    ));
}

/// Fewer than `cap` lines make one chunk, and no lines make none.
pub proof fn lemma_chunks_of_last(lines: Seq<Seq<u8>>, cap: int)
    requires
        lines.len() <= cap,
        cap >= 1,
    ensures
        lines.len() == 0 ==> spill_units(lines, cap) == Seq::<Seq<u8>>::empty(),
        lines.len() > 0 ==> spill_units(lines, cap) == seq![spill_of(lines)],
{
    if lines.len() == 0 {
        assert(spill_units(lines, cap) =~= Seq::<Seq<u8>>::empty());
    } else {
        assert(spill_units(lines, cap) =~= seq![spill_of(lines)]);
    }
}

/// Every chunk holds at least one line and at most `cap`, and every chunk but
/// the last holds `cap` lines.
pub proof fn lemma_chunk_sizes(lines: Seq<Seq<u8>>, cap: int)
    requires
        cap >= 1,
    ensures
        forall|i: int|
            0 <= i < chunks_of(lines, cap).len() ==> 1 <= (#[trigger] chunks_of(lines, cap)[i]).len()
                <= cap,
        forall|i: int|
            0 <= i < chunks_of(lines, cap).len() - 1 ==> (#[trigger] chunks_of(lines, cap)[i]).len()
                == cap,
    decreases lines.len(),
{
    if lines.len() > cap {
        let rest = chunks_of(lines.skip(cap), cap);
        lemma_chunk_sizes(lines.skip(cap), cap);
        let chunks = chunks_of(lines, cap);
        assert forall|i: int| 0 <= i < chunks.len() implies 1 <= (#[trigger] chunks[i]).len()
            <= cap && (i < chunks.len() - 1 ==> chunks[i].len() == cap) by {
            if i > 0 {
                assert(chunks[i] == rest[i - 1]);
            }
        }
    }
}

/// Sorts the lines of `buffer` in place with rayon's
/// `ParallelSliceMut::par_sort_unstable_by`, handing it `compare_lines` as the
/// comparator.
///
/// Trusted: rayon documents that the call sorts the slice in place by a
/// comparator that is a total order, which `compare_lines` is. So afterwards
/// the buffer holds the lines it held before, each as often, and in sorted
/// order. Which of two equal lines comes first is left open; they hold the
/// same bytes.
#[verifier::external_body]
fn par_sort_lines(buffer: &mut Vec<Vec<u8>>)
    ensures
        is_sorted(views_of(final(buffer)@)),
        views_of(final(buffer)@).to_multiset() == views_of(old(buffer)@).to_multiset(),
{
    buffer.par_sort_unstable_by(|a, b| compare_lines(a, b));
}

/// Sorts the buffered lines and serializes them as a spill unit, leaving the
/// buffer empty.
pub fn write_sorted_chunk(buffer: &mut Vec<Vec<u8>>) -> (unit: Vec<u8>)
    ensures
        unit@ == spill_of(views_of(old(buffer)@)),
        final(buffer)@.len() == 0,
{
    par_sort_lines(buffer);
    proof {
        lemma_sorted_lines_unique(views_of(buffer@), views_of(old(buffer)@));
    }
    let unit = concat_lines(buffer);
    buffer.clear();
    unit
}

/// Gathers lines into a chunk and turns each full chunk into a spill unit.
pub struct ChunkProducer {
    buffer: Vec<Vec<u8>>,
    capacity: usize,
}

impl ChunkProducer {
    /// The capacity is at least one line and the buffer holds fewer lines than
    /// that. Every operation requires and keeps this.
    pub closed spec fn wf(&self) -> bool {
        self.capacity >= 1 && self.buffer@.len() < self.capacity
    }

    /// The lines gathered for the chunk that is being filled.
    pub closed spec fn buffered(&self) -> Seq<Seq<u8>> {
        views_of(self.buffer@)
    }

    /// The number of lines that make a full chunk.
    pub closed spec fn capacity(&self) -> usize {
        self.capacity
    }

    /// The buffer never holds a full chunk: the lines in memory are fewer than
    /// the capacity.
    pub proof fn lemma_buffer_is_bounded(&self)
        requires
            self.wf(),
        ensures
            self.capacity() >= 1,
            self.buffered().len() < self.capacity(),
    {
    }

    /// A producer of chunks of `chunk_size` lines, with nothing gathered.
    pub fn new(chunk_size: usize) -> (p: ChunkProducer)
        requires
            chunk_size >= 1,
        ensures
            p.wf(),
            p.capacity() == chunk_size,
            p.buffered() == Seq::<Seq<u8>>::empty(),
    {
        let p = ChunkProducer { buffer: Vec::new(), capacity: chunk_size };
        assert(p.buffered() =~= Seq::<Seq<u8>>::empty());
        p
    }

    /// Takes the next line of the input. Where the line fills the chunk, the
    /// chunk's spill unit is returned and a new chunk begun.
    pub fn accept(&mut self, line: Vec<u8>) -> (unit: Option<Vec<u8>>)
        requires
            old(self).wf(),
        ensures
            final(self).wf(),
            final(self).capacity() == old(self).capacity(),
            match unit {
                None => {
                    &&& old(self).buffered().len() + 1 < old(self).capacity()
                    &&& final(self).buffered() == old(self).buffered().push(line@)
                },
                Some(bytes) => {
                    &&& old(self).buffered().len() + 1 == old(self).capacity()
                    &&& bytes@ == spill_of(old(self).buffered().push(line@))
                    &&& final(self).buffered() == Seq::<Seq<u8>>::empty()
                },
            },
    {
        proof {
            assert(views_of(self.buffer@.push(line)) =~= views_of(self.buffer@).push(line@));
        }
        self.buffer.push(line);
        if self.buffer.len() >= self.capacity {
            let unit = write_sorted_chunk(&mut self.buffer);
            assert(self.buffered() =~= Seq::<Seq<u8>>::empty());
            Some(unit)
        } else {
            None
        }
    }

    /// Ends the input. Where lines are left in the buffer, the spill unit of
    /// that last, partial chunk is returned.
    pub fn finish(&mut self) -> (unit: Option<Vec<u8>>)
        requires
            old(self).wf(),
        ensures
            final(self).wf(),
            final(self).capacity() == old(self).capacity(),
            final(self).buffered() == Seq::<Seq<u8>>::empty(),
            match unit {
                None => old(self).buffered().len() == 0,
                Some(bytes) => old(self).buffered().len() > 0 && bytes@ == spill_of(
                    old(self).buffered(),
                ),
            },
    {
        if self.buffer.len() > 0 {
            let unit = write_sorted_chunk(&mut self.buffer);
            assert(self.buffered() =~= Seq::<Seq<u8>>::empty());
            Some(unit)
        } else {
            assert(self.buffered() =~= Seq::<Seq<u8>>::empty());
            None
        }
    }
}

/// Cuts the input into lines, gathers them into chunks of `chunk_size` lines
/// and returns the spill units of the chunks, in the order of their creation.
pub fn split_into_chunks(input: &Vec<u8>, chunk_size: usize) -> (chunk_files: Vec<Vec<u8>>)
    requires
        chunk_size >= 1,
    ensures
        views_of(chunk_files@) == spill_units(lines_of(input@), chunk_size as int),
{
    let ghost all = lines_of(input@);
    let ghost cap = chunk_size as int;
    let mut producer = ChunkProducer::new(chunk_size);
    let mut chunk_files: Vec<Vec<u8>> = Vec::new();
    let mut pos: usize = 0;
    let ghost mut start: int = 0;
    proof {
        if input@.len() > 0 {
            assert(input@.skip(0) =~= input@);
        }
        assert(lines_from(input@, 0) =~= all.skip(0));
        assert(producer.buffered() =~= all.subrange(0, 0));
        assert(views_of(chunk_files@) + spill_units(all.skip(0), cap) =~= spill_units(all, cap));
    }
    while pos < input.len()
        invariant
            pos <= input.len(),
            cap == chunk_size,
            all == lines_of(input@),
            producer.wf(),
            producer.capacity() == chunk_size,
            0 <= start,
            start + producer.buffered().len() <= all.len(),
            producer.buffered() == all.subrange(start, start + producer.buffered().len()),
            lines_from(input@, pos as int) == all.skip(start + producer.buffered().len()),
            views_of(chunk_files@) + spill_units(all.skip(start), cap) == spill_units(all, cap),
        decreases input.len() - pos,
    {
        let ghost held = producer.buffered();
        let line = read_line(input, pos);
        proof {
            lemma_lines_from_step(input@, pos as int);
            let rest = all.skip(start + held.len());
            assert(rest[0] == all[start + held.len()]);
            assert(rest.drop_first() =~= all.skip(start + held.len() + 1));
            assert(held.push(line@) =~= all.subrange(start, start + held.len() + 1));
        }
        pos += line.len();
        match producer.accept(line) {
            Some(unit) => {
                proof {
                    let left = all.skip(start);
                    lemma_chunks_of_step(left, cap);
                    assert(left.take(cap) =~= all.subrange(start, start + cap));
                    assert(left.skip(cap) =~= all.skip(start + cap));
                    assert(views_of(chunk_files@.push(unit)) =~= views_of(chunk_files@).push(
                        unit@,
                    ));
                    assert(views_of(chunk_files@).push(unit@) + spill_units(
                        all.skip(start + cap),
                        cap,
                    ) =~= views_of(chunk_files@) + spill_units(left, cap));
                    start = start + cap;
                    assert(producer.buffered() =~= all.subrange(start, start));
                }
                chunk_files.push(unit);
            },
            None => {},
        }
    }
    let ghost held = producer.buffered();
    proof {
        assert(all.skip(start + held.len()).len() == 0);
        assert(held =~= all.skip(start));
        lemma_chunks_of_last(held, cap);
    }
    match producer.finish() {
        Some(unit) => {
            proof {
                assert(views_of(chunk_files@.push(unit)) =~= views_of(chunk_files@).push(unit@));
                assert(views_of(chunk_files@).push(unit@) =~= views_of(chunk_files@) + seq![
                    unit@,
                ]);
            }
            chunk_files.push(unit);
        },
        None => {
            assert(views_of(chunk_files@) + Seq::<Seq<u8>>::empty() =~= views_of(chunk_files@));
        },
    }
    chunk_files
}

} // verus!
