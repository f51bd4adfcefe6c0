use extsort_dedup::chunk::split_into_chunks;
use extsort_dedup::lines::split_lines;
use extsort_dedup::merge::{merge_chunks, merge_lines};
use extsort_dedup::pipeline::sort_dedup;
use std::collections::BTreeSet;

fn stream(lines: &[&str]) -> Vec<u8> {
    let mut out = Vec::new();
    for l in lines {
        out.extend_from_slice(l.as_bytes());
        out.push(b'\n');
    }
    out
}

fn expected(input: &[u8]) -> Vec<u8> {
    let set: BTreeSet<Vec<u8>> = split_lines(&input.to_vec()).into_iter().collect();
    set.into_iter().flatten().collect()
}

#[test]
fn two_chunks_with_shared_lines() {
    let input = stream(&["banana", "apple", "banana", "cherry", "apple"]);
    let units = split_into_chunks(&input, 3);
    assert_eq!(units.len(), 2);
    assert_eq!(units[0], stream(&["apple", "banana", "banana"]));
    assert_eq!(units[1], stream(&["apple", "cherry"]));
    assert_eq!(merge_chunks(&units), stream(&["apple", "banana", "cherry"]));
    assert_eq!(sort_dedup(&input, 3), stream(&["apple", "banana", "cherry"]));
}

#[test]
fn duplicate_across_chunks_is_dropped() {
    let input = stream(&["b", "a", "a", "c"]);
    let units = split_into_chunks(&input, 2);
    assert_eq!(units, vec![stream(&["a", "b"]), stream(&["a", "c"])]);
    assert_eq!(merge_chunks(&units), stream(&["a", "b", "c"]));
    assert_eq!(sort_dedup(&input, 2), stream(&["a", "b", "c"]));
}

#[test]
fn empty_input_gives_no_units_and_no_output() {
    let input: Vec<u8> = Vec::new();
    let units = split_into_chunks(&input, 4);
    assert_eq!(units.len(), 0);
    assert_eq!(merge_chunks(&units), Vec::<u8>::new());
    assert_eq!(merge_lines(&units).len(), 0);
    assert_eq!(sort_dedup(&input, 1), Vec::<u8>::new());
}

#[test]
fn input_that_fits_one_chunk_gives_one_unit() {
    let input = stream(&["pear", "fig", "pear", "apple", "fig"]);
    for cap in [5usize, 6, 1_000_000] {
        let units = split_into_chunks(&input, cap);
        assert_eq!(units.len(), 1);
        assert_eq!(units[0], stream(&["apple", "fig", "fig", "pear", "pear"]));
        assert_eq!(merge_chunks(&units), stream(&["apple", "fig", "pear"]));
    }
}

#[test]
fn one_line_fewer_than_capacity_multiple() {
    let input = stream(&["e", "d", "c", "b", "a"]);
    let units = split_into_chunks(&input, 2);
    assert_eq!(units, vec![stream(&["d", "e"]), stream(&["b", "c"]), stream(&["a"])]);
    let units = split_into_chunks(&input, 1);
    assert_eq!(units.len(), 5);
    assert_eq!(sort_dedup(&input, 1), stream(&["a", "b", "c", "d", "e"]));
}

#[test]
fn output_is_strictly_increasing() {
    let input = stream(&["m", "z", "a", "m", "", "z", "b", "", "a"]);
    for cap in 1..=10usize {
        let lines = split_lines(&sort_dedup(&input, cap));
        for pair in lines.windows(2) {
            assert!(pair[0] < pair[1]);
        }
    }
}

#[test]
fn output_holds_the_lines_of_the_input() {
    let input = stream(&["m", "z", "a", "m", "", "z", "b", "", "a"]);
    let want: BTreeSet<Vec<u8>> = split_lines(&input).into_iter().collect();
    for cap in 1..=10usize {
        let got: BTreeSet<Vec<u8>> = split_lines(&sort_dedup(&input, cap)).into_iter().collect();
        assert_eq!(got, want);
    }
}

#[test]
fn output_count_is_number_of_distinct_lines() {
    let input = stream(&["m", "z", "a", "m", "", "z", "b", "", "a"]);
    for cap in 1..=10usize {
        assert_eq!(split_lines(&sort_dedup(&input, cap)).len(), 5);
        assert_eq!(merge_lines(&split_into_chunks(&input, cap)).len(), 5);
    }
}

#[test]
fn second_run_changes_nothing() {
    let input = stream(&["delta", "alpha", "delta", "charlie", "bravo", "alpha"]);
    for cap in 1..=7usize {
        let once = sort_dedup(&input, cap);
        assert_eq!(once, stream(&["alpha", "bravo", "charlie", "delta"]));
        for cap2 in 1..=5usize {
            assert_eq!(sort_dedup(&once, cap2), once);
        }
    }
}

#[test]
fn order_is_by_raw_bytes() {
    let input: Vec<u8> = vec![0xff, b'\n', b'a', b'\n', 0x00, b'\n', b'A', b'\n', b'a', b'b', b'\n'];
    let want: Vec<u8> = vec![0x00, b'\n', b'A', b'\n', b'a', b'\n', b'a', b'b', b'\n', 0xff, b'\n'];
    assert_eq!(sort_dedup(&input, 2), want);
}

#[test]
fn last_line_without_delimiter_that_sorts_last_is_kept() {
    let input = b"b\na\nc".to_vec();
    for cap in 1..=4usize {
        assert_eq!(sort_dedup(&input, cap), b"a\nb\nc".to_vec());
    }
    assert_eq!(sort_dedup(&b"a\nb\nc".to_vec(), 2), b"a\nb\nc".to_vec());
}

#[test]
fn last_line_without_delimiter_runs_into_the_next_line_written() {
    // The lines are stored as they were read, so "a" is written just before "b\n".
    assert_eq!(split_into_chunks(&b"b\na".to_vec(), 2), vec![b"ab\n".to_vec()]);
    assert_eq!(sort_dedup(&b"b\na".to_vec(), 2), b"ab\n".to_vec());
    // With one line to a chunk the units are intact, and the lines meet in the output.
    assert_eq!(split_into_chunks(&b"b\na".to_vec(), 1), vec![b"b\n".to_vec(), b"a".to_vec()]);
    assert_eq!(sort_dedup(&b"b\na".to_vec(), 1), b"ab\n".to_vec());
}

#[test]
fn a_line_run_into_another_can_leave_a_unit_unsorted() {
    let input = b"ba\nbb\nb".to_vec();
    let units = split_into_chunks(&input, 3);
    assert_eq!(units, vec![b"bba\nbb\n".to_vec()]);
    let once = sort_dedup(&input, 3);
    assert_eq!(once, b"bba\nbb\n".to_vec());
    assert_eq!(sort_dedup(&once, 3), b"bb\nbba\n".to_vec());
}

#[test]
fn merge_of_unsorted_unit_still_writes_every_line() {
    let units = vec![b"b\na\nb\n".to_vec(), b"c\n".to_vec()];
    let lines: BTreeSet<Vec<u8>> = merge_lines(&units).into_iter().collect();
    let want: BTreeSet<Vec<u8>> =
        [b"a\n".to_vec(), b"b\n".to_vec(), b"c\n".to_vec()].into_iter().collect();
    assert_eq!(lines, want);
}

#[test]
fn merge_skips_empty_units() {
    let units = vec![Vec::new(), stream(&["b", "d"]), Vec::new(), stream(&["a", "b", "c"])];
    assert_eq!(merge_chunks(&units), stream(&["a", "b", "c", "d"]));
    assert_eq!(
        merge_lines(&units),
        vec![b"a\n".to_vec(), b"b\n".to_vec(), b"c\n".to_vec(), b"d\n".to_vec()]
    );
}

#[test]
fn merge_of_many_units_with_shared_lines() {
    let mut units = Vec::new();
    for k in 0..40u8 {
        let mut lines: Vec<Vec<u8>> = (0..25u8).map(|j| vec![b'a' + (j * (k % 7 + 1)) % 26, b'\n']).collect();
        lines.sort();
        units.push(lines.concat());
    }
    let all: Vec<u8> = units.concat();
    assert_eq!(merge_chunks(&units), expected(&all));
}

#[test]
fn agrees_with_sort_and_dedup_on_generated_inputs() {
    let mut state: u64 = 0x2545_f491_4f6c_dd1d;
    for round in 0..60usize {
        let mut input = Vec::new();
        let n = round * 3;
        for _ in 0..n {
            state ^= state << 13;
            state ^= state >> 7;
            state ^= state << 17;
            let len = (state % 4) as usize;
            for k in 0..len {
                let b = ((state >> (8 * k + 8)) % 3) as u8 + b'x';
                input.push(b);
            }
            input.push(b'\n');
        }
        for cap in [1usize, 2, 3, 7, 64] {
            assert_eq!(sort_dedup(&input, cap), expected(&input));
        }
    }
}
