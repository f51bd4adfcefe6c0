use extsort_dedup::chunk::{write_sorted_chunk, ChunkProducer};
use extsort_dedup::frontier::{Frontier, HeapItem};
use extsort_dedup::lines::{concat_lines, read_line, split_lines, DELIMITER};
use extsort_dedup::merge::Merger;
use extsort_dedup::naming::{chunk_file_name, fresh_chunk_file_name};
use extsort_dedup::order::{common_prefix_len, compare_lines, line_eq};
use std::cmp::Ordering;

fn v(s: &str) -> Vec<u8> {
    s.as_bytes().to_vec()
}

#[test]
fn compare_lines_orders_by_first_difference() {
    assert_eq!(compare_lines(&v("apple"), &v("apply")), Ordering::Less);
    assert_eq!(compare_lines(&v("b"), &v("apple")), Ordering::Greater);
    assert_eq!(compare_lines(&v("same"), &v("same")), Ordering::Equal);
    assert_eq!(compare_lines(&vec![0x80], &vec![0x7f]), Ordering::Greater);
}

#[test]
fn compare_lines_puts_a_prefix_first() {
    assert_eq!(compare_lines(&v("app"), &v("apple")), Ordering::Less);
    assert_eq!(compare_lines(&v("apple"), &v("app")), Ordering::Greater);
    assert_eq!(compare_lines(&v(""), &v("a")), Ordering::Less);
    assert_eq!(compare_lines(&v(""), &v("")), Ordering::Equal);
    assert_eq!(compare_lines(&v("a\n"), &v("a")), Ordering::Greater);
}

#[test]
fn compare_lines_agrees_with_slice_order() {
    let samples = [v(""), v("\n"), v("a"), v("a\n"), v("ab"), v("b"), vec![0, 255], vec![255]];
    for a in &samples {
        for b in &samples {
            assert_eq!(compare_lines(a, b), a.cmp(b));
            assert_eq!(line_eq(a, b), a == b);
        }
    }
}

#[test]
fn common_prefix_len_counts_agreeing_bytes() {
    assert_eq!(common_prefix_len(&v("abcde"), &v("abxde")), 2);
    assert_eq!(common_prefix_len(&v("abc"), &v("abcde")), 3);
    assert_eq!(common_prefix_len(&v(""), &v("abc")), 0);
    assert_eq!(common_prefix_len(&v("abc"), &v("abc")), 3);
}

#[test]
fn delimiter_is_newline() {
    assert_eq!(DELIMITER, b'\n');
}

#[test]
fn read_line_keeps_the_delimiter() {
    let input = v("one\ntwo\n\nlast");
    assert_eq!(read_line(&input, 0), v("one\n"));
    assert_eq!(read_line(&input, 4), v("two\n"));
    assert_eq!(read_line(&input, 8), v("\n"));
    assert_eq!(read_line(&input, 9), v("last"));
    assert_eq!(read_line(&input, 2), v("e\n"));
}

#[test]
fn read_line_is_empty_at_the_end() {
    let input = v("one\n");
    assert_eq!(read_line(&input, 4), Vec::<u8>::new());
    assert_eq!(read_line(&input, 100), Vec::<u8>::new());
    assert_eq!(read_line(&Vec::new(), 0), Vec::<u8>::new());
}

#[test]
fn split_lines_cuts_after_each_delimiter() {
    assert_eq!(split_lines(&v("a\nbc\n")), vec![v("a\n"), v("bc\n")]);
    assert_eq!(split_lines(&v("a\nbc")), vec![v("a\n"), v("bc")]);
    assert_eq!(split_lines(&v("\n\n")), vec![v("\n"), v("\n")]);
    assert_eq!(split_lines(&v("")), Vec::<Vec<u8>>::new());
    assert_eq!(split_lines(&v("x")), vec![v("x")]);
}

#[test]
fn concat_lines_undoes_split_lines() {
    for text in ["", "a", "a\n", "a\nb", "\n\nq\n", "one\ntwo\nthree"] {
        assert_eq!(concat_lines(&split_lines(&v(text))), v(text));
    }
    assert_eq!(concat_lines(&vec![v("b\n"), v("a"), v("c\n")]), v("b\nac\n"));
}

#[test]
fn write_sorted_chunk_sorts_and_empties_the_buffer() {
    let mut buffer = vec![v("pear\n"), v("apple\n"), v("fig\n"), v("apple\n")];
    let unit = write_sorted_chunk(&mut buffer);
    assert_eq!(unit, v("apple\napple\nfig\npear\n"));
    assert!(buffer.is_empty());
}

#[test]
fn write_sorted_chunk_of_large_buffer() {
    let mut buffer: Vec<Vec<u8>> = Vec::new();
    let mut want: Vec<Vec<u8>> = Vec::new();
    for i in (0..5000u32).rev() {
        let line = format!("{:05}\n", (i * 7919) % 5000).into_bytes();
        buffer.push(line.clone());
        want.push(line);
    }
    want.sort();
    assert_eq!(write_sorted_chunk(&mut buffer), want.concat());
}

#[test]
fn write_sorted_chunk_of_empty_buffer() {
    let mut buffer: Vec<Vec<u8>> = Vec::new();
    assert_eq!(write_sorted_chunk(&mut buffer), Vec::<u8>::new());
}

#[test]
fn producer_spills_when_the_chunk_is_full() {
    let mut p = ChunkProducer::new(2);
    assert_eq!(p.accept(v("b\n")), None);
    assert_eq!(p.accept(v("a\n")), Some(v("a\nb\n")));
    assert_eq!(p.accept(v("c\n")), None);
    assert_eq!(p.finish(), Some(v("c\n")));
    assert_eq!(p.finish(), None);
}

#[test]
fn producer_with_capacity_one_spills_every_line() {
    let mut p = ChunkProducer::new(1);
    assert_eq!(p.accept(v("z\n")), Some(v("z\n")));
    assert_eq!(p.accept(v("a\n")), Some(v("a\n")));
    assert_eq!(p.finish(), None);
}

#[test]
fn heap_item_order_is_reversed_and_ignores_the_index() {
    let a = HeapItem { line: v("a\n"), index: 7 };
    let b = HeapItem { line: v("b\n"), index: 0 };
    let a2 = HeapItem { line: v("a\n"), index: 1 };
    assert_eq!(a.cmp(&b), Ordering::Greater);
    assert_eq!(b.cmp(&a), Ordering::Less);
    assert_eq!(a.cmp(&a2), Ordering::Equal);
    assert!(a.outranks(&b));
    assert!(!b.outranks(&a));
    assert!(!a.outranks(&a2));
}

#[test]
fn frontier_yields_smallest_line_first() {
    let mut f = Frontier::new();
    assert!(f.is_empty());
    let lines = ["m", "c", "x", "a", "q", "c", "b", "z", "a"];
    for (i, l) in lines.iter().enumerate() {
        f.push(HeapItem { line: v(l), index: i });
    }
    assert_eq!(f.len(), 9);
    let mut got = Vec::new();
    while let Some(item) = f.pop() {
        assert_eq!(v(lines[item.index]), item.line);
        got.push(item.line);
    }
    let want: Vec<Vec<u8>> = ["a", "a", "b", "c", "c", "m", "q", "x", "z"].iter().map(|l| v(l)).collect();
    assert_eq!(got, want);
    assert!(f.pop().is_none());
    assert_eq!(f.len(), 0);
}

#[test]
fn frontier_interleaves_pushes_and_pops() {
    let mut f = Frontier::new();
    f.push(HeapItem { line: v("d"), index: 0 });
    f.push(HeapItem { line: v("b"), index: 1 });
    assert_eq!(f.pop().map(|i| i.line), Some(v("b")));
    f.push(HeapItem { line: v("a"), index: 1 });
    f.push(HeapItem { line: v("e"), index: 2 });
    assert_eq!(f.pop().map(|i| (i.line, i.index)), Some((v("a"), 1)));
    assert_eq!(f.pop().map(|i| i.line), Some(v("d")));
    assert_eq!(f.pop().map(|i| i.line), Some(v("e")));
    assert!(f.is_empty());
}

#[test]
fn merger_marks_repeats_as_not_fresh() {
    let mut m = Merger::new();
    assert!(m.next_step().is_none());
    m.offer(v("b\n"), 0);
    m.offer(v("a\n"), 1);
    m.offer(v("a\n"), 2);
    assert_eq!(m.pending(), 3);
    let s1 = m.next_step().unwrap();
    assert_eq!((s1.line.clone(), s1.fresh), (v("a\n"), true));
    let s2 = m.next_step().unwrap();
    assert_eq!((s2.line.clone(), s2.fresh), (v("a\n"), false));
    assert_ne!(s1.index, s2.index);
    assert!(s1.index == 1 || s1.index == 2);
    m.offer(v("a\n"), s2.index);
    let s3 = m.next_step().unwrap();
    assert_eq!((s3.line, s3.index, s3.fresh), (v("a\n"), s2.index, false));
    let s4 = m.next_step().unwrap();
    assert_eq!((s4.line, s4.index, s4.fresh), (v("b\n"), 0, true));
    assert!(m.next_step().is_none());
    assert_eq!(m.pending(), 0);
}

#[test]
fn merger_compares_with_the_line_written_last_only() {
    let mut m = Merger::new();
    m.offer(v("x\n"), 0);
    assert!(m.next_step().unwrap().fresh);
    m.offer(v("y\n"), 0);
    assert!(m.next_step().unwrap().fresh);
    m.offer(v("x\n"), 0);
    assert!(m.next_step().unwrap().fresh);
    m.offer(v("x\n"), 0);
    assert!(!m.next_step().unwrap().fresh);
}

#[test]
fn chunk_file_name_wraps_the_tag() {
    assert_eq!(chunk_file_name("abc"), "chunk_abc.tmp");
    assert_eq!(chunk_file_name(""), "chunk_.tmp");
}

#[test]
fn fresh_chunk_file_name_has_the_hyphenated_shape() {
    let name = fresh_chunk_file_name();
    assert_eq!(name.len(), 46);
    assert!(name.starts_with("chunk_"));
    assert!(name.ends_with(".tmp"));
    let tag: Vec<char> = name[6..42].chars().collect();
    for (i, c) in tag.iter().enumerate() {
        if i == 8 || i == 13 || i == 18 || i == 23 {
            assert_eq!(*c, '-');
        } else {
            assert!(matches!(*c, '0'..='9' | 'a'..='f'));
        }
    }
}

#[test]
fn fresh_chunk_file_names_differ() {
    assert_ne!(fresh_chunk_file_name(), fresh_chunk_file_name());
}

#[test]
fn heap_items_compare_by_line_alone() {
    let a = HeapItem { line: v("a\n"), index: 7 };
    let b = HeapItem { line: v("b\n"), index: 0 };
    let a2 = HeapItem { line: v("a\n"), index: 1 };
    assert!(a == a2);
    assert!(a != b);
    assert_eq!(a.partial_cmp(&b), Some(Ordering::Greater));
    assert_eq!(b.partial_cmp(&a), Some(Ordering::Less));
    assert_eq!(a.partial_cmp(&a2), Some(Ordering::Equal));
    assert!(b < a);
    assert!(a >= a2);
    let c = a.clone();
    assert_eq!((c.line, c.index), (v("a\n"), 7));
}

#[test]
fn merge_by_hand_buffers_one_line_per_unit() {
    let units: Vec<Vec<Vec<u8>>> = vec![
        vec![v("a\n"), v("c\n"), v("e\n")],
        vec![],
        vec![v("a\n"), v("b\n"), v("c\n"), v("d\n")],
        vec![v("e\n")],
    ];
    let mut next = vec![0usize; units.len()];
    let mut m = Merger::new();
    for (i, unit) in units.iter().enumerate() {
        if let Some(line) = unit.first() {
            m.offer(line.clone(), i);
            next[i] = 1;
        }
    }
    assert_eq!(m.pending(), 3);
    let mut written = Vec::new();
    let mut steps = 0;
    while let Some(step) = m.next_step() {
        steps += 1;
        if step.fresh {
            written.push(step.line.clone());
        }
        let i = step.index;
        if next[i] < units[i].len() {
            m.offer(units[i][next[i]].clone(), i);
            next[i] += 1;
        }
        assert!(m.pending() <= units.len());
    }
    assert_eq!(steps, 8);
    assert_eq!(written, vec![v("a\n"), v("b\n"), v("c\n"), v("d\n"), v("e\n")]);
}
