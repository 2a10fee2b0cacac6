use std::ops::RangeInclusive;

use range_trie::{RangeTrie, ROOT};
use regex_syntax::utf8::Utf8Range;

fn r(range: RangeInclusive<u8>) -> Utf8Range {
    Utf8Range { start: *range.start(), end: *range.end() }
}

/// Each state as its final flag and its transitions.
fn shape(trie: &RangeTrie) -> Vec<(bool, Vec<(u8, u8, usize)>)> {
    (0..trie.len())
        .map(|id| {
            let st = trie.state(id);
            let ts = st.transitions.iter().map(|t| (t.range.start, t.range.end, t.next_id));
            (st.is_final, ts.collect())
        })
        .collect()
}

/// The shape of the part reachable from `id`, independent of state indices.
fn tree(trie: &RangeTrie, id: usize) -> String {
    let st = trie.state(id);
    let mut out = String::new();
    if st.is_final {
        out.push('!');
    }
    out.push('(');
    for t in &st.transitions {
        out.push_str(&format!("{}-{}:{}", t.range.start, t.range.end, tree(trie, t.next_id)));
    }
    out.push(')');
    out
}

fn accepts(trie: &RangeTrie, id: usize, bytes: &[u8]) -> bool {
    let st = trie.state(id);
    match bytes.split_first() {
        None => st.is_final,
        Some((b, rest)) => st
            .transitions
            .iter()
            .any(|t| t.range.start <= *b && *b <= t.range.end && accepts(trie, t.next_id, rest)),
    }
}

fn matches_seq(seq: &[Utf8Range], bytes: &[u8]) -> bool {
    seq.len() == bytes.len()
        && seq.iter().zip(bytes).all(|(r, b)| r.start <= *b && *b <= r.end)
}

fn assert_disjoint_everywhere(trie: &RangeTrie) {
    for id in 0..trie.len() {
        let ts = &trie.state(id).transitions;
        for w in ts.windows(2) {
            assert!(w[0].range.end < w[1].range.start, "state {} unsorted or overlapping", id);
        }
    }
}

/// Checks that the trie accepts exactly the words of the inserted
/// sequences, over every word of up to `depth` bytes below `limit`.
fn assert_language(trie: &RangeTrie, seqs: &[Vec<Utf8Range>], depth: usize, limit: u8) {
    let mut words: Vec<Vec<u8>> = vec![vec![]];
    let mut all = words.clone();
    for _ in 0..depth {
        let mut next = Vec::new();
        for w in &words {
            for b in 0..limit {
                let mut x = w.clone();
                x.push(b);
                next.push(x);
            }
        }
        all.extend(next.iter().cloned());
        words = next;
    }
    for w in &all {
        let expected = seqs.iter().any(|s| matches_seq(s, w));
        assert_eq!(accepts(trie, ROOT, w), expected, "word {:?}", w);
    }
}

#[test]
fn new_trie_is_lone_root() {
    let trie = RangeTrie::new();
    assert_eq!(shape(&trie), vec![(false, vec![])]);
}

#[test]
fn clear_restores_lone_root() {
    let mut trie = RangeTrie::new();
    trie.clear();
    assert_eq!(shape(&trie), vec![(false, vec![])]);
    trie.insert(&[r(0..=9), r(3..=4)]);
    trie.insert(&[r(5..=14)]);
    trie.insert(&[]);
    trie.clear();
    assert_eq!(shape(&trie), vec![(false, vec![])]);
    trie.clear();
    assert_eq!(shape(&trie), vec![(false, vec![])]);
}

#[test]
fn empty_sequence_marks_root_final() {
    let mut trie = RangeTrie::new();
    trie.insert(&[r(1..=2), r(3..=3)]);
    let before = shape(&trie);
    trie.insert(&[]);
    let after = shape(&trie);
    assert!(after[0].0);
    assert_eq!(after[0].1, before[0].1);
    assert_eq!(after[1..], before[1..]);
}

#[test]
fn add_empty_appends_state() {
    let mut trie = RangeTrie::new();
    assert_eq!(trie.add_empty(), 1);
    assert_eq!(trie.add_empty(), 2);
    assert_eq!(shape(&trie), vec![(false, vec![]); 3]);
}

#[test]
fn first_insert_builds_a_chain() {
    let mut trie = RangeTrie::new();
    trie.insert(&[r(0xE0..=0xE0), r(0xA0..=0xBF), r(0x80..=0xBF)]);
    assert_eq!(trie.len(), 4);
    assert_eq!(tree(&trie, ROOT), "(224-224:(160-191:(128-191:!())))");
}

#[test]
fn partial_overlap_splits_in_three() {
    let mut trie = RangeTrie::new();
    let a = vec![r(0..=9), r(100..=100)];
    let b = vec![r(5..=14), r(200..=200)];
    trie.insert(&a);
    trie.insert(&b);
    let root = &trie.state(ROOT).transitions;
    let ranges: Vec<(u8, u8)> = root.iter().map(|t| (t.range.start, t.range.end)).collect();
    assert_eq!(ranges, vec![(0, 4), (5, 9), (10, 14)]);
    assert_eq!(tree(&trie, root[0].next_id), "(100-100:!())");
    assert_eq!(tree(&trie, root[1].next_id), "(100-100:!()200-200:!())");
    assert_eq!(tree(&trie, root[2].next_id), "(200-200:!())");
    assert_disjoint_everywhere(&trie);
    assert_language(&trie, &[a, b], 2, 16);
}

#[test]
fn shared_prefix_is_not_duplicated() {
    let mut trie = RangeTrie::new();
    trie.insert(&[r(0xC3..=0xC3), r(0x80..=0x8F)]);
    trie.insert(&[r(0xC3..=0xC3), r(0xA0..=0xAF)]);
    let root = &trie.state(ROOT).transitions;
    assert_eq!(root.len(), 1);
    assert_eq!((root[0].range.start, root[0].range.end), (0xC3, 0xC3));
    assert_eq!(tree(&trie, ROOT), "(195-195:(128-143:!()160-175:!()))");
}

#[test]
fn inserting_twice_keeps_the_shape() {
    let seqs = [
        vec![r(0..=9), r(3..=5)],
        vec![r(5..=14), r(1..=1)],
        vec![r(2..=3)],
        vec![],
        vec![r(0..=20), r(0..=20), r(4..=4)],
    ];
    for s in &seqs {
        let mut once = RangeTrie::new();
        let mut twice = RangeTrie::new();
        for t in &seqs {
            once.insert(t);
            twice.insert(t);
            if t == s {
                twice.insert(t);
            }
        }
        assert_eq!(tree(&once, ROOT), tree(&twice, ROOT));
    }
    let mut once = RangeTrie::new();
    once.insert(&seqs[0]);
    let mut twice = RangeTrie::new();
    twice.insert(&seqs[0]);
    twice.insert(&seqs[0]);
    assert_eq!(tree(&once, ROOT), tree(&twice, ROOT));
}

#[test]
fn split_keeps_old_destination() {
    let mut trie = RangeTrie::new();
    trie.insert(&[r(0..=9)]);
    let d0 = trie.state(ROOT).transitions[0].next_id;
    trie.insert(&[r(5..=14)]);
    let root = &trie.state(ROOT).transitions;
    let ranges: Vec<(u8, u8)> = root.iter().map(|t| (t.range.start, t.range.end)).collect();
    assert_eq!(ranges, vec![(0, 4), (5, 9), (10, 14)]);
    assert_eq!(root[0].next_id, d0);
    for t in root {
        assert!(trie.state(t.next_id).is_final);
        assert!(trie.state(t.next_id).transitions.is_empty());
    }
}

#[test]
fn old_range_around_new_keeps_destination() {
    let mut trie = RangeTrie::new();
    trie.insert(&[r(2..=12), r(1..=1)]);
    let d0 = trie.state(ROOT).transitions[0].next_id;
    trie.insert(&[r(5..=8), r(2..=2)]);
    let root = &trie.state(ROOT).transitions;
    assert_eq!(root.len(), 3);
    assert_eq!(root[0].next_id, d0);
    assert_eq!(root[2].next_id, d0);
    assert_ne!(root[1].next_id, d0);
}

#[test]
fn shared_prefix_two_continuations() {
    let mut trie = RangeTrie::new();
    trie.insert(&[r(0..=9), r(20..=29)]);
    trie.insert(&[r(0..=9), r(40..=49)]);
    let root = &trie.state(ROOT).transitions;
    assert_eq!(root.len(), 1);
    let p = &trie.state(root[0].next_id).transitions;
    assert_eq!(p.len(), 2);
    assert_eq!((p[0].range.start, p[0].range.end), (20, 29));
    assert_eq!((p[1].range.start, p[1].range.end), (40, 49));
    assert_ne!(p[0].next_id, p[1].next_id);
    for t in p {
        assert!(trie.state(t.next_id).is_final);
        assert!(trie.state(t.next_id).transitions.is_empty());
    }
}

#[test]
fn new_range_inside_old_range() {
    let mut trie = RangeTrie::new();
    let a = vec![r(2..=12), r(1..=1)];
    let b = vec![r(5..=8), r(2..=2)];
    trie.insert(&a);
    trie.insert(&b);
    assert_eq!(tree(&trie, ROOT), "(2-4:(1-1:!())5-8:(1-1:!()2-2:!())9-12:(1-1:!()))");
    assert_disjoint_everywhere(&trie);
    assert_language(&trie, &[a, b], 2, 14);
}

#[test]
fn new_range_spans_several_old_ranges() {
    let mut trie = RangeTrie::new();
    let a = vec![r(2..=4), r(1..=1)];
    let b = vec![r(7..=9), r(1..=1)];
    let c = vec![r(0..=12), r(2..=3)];
    trie.insert(&a);
    trie.insert(&b);
    trie.insert(&c);
    assert_eq!(
        tree(&trie, ROOT),
        "(0-1:(2-3:!())2-4:(1-1:!()2-3:!())5-6:(2-3:!())7-9:(1-1:!()2-3:!())10-12:(2-3:!()))"
    );
    assert_disjoint_everywhere(&trie);
    assert_language(&trie, &[a, b, c], 2, 14);
}

#[test]
fn deeper_overlaps_keep_the_language() {
    let seqs = vec![
        vec![r(0..=5), r(0..=3), r(2..=2)],
        vec![r(3..=8), r(2..=6), r(0..=1)],
        vec![r(3..=5), r(0..=7)],
        vec![r(1..=1)],
        vec![r(0..=8), r(1..=2), r(2..=4)],
        vec![],
    ];
    let mut trie = RangeTrie::new();
    for s in &seqs {
        trie.insert(s);
        assert_disjoint_everywhere(&trie);
    }
    assert_language(&trie, &seqs, 3, 10);
}
