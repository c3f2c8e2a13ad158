use memchunk::{find_merge_indices, merge_splits, merge_splits_flat};

#[test]
fn merge_indices_budget_three() {
    let counts = vec![1usize, 1, 1, 1, 1, 1, 1];
    assert_eq!(find_merge_indices(&counts, 3, false), vec![3, 6, 7]);
}

#[test]
fn merge_flat_budget_three() {
    let counts = vec![1usize, 1, 1, 1, 1, 1, 1];
    assert_eq!(merge_splits_flat(&counts, 3, false), vec![3, 3, 6, 3, 7, 1]);
}

#[test]
fn merge_single_oversized_segment_stands_alone() {
    // A segment that alone exceeds the budget forms its own chunk.
    let counts = vec![2usize, 9, 1, 1];
    assert_eq!(merge_splits_flat(&counts, 3, false), vec![1, 2, 2, 9, 4, 2]);
}

#[test]
fn merge_exactly_at_budget_is_taken() {
    // A chunk may reach the budget exactly.
    let counts = vec![2usize, 1, 3];
    assert_eq!(merge_splits_flat(&counts, 3, false), vec![2, 3, 3, 3]);
}

#[test]
fn merge_empty_counts_empty_plan() {
    assert_eq!(find_merge_indices(&Vec::new(), 5, false), Vec::<usize>::new());
    assert_eq!(merge_splits_flat(&Vec::new(), 5, true), Vec::<usize>::new());
}

#[test]
fn merge_whitespace_surcharge_counts_one_per_segment() {
    // With the surcharge each segment costs one extra token: pairs no longer
    // fit a budget of 3.
    let counts = vec![1usize, 1, 1];
    assert_eq!(merge_splits_flat(&counts, 3, true), vec![1, 2, 2, 2, 3, 2]);
    assert_eq!(merge_splits_flat(&counts, 4, true), vec![2, 4, 3, 2]);
}

#[test]
fn merge_totality_every_segment_once() {
    let counts = vec![4usize, 2, 7, 1, 1, 1, 9, 3];
    let ends = find_merge_indices(&counts, 6, false);
    assert_eq!(*ends.last().unwrap(), counts.len());
    let mut prev = 0;
    let mut covered = 0;
    for &e in &ends {
        assert!(e > prev);
        covered += e - prev;
        prev = e;
    }
    assert_eq!(covered, counts.len());
}

#[test]
fn merge_budget_or_single_segment() {
    let counts = vec![4usize, 2, 7, 1, 1, 1, 9, 3];
    let flat = merge_splits_flat(&counts, 6, false);
    let mut prev = 0;
    for pair in flat.chunks(2) {
        let (end, tokens) = (pair[0], pair[1]);
        assert!(tokens <= 6 || end == prev + 1);
        prev = end;
    }
}

#[test]
fn merge_splits_materializes_chunks() {
    let splits = vec![b"a".to_vec(), b"b".to_vec(), b"c".to_vec()];
    let counts = vec![1usize, 1, 1];
    let (merged, tokens) = merge_splits(&splits, &counts, 2, false);
    assert_eq!(merged, vec![b"ab".to_vec(), b"c".to_vec()]);
    assert_eq!(tokens, vec![2, 1]);
}

#[test]
fn merge_splits_concatenates_without_separator() {
    let splits = vec![
        b"Hello".to_vec(),
        b" World".to_vec(),
        b"!".to_vec(),
        b"xyz".to_vec(),
    ];
    let counts = vec![2usize, 2, 1, 5];
    let (merged, tokens) = merge_splits(&splits, &counts, 5, false);
    assert_eq!(merged, vec![b"Hello World!".to_vec(), b"xyz".to_vec()]);
    assert_eq!(tokens, vec![5, 5]);
}

#[test]
fn merge_splits_boundaries_match_indices() {
    let splits = vec![b"q".to_vec(), b"r".to_vec(), b"s".to_vec(), b"t".to_vec()];
    let counts = vec![3usize, 3, 3, 3];
    let ends = find_merge_indices(&counts, 6, false);
    let (merged, _tokens) = merge_splits(&splits, &counts, 6, false);
    assert_eq!(merged.len(), ends.len());
    assert_eq!(ends, vec![2, 4]);
    assert_eq!(merged, vec![b"qr".to_vec(), b"st".to_vec()]);
}

#[test]
fn merge_zero_counts_collapse_into_one_chunk() {
    let counts = vec![0usize, 0, 0];
    assert_eq!(find_merge_indices(&counts, 1, false), vec![3]);
}

#[test]
fn merge_splits_with_whitespace_surcharge() {
    let splits = vec![b"a".to_vec(), b"b".to_vec(), b"c".to_vec()];
    let counts = vec![1usize, 1, 1];
    let (merged, tokens) = merge_splits(&splits, &counts, 3, true);
    assert_eq!(merged, vec![b"a".to_vec(), b"b".to_vec(), b"c".to_vec()]);
    assert_eq!(tokens, vec![2, 2, 2]);
}
