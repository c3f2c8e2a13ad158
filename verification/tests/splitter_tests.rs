use memchunk::{split_offsets, split_pattern_offsets, IncludeDelim, PatternError, PatternSplitter};

fn slices(text: &[u8], offsets: &[(usize, usize)]) -> Vec<Vec<u8>> {
    offsets.iter().map(|&(s, e)| text[s..e].to_vec()).collect()
}

#[test]
fn split_default_prev() {
    let text = b"Hello. World. Test.";
    let offsets = split_offsets(text, b".", IncludeDelim::Prev, 0);
    assert_eq!(offsets, vec![(0, 6), (6, 13), (13, 19)]);
    assert_eq!(
        slices(text, &offsets),
        vec![b"Hello.".to_vec(), b" World.".to_vec(), b" Test.".to_vec()]
    );
}

#[test]
fn split_next_attaches_delimiter_forward() {
    let text = b"Hello. World. Test.";
    let offsets = split_offsets(text, b".", IncludeDelim::Next, 0);
    assert_eq!(offsets, vec![(0, 5), (5, 12), (12, 18), (18, 19)]);
    assert_eq!(
        slices(text, &offsets),
        vec![
            b"Hello".to_vec(),
            b". World".to_vec(),
            b". Test".to_vec(),
            b".".to_vec()
        ]
    );
}

#[test]
fn split_omit_drops_matched_bytes() {
    let offsets = split_offsets(b"a.b.c", b".", IncludeDelim::Omit, 0);
    assert_eq!(offsets, vec![(0, 1), (2, 3), (4, 5)]);
}

#[test]
fn split_empty_buffer_no_segments() {
    assert_eq!(
        split_offsets(b"", b".", IncludeDelim::Prev, 0),
        Vec::<(usize, usize)>::new()
    );
}

#[test]
fn split_no_match_single_segment() {
    assert_eq!(
        split_offsets(b"abc", b".", IncludeDelim::Prev, 0),
        vec![(0, 3)]
    );
}

#[test]
fn split_match_at_zero_next_starts_at_zero() {
    // A match at position 0 under Next: the zero-length leading segment is
    // suppressed and the first segment begins at 0.
    let offsets = split_offsets(b"..ab", b".", IncludeDelim::Next, 0);
    assert_eq!(offsets, vec![(0, 1), (1, 4)]);
}

#[test]
fn split_min_chars_merges_short_segments() {
    // Segments (0,2), (2,4), (4,5); the first is under 3 bytes and absorbs
    // its neighbour; the undersized tail merges backwards.
    let offsets = split_offsets(b"a.b.c", b".", IncludeDelim::Prev, 3);
    assert_eq!(offsets, vec![(0, 5)]);
}

#[test]
fn split_min_chars_backward_merge_only_tail() {
    let offsets = split_offsets(b"abcd.ef.g", b".", IncludeDelim::Prev, 3);
    // segments (0,5), (5,8), (8,9): tail "g" is under 3 and merges backwards
    assert_eq!(offsets, vec![(0, 5), (5, 9)]);
}

#[test]
fn split_is_deterministic() {
    let text = b"Hello. World. Test.";
    let a = split_offsets(text, b".", IncludeDelim::Next, 2);
    let b = split_offsets(text, b".", IncludeDelim::Next, 2);
    assert_eq!(a, b);
}

#[test]
fn split_coverage_concatenation() {
    let text = b"x.yy..z.tail";
    for policy in [IncludeDelim::Prev, IncludeDelim::Next] {
        for mc in [0usize, 2, 4] {
            let offsets = split_offsets(text, b".", policy, mc);
            let mut rebuilt = Vec::new();
            let mut prev_end = 0;
            for &(s, e) in &offsets {
                assert_eq!(s, prev_end);
                assert!(s < e);
                prev_end = e;
                rebuilt.extend_from_slice(&text[s..e]);
            }
            assert_eq!(rebuilt, text.to_vec());
        }
    }
}

#[test]
fn pattern_split_paragraphs() {
    let text = b"Para 1\n\nPara 2\n\nPara 3";
    let offsets =
        split_pattern_offsets(text, &vec![b"\n\n".to_vec()], IncludeDelim::Prev, 0).unwrap();
    assert_eq!(offsets, vec![(0, 8), (8, 16), (16, 22)]);
    assert_eq!(
        slices(text, &offsets),
        vec![
            b"Para 1\n\n".to_vec(),
            b"Para 2\n\n".to_vec(),
            b"Para 3".to_vec()
        ]
    );
}

#[test]
fn pattern_split_longest_wins_at_same_position() {
    // "ab" and "abc" both match at 0: the longer pattern wins.
    let pats = vec![b"ab".to_vec(), b"abc".to_vec()];
    let offsets = split_pattern_offsets(b"abcd", &pats, IncludeDelim::Next, 0).unwrap();
    assert_eq!(offsets, vec![(0, 4)]);
    let offsets = split_pattern_offsets(b"xabcd", &pats, IncludeDelim::Next, 0).unwrap();
    assert_eq!(offsets, vec![(0, 1), (1, 5)]);
}

#[test]
fn pattern_split_matches_do_not_overlap() {
    // After a match at 0 of length 2 the scan resumes at 2.
    let offsets =
        split_pattern_offsets(b"aaa", &vec![b"aa".to_vec()], IncludeDelim::Omit, 0).unwrap();
    assert_eq!(offsets, vec![(2, 3)]);
}

#[test]
fn pattern_split_rejects_empty_set() {
    let r = split_pattern_offsets(b"abc", &Vec::new(), IncludeDelim::Prev, 0);
    assert_eq!(r, Err(PatternError::EmptySet));
}

#[test]
fn pattern_split_rejects_empty_pattern() {
    let pats = vec![b"a".to_vec(), Vec::new()];
    let r = split_pattern_offsets(b"abc", &pats, IncludeDelim::Prev, 0);
    assert_eq!(r, Err(PatternError::EmptyPattern));
}

#[test]
fn pattern_splitter_compiles_once_and_reuses() {
    let splitter = PatternSplitter::new(vec![b"\n\n".to_vec()]).unwrap();
    let text = b"Para 1\n\nPara 2\n\nPara 3";
    let first = splitter.split(text, IncludeDelim::Prev, 0);
    let second = splitter.split(text, IncludeDelim::Prev, 0);
    assert_eq!(first, second);
    assert_eq!(first, vec![(0, 8), (8, 16), (16, 22)]);
    let one_shot = split_pattern_offsets(text, &vec![b"\n\n".to_vec()], IncludeDelim::Prev, 0);
    assert_eq!(one_shot.unwrap(), first);
}

#[test]
fn pattern_splitter_rejects_bad_sets() {
    assert!(matches!(
        PatternSplitter::new(Vec::new()),
        Err(PatternError::EmptySet)
    ));
    assert!(matches!(
        PatternSplitter::new(vec![Vec::new()]),
        Err(PatternError::EmptyPattern)
    ));
}

#[test]
fn split_omit_min_chars_absorbs_gap() {
    // Omit drops the dots; an undersized segment absorbs its right neighbour
    // together with the gap between the two.
    let offsets = split_offsets(b"a.b.cdef", b".", IncludeDelim::Omit, 2);
    assert_eq!(offsets, vec![(0, 3), (4, 8)]);
}

#[test]
fn split_omit_segments_stay_ordered() {
    let text = b"..a..bb..";
    let offsets = split_offsets(text, b".", IncludeDelim::Omit, 0);
    assert_eq!(offsets, vec![(2, 3), (5, 7)]);
    let mut prev_end = 0;
    for &(s, e) in &offsets {
        assert!(prev_end <= s && s < e && e <= text.len());
        prev_end = e;
    }
}
