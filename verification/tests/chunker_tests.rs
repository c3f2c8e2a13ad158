use memchunk::{chunk_offsets, default_delimiters, default_target_size, flatten_offsets, Chunker};

fn drain(chunker: &mut Chunker) -> Vec<Vec<u8>> {
    let mut chunks = Vec::new();
    while let Some(chunk) = chunker.next() {
        chunks.push(chunk);
    }
    chunks
}

#[test]
fn defaults() {
    assert_eq!(default_target_size(), 4096);
    assert_eq!(default_delimiters(), vec![b'\n', b'.', b'?']);
    assert_eq!(memchunk::DEFAULT_TARGET_SIZE, 4096);
}

#[test]
fn empty_buffer_no_chunks() {
    let mut c = Chunker::new(Vec::new()).size(10).delimiters(b".".to_vec());
    assert_eq!(c.next(), None);
    assert_eq!(c.collect_offsets(), Vec::<(usize, usize)>::new());
}

#[test]
fn hello_world_test_chunks() {
    let text = b"Hello. World. Test.".to_vec();
    let mut c = Chunker::new(text).size(10).delimiters(b".".to_vec());
    let chunks = drain(&mut c);
    assert_eq!(
        chunks,
        vec![b"Hello.".to_vec(), b" World.".to_vec(), b" Test.".to_vec()]
    );
    assert_eq!(c.next(), None);
}

#[test]
fn hello_world_test_offsets() {
    let text = b"Hello. World. Test.".to_vec();
    let mut c = Chunker::new(text).size(10).delimiters(b".".to_vec());
    assert_eq!(c.collect_offsets(), vec![(0, 6), (6, 13), (13, 19)]);
}

#[test]
fn no_delimiter_hard_cuts() {
    // No match and forward_fallback off: one chunk of min(size, len), then
    // successive hard cuts.
    let mut c = Chunker::new(b"abcdefgh".to_vec())
        .size(3)
        .delimiters(b".".to_vec());
    assert_eq!(c.collect_offsets(), vec![(0, 3), (3, 6), (6, 8)]);
}

#[test]
fn whole_buffer_when_size_covers_it() {
    let mut c = Chunker::new(b"abc".to_vec()).size(10).delimiters(b".".to_vec());
    assert_eq!(c.collect_offsets(), vec![(0, 3)]);
}

#[test]
fn consecutive_run_cut_after_run() {
    // "ab..cd", window of 5 sees both dots; the cut falls just after the run.
    let mut c = Chunker::new(b"ab..cd".to_vec())
        .size(5)
        .delimiters(b".".to_vec())
        .consecutive(true);
    assert_eq!(c.collect_offsets(), vec![(0, 4), (4, 6)]);
}

#[test]
fn consecutive_run_prefix_cut_at_run_start() {
    // With prefix the cut falls at the first delimiter of the run.
    let mut c = Chunker::new(b"ab..cd".to_vec())
        .size(5)
        .delimiters(b".".to_vec())
        .consecutive(true)
        .prefix(true);
    assert_eq!(c.collect_offsets(), vec![(0, 2), (2, 6)]);
}

#[test]
fn space_run_cut_after_run() {
    // Pattern " " and a three-space run: the cut falls after the run, never
    // inside it.
    let mut c = Chunker::new(b"word   next".to_vec())
        .size(8)
        .pattern(b" ".to_vec())
        .consecutive(true);
    assert_eq!(c.collect_offsets(), vec![(0, 7), (7, 11)]);
    c.reset();
    let chunks = drain(&mut c);
    assert_eq!(chunks, vec![b"word   ".to_vec(), b"next".to_vec()]);
}

#[test]
fn match_at_zero_with_prefix_still_advances() {
    // A match at the cursor with prefix set: the chunker advances one match
    // length instead of emitting an empty chunk.
    let mut c = Chunker::new(b".abc".to_vec())
        .size(2)
        .delimiters(b".".to_vec())
        .prefix(true);
    assert_eq!(c.collect_offsets(), vec![(0, 1), (1, 3), (3, 4)]);
}

#[test]
fn prefix_attaches_delimiter_to_next_chunk() {
    let mut c = Chunker::new(b"ab.cd.ef".to_vec())
        .size(4)
        .delimiters(b".".to_vec())
        .prefix(true);
    // window [0,4): dot at 2, cut before it; then from 2: window [2,6): dot
    // at 5, cut at 5; then the rest.
    assert_eq!(c.collect_offsets(), vec![(0, 2), (2, 5), (5, 8)]);
}

#[test]
fn forward_fallback_extends_past_window() {
    let mut c = Chunker::new(b"abcde.fg".to_vec())
        .size(3)
        .delimiters(b".".to_vec())
        .forward_fallback(true);
    assert_eq!(c.collect_offsets(), vec![(0, 6), (6, 8)]);
}

#[test]
fn forward_fallback_without_match_runs_to_end() {
    let mut c = Chunker::new(b"abcdefgh".to_vec())
        .size(3)
        .delimiters(b".".to_vec())
        .forward_fallback(true);
    assert_eq!(c.collect_offsets(), vec![(0, 8)]);
}

#[test]
fn pattern_takes_precedence_over_delimiters() {
    // Both configured: the pattern (a space) wins, the dots are ignored.
    let mut with_both = Chunker::new(b"a.b c.d".to_vec())
        .size(5)
        .delimiters(b".".to_vec())
        .pattern(b" ".to_vec());
    let mut pattern_only = Chunker::new(b"a.b c.d".to_vec())
        .size(5)
        .delimiters(Vec::new())
        .pattern(b" ".to_vec());
    assert_eq!(with_both.collect_offsets(), pattern_only.collect_offsets());
    with_both.reset();
    assert_eq!(with_both.collect_offsets(), vec![(0, 4), (4, 7)]);
}

#[test]
fn multibyte_pattern_cut() {
    let mut c = Chunker::new(b"aa--bb--cc".to_vec())
        .size(6)
        .pattern(b"--".to_vec());
    // window [0,6): the only "--" fully inside starts at 2; cut just after it.
    assert_eq!(c.collect_offsets(), vec![(0, 4), (4, 10)]);
}

#[test]
fn reset_then_collect_is_idempotent() {
    let text = b"Hello. World. Test.".to_vec();
    let mut c = Chunker::new(text).size(10).delimiters(b".".to_vec());
    c.next();
    c.reset();
    let first = c.collect_offsets();
    c.reset();
    let second = c.collect_offsets();
    assert_eq!(first, second);
    assert_eq!(first, vec![(0, 6), (6, 13), (13, 19)]);
}

#[test]
fn collect_resumes_from_cursor() {
    let text = b"Hello. World. Test.".to_vec();
    let mut c = Chunker::new(text).size(10).delimiters(b".".to_vec());
    assert_eq!(c.next(), Some(b"Hello.".to_vec()));
    assert_eq!(c.collect_offsets(), vec![(6, 13), (13, 19)]);
    assert_eq!(c.next(), None);
}

#[test]
fn chunker_coverage_concatenation() {
    let text = b"one.two.three.four.five".to_vec();
    let mut c = Chunker::new(text.clone()).size(7).delimiters(b".".to_vec());
    let mut rebuilt = Vec::new();
    for chunk in drain(&mut c) {
        rebuilt.extend_from_slice(&chunk);
    }
    assert_eq!(rebuilt, text);
}

#[test]
fn chunk_offsets_one_shot_matches_chunker() {
    let text = b"Hello. World. Test.";
    let offsets = chunk_offsets(text, 10, b".");
    assert_eq!(offsets, vec![(0, 6), (6, 13), (13, 19)]);
    let mut c = Chunker::new(text.to_vec()).size(10).delimiters(b".".to_vec());
    assert_eq!(c.collect_offsets(), offsets);
}

#[test]
fn flatten_offsets_interleaves() {
    let offsets = vec![(0usize, 6usize), (6, 13), (13, 19)];
    assert_eq!(flatten_offsets(&offsets), vec![0, 6, 6, 13, 13, 19]);
    assert_eq!(flatten_offsets(&Vec::new()), Vec::<usize>::new());
}

#[test]
fn size_bound_holds_without_fallback() {
    let text = b"aaaa.bb.cccccccc.d".to_vec();
    let mut c = Chunker::new(text).size(5).delimiters(b".".to_vec());
    for (start, end) in c.collect_offsets() {
        assert!(end - start <= 5);
        assert!(end > start);
    }
}

#[test]
fn empty_delimiter_set_hard_cuts() {
    let mut c = Chunker::new(b"abcdefg".to_vec()).size(3).delimiters(Vec::new());
    assert_eq!(c.collect_offsets(), vec![(0, 3), (3, 6), (6, 7)]);
}
