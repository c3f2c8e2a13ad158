//! Size-bounded chunking.
//!
//! A [`Chunker`] owns a byte buffer and a cursor. Each call to [`Chunker::next`]
//! emits the next chunk: the bytes from the cursor up to a cut point chosen at
//! most `size` bytes ahead, preferring to cut at a delimiter or pattern match.

use crate::segments::chain;
use crate::segments::concat_segs;
use crate::segments::lemma_chain_concat;
use crate::segments::lemma_chain_props;
use vstd::prelude::*;
use vstd::slice::slice_subrange;
use vstd::slice::slice_to_vec;

verus! {

/// The chunker's configuration, as mathematical values.
///
/// `pattern` takes precedence over `delimiters`: when it is `Some`, the
/// delimiter set is ignored and every occurrence of the pattern is a match.
pub struct ChunkConfig {
    /// Target chunk size in bytes.
    pub size: int,
    /// Single-byte delimiters; a match is one byte long.
    pub delimiters: Seq<u8>,
    /// Multi-byte pattern; a match is `pattern.len()` bytes long.
    pub pattern: Option<Seq<u8>>,
    /// When true, a match attaches to the next chunk: the cut is placed
    /// before the match instead of after it.
    pub prefix: bool,
    /// When true, a run of adjacent matches is treated atomically: the cut
    /// never lands between two adjacent matches of the run.
    pub consecutive: bool,
    /// When true and the window holds no match, the cut is placed at the next
    /// match past the window instead of hard at the target size.
    pub forward_fallback: bool,
}

/// A configuration is well formed when its pattern, if any, is non-empty.
pub open spec fn cfg_wf(cfg: ChunkConfig) -> bool {
    match cfg.pattern {
        Some(p) => p.len() >= 1,
        None => true,
    }
}

/// Length of one match: the pattern length, or 1 for single-byte delimiters.
pub open spec fn match_len(cfg: ChunkConfig) -> int {
    match cfg.pattern {
        Some(p) => p.len() as int,
        None => 1,
    }
}

/// The pattern `pat` occurs in `text` at position `i`.
pub open spec fn bytes_match_at(text: Seq<u8>, pat: Seq<u8>, i: int) -> bool {
    &&& 0 <= i
    &&& i + pat.len() <= text.len()
    &&& text.subrange(i, i + pat.len() as int) == pat
}

/// A match of the configuration starts at position `i` of `text`.
pub open spec fn is_match_at(text: Seq<u8>, cfg: ChunkConfig, i: int) -> bool {
    match cfg.pattern {
        Some(p) => bytes_match_at(text, p, i),
        None => 0 <= i < text.len() && cfg.delimiters.contains(text[i]),
    }
}

/// The largest match position in `[lo, j]`, or -1 when that range holds none.
pub open spec fn last_match_before(text: Seq<u8>, cfg: ChunkConfig, lo: int, j: int) -> int
    decreases j + 1,
{
    if j < lo || j < 0 {
        -1
    } else if is_match_at(text, cfg, j) {
        j
    } else {
        last_match_before(text, cfg, lo, j - 1)
    }
}

/// The smallest match position at or after `j` that lies entirely within
/// `text`, or -1 when there is none.
pub open spec fn first_match_from(text: Seq<u8>, cfg: ChunkConfig, j: int) -> int
    decreases text.len() - j,
{
    if j < 0 || match_len(cfg) < 1 {
        -1
    } else if j + match_len(cfg) > text.len() {
        -1
    } else if is_match_at(text, cfg, j) {
        j
    } else {
        first_match_from(text, cfg, j + 1)
    }
}

/// The start of the maximal run of adjacent matches that ends with the match
/// at `p`: matches at `p - L`, `p - 2L`, ... are absorbed, where `L` is the
/// match length.
pub open spec fn run_start(text: Seq<u8>, cfg: ChunkConfig, p: int) -> int
    decreases p,
{
    if match_len(cfg) < 1 || p < 0 {
        p
    } else if p - match_len(cfg) >= 0 && is_match_at(text, cfg, p - match_len(cfg)) {
        run_start(text, cfg, p - match_len(cfg))
    } else {
        p
    }
}

/// The cut point for the anchor match at `p`: after the match, or before it
/// when `prefix` is set (before the whole run when `consecutive` is also set).
pub open spec fn cut_for_anchor(text: Seq<u8>, cfg: ChunkConfig, p: int) -> int {
    if cfg.prefix {
        if cfg.consecutive {
            run_start(text, cfg, p)
        } else {
            p
        }
    } else {
        p + match_len(cfg)
    }
}

/// End of the search window that starts at `cursor`: `cursor + size`, clamped
/// to the buffer length.
pub open spec fn window_end(text: Seq<u8>, cfg: ChunkConfig, cursor: int) -> int {
    if cursor + cfg.size >= text.len() {
        text.len() as int
    } else {
        cursor + cfg.size
    }
}

/// The cut point chosen from `cursor`, before the progress rule is applied.
///
/// When the window reaches the end of the buffer the final chunk runs to the
/// end. Otherwise the latest match inside the window anchors the cut; with no
/// match, the cut falls at the next match past the window (`forward_fallback`)
/// or hard at the window end.
pub open spec fn raw_cut(text: Seq<u8>, cfg: ChunkConfig, cursor: int) -> int {
    let n = text.len() as int;
    let end = window_end(text, cfg, cursor);
    if end == n {
        n
    } else {
        let p = last_match_before(text, cfg, cursor, end - match_len(cfg));
        if p >= 0 {
            cut_for_anchor(text, cfg, p)
        } else if cfg.forward_fallback {
            let q = first_match_from(text, cfg, end);
            if q >= 0 {
                cut_for_anchor(text, cfg, q)
            } else {
                n
            }
        } else {
            end
        }
    }
}

/// The cut point chosen from `cursor`. When the raw cut would not advance the
/// cursor (a run starting at or before the cursor with `prefix` set, or a
/// zero-size window), the chunker advances one match length instead, clamped
/// to the buffer length, so that every chunk is non-empty.
pub open spec fn next_cut(text: Seq<u8>, cfg: ChunkConfig, cursor: int) -> int {
    let n = text.len() as int;
    let raw = raw_cut(text, cfg, cursor);
    if raw <= cursor {
        if cursor + match_len(cfg) >= n {
            n
        } else {
            cursor + match_len(cfg)
        }
    } else {
        raw
    }
}

/// The offset pairs the chunker emits when drained from `cursor`.
///
/// The bound clamping the recursion step merely makes the definition total;
/// for a well-formed configuration the cut always lands in `(cursor, n]`
/// (see `lemma_next_cut_bounds`) and the clamp never takes effect.
pub open spec fn chunk_offsets_from(text: Seq<u8>, cfg: ChunkConfig, cursor: int) -> Seq<
    (int, int),
>
    decreases text.len() - cursor,
{
    let n = text.len() as int;
    if cursor < 0 || cursor >= n {
        Seq::empty()
    } else {
        let c = next_cut(text, cfg, cursor);
        let cut = if c <= cursor {
            cursor + 1
        } else if c > n {
            n
        } else {
            c
        };
        seq![(cursor, cut)] + chunk_offsets_from(text, cfg, cut)
    }
}

/// Offset pairs of an exec result, as mathematical pairs.
pub open spec fn pairs_view(s: Seq<(usize, usize)>) -> Seq<(int, int)> {
    s.map_values(|p: (usize, usize)| (p.0 as int, p.1 as int))
}

/// A successful backward search yields a match position within the range.
pub proof fn lemma_last_match_props(text: Seq<u8>, cfg: ChunkConfig, lo: int, j: int)
    ensures
        last_match_before(text, cfg, lo, j) == -1 || (lo <= last_match_before(text, cfg, lo, j)
            <= j && is_match_at(text, cfg, last_match_before(text, cfg, lo, j))),
    decreases j + 1,
{
    if !(j < lo || j < 0) && !is_match_at(text, cfg, j) {
        lemma_last_match_props(text, cfg, lo, j - 1);
    }
}

/// A successful forward search yields a match that fits within the buffer.
pub proof fn lemma_first_match_props(text: Seq<u8>, cfg: ChunkConfig, j: int)
    requires
        j >= 0,
    ensures
        first_match_from(text, cfg, j) == -1 || (j <= first_match_from(text, cfg, j)
            && first_match_from(text, cfg, j) + match_len(cfg) <= text.len() && is_match_at(
            text,
            cfg,
            first_match_from(text, cfg, j),
        )),
    decreases text.len() - j,
{
    if match_len(cfg) >= 1 && j + match_len(cfg) <= text.len() && !is_match_at(text, cfg, j) {
        lemma_first_match_props(text, cfg, j + 1);
    }
}

/// The start of a run never lies past its anchor, and never below zero.
pub proof fn lemma_run_start_le(text: Seq<u8>, cfg: ChunkConfig, p: int)
    requires
        p >= 0,
    ensures
        0 <= run_start(text, cfg, p) <= p,
    decreases p,
{
    if match_len(cfg) >= 1 && p - match_len(cfg) >= 0 && is_match_at(
        text,
        cfg,
        p - match_len(cfg),
    ) {
        lemma_run_start_le(text, cfg, p - match_len(cfg));
    }
}

/// For a well-formed configuration every cut makes progress and stays inside
/// the buffer.
pub proof fn lemma_next_cut_bounds(text: Seq<u8>, cfg: ChunkConfig, cursor: int)
    requires
        cfg_wf(cfg),
        0 <= cursor < text.len(),
    ensures
        cursor < next_cut(text, cfg, cursor) <= text.len(),
{
    let n = text.len() as int;
    let end = window_end(text, cfg, cursor);
    let l = match_len(cfg);
    if end != n {
        let p = last_match_before(text, cfg, cursor, end - l);
        lemma_last_match_props(text, cfg, cursor, end - l);
        if p >= 0 {
            lemma_run_start_le(text, cfg, p);
        } else if cfg.forward_fallback {
            let q = first_match_from(text, cfg, end);
            if end >= 0 {
                lemma_first_match_props(text, cfg, end);
                if q >= 0 {
                    lemma_run_start_le(text, cfg, q);
                }
            }
        }
    }
}

impl Chunker {
    /// True when a match of the configuration starts at `i`.
    #[verifier::loop_isolation(false)]
    fn is_match(&self, i: usize) -> (b: bool)
        requires
            cfg_wf(self.config()),
        ensures
            b == is_match_at(self.text@, self.config(), i as int),
    {
        match &self.pattern {
            Some(p) => {
                if i > self.text.len() || p.len() > self.text.len() - i {
                    return false;
                }
                let mut k: usize = 0;
                while k < p.len()
                    invariant
                        0 <= k <= p@.len(),
                        i + p@.len() <= self.text@.len(),
                        forall|m: int| 0 <= m < k ==> self.text@[i + m] == p@[m],
                    decreases p@.len() - k,
                {
                    if self.text[i + k] != p[k] {
                        proof {
                            let sub = self.text@.subrange(i as int, i + p@.len());
                            assert(sub[k as int] == self.text@[i + k]);
                        }
                        return false;
                    }
                    k += 1;
                }
                proof {
                    assert(self.text@.subrange(i as int, i + p@.len()) =~= p@);
                }
                true
            },
            None => {
                if i >= self.text.len() {
                    return false;
                }
                let b = self.text[i];
                let mut k: usize = 0;
                while k < self.delimiters.len()
                    invariant
                        0 <= k <= self.delimiters@.len(),
                        forall|m: int| 0 <= m < k ==> self.delimiters@[m] != b,
                    decreases self.delimiters@.len() - k,
                {
                    if self.delimiters[k] == b {
                        assert(self.delimiters@.contains(self.text@[i as int]));
                        return true;
                    }
                    k += 1;
                }
                assert(!self.delimiters@.contains(self.text@[i as int]));
                false
            },
        }
    }

    /// Length in bytes of one match.
    fn match_len_exec(&self) -> (l: usize)
        ensures
            l as int == match_len(self.config()),
    {
        match &self.pattern {
            Some(p) => p.len(),
            None => 1,
        }
    }

    /// The cut point for the anchor match at `p`: after the match, or before
    /// it (before its whole run, with `consecutive`) when `prefix` is set.
    #[verifier::loop_isolation(false)]
    fn anchor_cut(&self, p: usize) -> (c: usize)
        requires
            cfg_wf(self.config()),
            p + match_len(self.config()) <= self.text@.len(),
        ensures
            c as int == cut_for_anchor(self.text@, self.config(), p as int),
    {
        let l = self.match_len_exec();
        let n = self.text.len();
        assert(p + l <= n);
        if self.prefix {
            if self.consecutive {
                let mut k = p;
                while k >= l && self.is_match(k - l)
                    invariant
                        0 <= k <= p,
                        run_start(self.text@, self.config(), p as int) == run_start(
                            self.text@,
                            self.config(),
                            k as int,
                        ),
                    decreases k,
                {
                    k = k - l;
                }
                k
            } else {
                p
            }
        } else {
            p + l
        }
    }

    /// The cut point chosen from the current cursor.
    #[verifier::loop_isolation(false)]
    fn compute_cut(&self) -> (cut: usize)
        requires
            self.wf(),
            self.cursor < self.text@.len(),
        ensures
            cut as int == next_cut(self.text@, self.config(), self.cursor as int),
            self.cursor < cut <= self.text@.len(),
    {
        let ghost cfg = self.config();
        let ghost t = self.text@;
        let n = self.text.len();
        let cursor = self.cursor;
        let l = self.match_len_exec();
        proof {
            lemma_next_cut_bounds(t, cfg, cursor as int);
        }
        let end = if self.size >= n - cursor {
            n
        } else {
            cursor + self.size
        };
        assert(end as int == window_end(t, cfg, cursor as int));
        if end == n {
            return n;
        }
        // Backward search: the latest match that lies entirely inside
        // [cursor, end).
        let mut found = false;
        let mut p: usize = 0;
        if l <= end - cursor {
            let hi = end - l;
            let mut j = cursor;
            while j <= hi
                invariant
                    cursor <= j <= hi + 1,
                    found ==> cursor <= p <= hi,
                    last_match_before(t, cfg, cursor as int, j - 1) == (if found {
                        p as int
                    } else {
                        -1
                    }),
                decreases hi + 1 - j,
            {
                if self.is_match(j) {
                    found = true;
                    p = j;
                }
                j += 1;
            }
        }
        assert(last_match_before(t, cfg, cursor as int, end - l) == (if found {
            p as int
        } else {
            -1
        }));
        let raw: usize = if found {
            self.anchor_cut(p)
        } else if self.forward_fallback {
            // Forward search: the first match at or past the window end.
            let mut j = end;
            let mut q: usize = 0;
            let mut q_found = false;
            while !q_found && l <= n - j
                invariant
                    end <= j <= n,
                    first_match_from(t, cfg, end as int) == (if q_found {
                        q as int
                    } else {
                        first_match_from(t, cfg, j as int)
                    }),
                    q_found ==> q + l <= n && is_match_at(t, cfg, q as int),
                decreases n - j + (if q_found {
                    0int
                } else {
                    1int
                }),
            {
                if self.is_match(j) {
                    q_found = true;
                    q = j;
                } else {
                    j += 1;
                }
            }
            if q_found {
                self.anchor_cut(q)
            } else {
                n
            }
        } else {
            end
        };
        assert(raw as int == raw_cut(t, cfg, cursor as int));
        if raw <= cursor {
            if l >= n - cursor {
                n
            } else {
                cursor + l
            }
        } else {
            raw
        }
    }
}

/// A size-bounded chunker over an owned byte buffer.
///
/// The buffer and the configuration are immutable after construction; the only
/// mutable state is the cursor, which starts at 0, advances with every emitted
/// chunk, and is terminal at the buffer length.
pub struct Chunker {
    /// The owned input buffer.
    pub text: Vec<u8>,
    /// Target chunk size in bytes.
    pub size: usize,
    /// Single-byte delimiter set, used when no pattern is configured.
    pub delimiters: Vec<u8>,
    /// Multi-byte pattern; takes precedence over the delimiter set.
    pub pattern: Option<Vec<u8>>,
    /// Attach the match to the next chunk instead of the current one.
    pub prefix: bool,
    /// Treat a run of adjacent matches atomically.
    pub consecutive: bool,
    /// Search past the window for a match instead of cutting hard.
    pub forward_fallback: bool,
    /// Read position: the next chunk starts here.
    pub cursor: usize,
}

impl Chunker {
    /// The configuration of this chunker, as mathematical values.
    pub open spec fn config(&self) -> ChunkConfig {
        ChunkConfig {
            size: self.size as int,
            delimiters: self.delimiters@,
            pattern: match self.pattern {
                Some(p) => Some(p@),
                None => None,
            },
            prefix: self.prefix,
            consecutive: self.consecutive,
            forward_fallback: self.forward_fallback,
        }
    }

    /// Well-formedness: the pattern, if any, is non-empty, and the cursor
    /// lies inside `[0, text.len()]`.
    pub open spec fn wf(&self) -> bool {
        cfg_wf(self.config()) && self.cursor <= self.text@.len()
    }

    /// Both chunkers read the same buffer under the same configuration.
    pub open spec fn same_setup(&self, other: &Chunker) -> bool {
        self.text@ == other.text@ && self.config() == other.config()
    }

    /// A chunker over `text` with the default configuration: target size
    /// 4096, delimiters `\n`, `.`, `?`, no pattern, all flags off.
    pub fn new(text: Vec<u8>) -> (r: Chunker)
        ensures
            r.text@ == text@,
            r.size == crate::DEFAULT_TARGET_SIZE,
            r.delimiters@ == crate::spec_default_delimiters(),
            r.pattern is None,
            !r.prefix,
            !r.consecutive,
            !r.forward_fallback,
            r.cursor == 0,
            r.wf(),
    {
        Chunker {
            text,
            size: crate::DEFAULT_TARGET_SIZE,
            delimiters: crate::default_delimiters(),
            pattern: None,
            prefix: false,
            consecutive: false,
            forward_fallback: false,
            cursor: 0,
        }
    }

    /// Set the target chunk size; every other field is kept.
    pub fn size(self, size: usize) -> (r: Chunker)
        ensures
            r == (Chunker { size, ..self }),
    {
        Chunker { size, ..self }
    }

    /// Set the delimiter set; every other field is kept.
    pub fn delimiters(self, delimiters: Vec<u8>) -> (r: Chunker)
        ensures
            r == (Chunker { delimiters, ..self }),
    {
        Chunker { delimiters, ..self }
    }

    /// Set the pattern, which takes precedence over the delimiter set; every
    /// other field is kept. An empty pattern is rejected at construction and
    /// never reaches a chunker.
    pub fn pattern(self, pattern: Vec<u8>) -> (r: Chunker)
        requires
            pattern@.len() >= 1,
        ensures
            r == (Chunker { pattern: Some(pattern), ..self }),
    {
        Chunker { pattern: Some(pattern), ..self }
    }

    /// Set the `prefix` flag; every other field is kept.
    pub fn prefix(self, prefix: bool) -> (r: Chunker)
        ensures
            r == (Chunker { prefix, ..self }),
    {
        Chunker { prefix, ..self }
    }

    /// Set the `consecutive` flag; every other field is kept.
    pub fn consecutive(self, consecutive: bool) -> (r: Chunker)
        ensures
            r == (Chunker { consecutive, ..self }),
    {
        Chunker { consecutive, ..self }
    }

    /// Set the `forward_fallback` flag; every other field is kept.
    pub fn forward_fallback(self, forward_fallback: bool) -> (r: Chunker)
        ensures
            r == (Chunker { forward_fallback, ..self }),
    {
        Chunker { forward_fallback, ..self }
    }

    /// The next chunk as a fresh byte copy, or `None` once the cursor has
    /// reached the end of the buffer. On success the cursor advances to the
    /// cut point and the returned bytes are exactly `text[cursor..cut]`.
    pub fn next(&mut self) -> (r: Option<Vec<u8>>)
        requires
            old(self).wf(),
        ensures
            final (self).wf(),
            old(self).same_setup(final (self)),
            old(self).cursor as int == old(self).text@.len() ==> r is None && final (self).cursor
                == old(self).cursor,
            (old(self).cursor as int) < old(self).text@.len() ==> {
                &&& r is Some
                &&& final (self).cursor as int == next_cut(
                    old(self).text@,
                    old(self).config(),
                    old(self).cursor as int,
                )
                &&& old(self).cursor < final (self).cursor <= old(self).text@.len()
                &&& r->Some_0@ == old(self).text@.subrange(
                    old(self).cursor as int,
                    final (self).cursor as int,
                )
            },
    {
        if self.cursor >= self.text.len() {
            return None;
        }
        let cut = self.compute_cut();
        let chunk = slice_to_vec(slice_subrange(self.text.as_slice(), self.cursor, cut));
        self.cursor = cut;
        Some(chunk)
    }

    /// Drain the chunker from the current cursor: all remaining offset pairs,
    /// in emission order. Afterwards the cursor sits at the end of the buffer;
    /// `reset` makes the chunker reusable.
    #[verifier::loop_isolation(false)]
    pub fn collect_offsets(&mut self) -> (r: Vec<(usize, usize)>)
        requires
            old(self).wf(),
        ensures
            final (self).wf(),
            old(self).same_setup(final (self)),
            final (self).cursor == final (self).text@.len(),
            pairs_view(r@) == chunk_offsets_from(
                old(self).text@,
                old(self).config(),
                old(self).cursor as int,
            ),
    {
        let ghost t = old(self).text@;
        let ghost cfg = old(self).config();
        let ghost c0 = old(self).cursor as int;
        let mut out: Vec<(usize, usize)> = Vec::new();
        while self.cursor < self.text.len()
            invariant
                self.wf(),
                old(self).same_setup(self),
                c0 <= self.cursor as int,
                chunk_offsets_from(t, cfg, c0) == pairs_view(out@) + chunk_offsets_from(
                    t,
                    cfg,
                    self.cursor as int,
                ),
            decreases self.text@.len() - self.cursor,
        {
            let start = self.cursor;
            let cut = self.compute_cut();
            out.push((start, cut));
            proof {
                lemma_next_cut_bounds(t, cfg, start as int);
                assert(pairs_view(out@) =~= pairs_view(out@.drop_last()).push(
                    (start as int, cut as int),
                ));
                assert(chunk_offsets_from(t, cfg, start as int) == seq![(start as int, cut as int)]
                    + chunk_offsets_from(t, cfg, cut as int));
                assert(pairs_view(out@) + chunk_offsets_from(t, cfg, cut as int)
                    =~= pairs_view(out@.drop_last()) + chunk_offsets_from(t, cfg, start as int));
            }
            self.cursor = cut;
        }
        proof {
            assert(pairs_view(out@) + chunk_offsets_from(t, cfg, self.cursor as int)
                =~= pairs_view(out@));
        }
        out
    }

    /// Return the cursor to the start of the buffer; the buffer and the
    /// configuration are untouched.
    pub fn reset(&mut self)
        requires
            cfg_wf(old(self).config()),
        ensures
            final (self).cursor == 0,
            old(self).same_setup(final (self)),
            final (self).wf(),
    {
        self.cursor = 0;
    }
}

/// One-shot chunking: the offset pairs of a full drain of a delimiter-based
/// chunker over `text` with target size `size`.
pub fn chunk_offsets(text: &[u8], size: usize, delimiters: &[u8]) -> (r: Vec<(usize, usize)>)
    ensures
        pairs_view(r@) == chunk_offsets_from(
            text@,
            ChunkConfig {
                size: size as int,
                delimiters: delimiters@,
                pattern: None,
                prefix: false,
                consecutive: false,
                forward_fallback: false,
            },
            0,
        ),
{
    let mut chunker = Chunker::new(slice_to_vec(text)).size(size).delimiters(
        slice_to_vec(delimiters),
    );
    chunker.collect_offsets()
}

/// Offset pairs as a flat sequence `[start_0, end_0, start_1, end_1, ...]`.
#[verifier::loop_isolation(false)]
pub fn flatten_offsets(offsets: &Vec<(usize, usize)>) -> (r: Vec<usize>)
    ensures
        r@.len() == 2 * offsets@.len(),
        forall|k: int|
            0 <= k < offsets@.len() ==> r@[2 * k] == (#[trigger] offsets@[k]).0 && r@[2 * k + 1]
                == offsets@[k].1,
{
    let mut r: Vec<usize> = Vec::new();
    let mut i: usize = 0;
    while i < offsets.len()
        invariant
            0 <= i <= offsets@.len(),
            r@.len() == 2 * i,
            forall|k: int|
                0 <= k < i ==> r@[2 * k] == (#[trigger] offsets@[k]).0 && r@[2 * k + 1]
                    == offsets@[k].1,
        decreases offsets@.len() - i,
    {
        let (s, e) = offsets[i];
        r.push(s);
        r.push(e);
        i += 1;
    }
    r
}

/// Drained from any cursor, the emitted pairs form a chain that covers the
/// rest of the buffer.
pub proof fn lemma_chunk_offsets_chain(text: Seq<u8>, cfg: ChunkConfig, cursor: int)
    requires
        cfg_wf(cfg),
        0 <= cursor <= text.len(),
    ensures
        chain(chunk_offsets_from(text, cfg, cursor), cursor, text.len() as int),
    decreases text.len() - cursor,
{
    let n = text.len() as int;
    if cursor < n {
        lemma_next_cut_bounds(text, cfg, cursor);
        let cut = next_cut(text, cfg, cursor);
        lemma_chunk_offsets_chain(text, cfg, cut);
        let offs = chunk_offsets_from(text, cfg, cursor);
        assert(offs.drop_first() =~= chunk_offsets_from(text, cfg, cut));
    }
}

/// Coverage: concatenating the chunks of a full drain, in order, reproduces
/// the buffer exactly. This holds for every well-formed configuration.
pub proof fn lemma_chunker_coverage(text: Seq<u8>, cfg: ChunkConfig)
    requires
        cfg_wf(cfg),
    ensures
        concat_segs(text, chunk_offsets_from(text, cfg, 0)) == text,
{
    lemma_chunk_offsets_chain(text, cfg, 0);
    lemma_chain_concat(text, chunk_offsets_from(text, cfg, 0), 0, text.len() as int);
    assert(text.subrange(0, text.len() as int) =~= text);
}

/// Monotonic offsets: every chunk is non-empty, each chunk ends exactly where
/// the next begins, the first starts at the cursor and the last ends at the
/// end of the buffer.
pub proof fn lemma_chunker_monotonic(text: Seq<u8>, cfg: ChunkConfig, cursor: int)
    requires
        cfg_wf(cfg),
        0 <= cursor <= text.len(),
    ensures
        forall|k: int|
            0 <= k < chunk_offsets_from(text, cfg, cursor).len() ==> (#[trigger] chunk_offsets_from(
                text,
                cfg,
                cursor,
            )[k]).0 < chunk_offsets_from(text, cfg, cursor)[k].1,
        forall|k: int|
            0 <= k < chunk_offsets_from(text, cfg, cursor).len() - 1 ==> (
            #[trigger] chunk_offsets_from(text, cfg, cursor)[k]).1 == chunk_offsets_from(
                text,
                cfg,
                cursor,
            )[k + 1].0,
        chunk_offsets_from(text, cfg, cursor).len() > 0 ==> chunk_offsets_from(
            text,
            cfg,
            cursor,
        )[0].0 == cursor && chunk_offsets_from(text, cfg, cursor).last().1 == text.len(),
{
    lemma_chunk_offsets_chain(text, cfg, cursor);
    lemma_chain_props(chunk_offsets_from(text, cfg, cursor), cursor, text.len() as int);
}

/// Without forward fallback a single cut advances by at most the target size.
pub proof fn lemma_next_cut_size(text: Seq<u8>, cfg: ChunkConfig, cursor: int)
    requires
        cfg_wf(cfg),
        !cfg.forward_fallback,
        match_len(cfg) <= cfg.size,
        0 <= cursor < text.len(),
    ensures
        next_cut(text, cfg, cursor) - cursor <= cfg.size,
{
    let n = text.len() as int;
    let end = window_end(text, cfg, cursor);
    let l = match_len(cfg);
    if end != n {
        let p = last_match_before(text, cfg, cursor, end - l);
        lemma_last_match_props(text, cfg, cursor, end - l);
        if p >= 0 {
            lemma_run_start_le(text, cfg, p);
        }
    }
}

/// Size bound: without forward fallback no emitted chunk is longer than the
/// target size (the match length may not exceed the target size; delimiter
/// matches are one byte long, so any positive size qualifies there).
pub proof fn lemma_chunker_size_bound(text: Seq<u8>, cfg: ChunkConfig, cursor: int)
    requires
        cfg_wf(cfg),
        !cfg.forward_fallback,
        match_len(cfg) <= cfg.size,
        0 <= cursor,
    ensures
        forall|k: int|
            0 <= k < chunk_offsets_from(text, cfg, cursor).len() ==> (#[trigger] chunk_offsets_from(
                text,
                cfg,
                cursor,
            )[k]).1 - chunk_offsets_from(text, cfg, cursor)[k].0 <= cfg.size,
    decreases text.len() - cursor,
{
    let n = text.len() as int;
    let offs = chunk_offsets_from(text, cfg, cursor);
    if cursor < n {
        lemma_next_cut_bounds(text, cfg, cursor);
        lemma_next_cut_size(text, cfg, cursor);
        let cut = next_cut(text, cfg, cursor);
        lemma_chunker_size_bound(text, cfg, cut);
        assert(offs.drop_first() =~= chunk_offsets_from(text, cfg, cut));
        assert forall|k: int| 0 <= k < offs.len() implies (#[trigger] offs[k]).1 - offs[k].0
            <= cfg.size by {
            if k > 0 {
                assert(offs[k] == offs.drop_first()[k - 1]);
            }
        }
    }
}

/// Both configurations carry the same pattern and the same size and flags;
/// only the delimiter sets may differ.
pub open spec fn same_but_delimiters(a: ChunkConfig, b: ChunkConfig) -> bool {
    &&& a.pattern is Some
    &&& a.pattern == b.pattern
    &&& a.size == b.size
    &&& a.prefix == b.prefix
    &&& a.consecutive == b.consecutive
    &&& a.forward_fallback == b.forward_fallback
}

proof fn lemma_last_match_congr(text: Seq<u8>, a: ChunkConfig, b: ChunkConfig, lo: int, j: int)
    requires
        same_but_delimiters(a, b),
    ensures
        last_match_before(text, a, lo, j) == last_match_before(text, b, lo, j),
    decreases j + 1,
{
    if !(j < lo || j < 0) && !is_match_at(text, a, j) {
        lemma_last_match_congr(text, a, b, lo, j - 1);
    }
}

proof fn lemma_first_match_congr(text: Seq<u8>, a: ChunkConfig, b: ChunkConfig, j: int)
    requires
        same_but_delimiters(a, b),
    ensures
        first_match_from(text, a, j) == first_match_from(text, b, j),
    decreases text.len() - j,
{
    if j >= 0 && match_len(a) >= 1 && j + match_len(a) <= text.len() && !is_match_at(text, a, j) {
        lemma_first_match_congr(text, a, b, j + 1);
    }
}

proof fn lemma_run_start_congr(text: Seq<u8>, a: ChunkConfig, b: ChunkConfig, p: int)
    requires
        same_but_delimiters(a, b),
    ensures
        run_start(text, a, p) == run_start(text, b, p),
    decreases p,
{
    if match_len(a) >= 1 && p >= 0 && p - match_len(a) >= 0 && is_match_at(
        text,
        a,
        p - match_len(a),
    ) {
        lemma_run_start_congr(text, a, b, p - match_len(a));
    }
}

proof fn lemma_next_cut_congr(text: Seq<u8>, a: ChunkConfig, b: ChunkConfig, cursor: int)
    requires
        same_but_delimiters(a, b),
    ensures
        next_cut(text, a, cursor) == next_cut(text, b, cursor),
{
    let n = text.len() as int;
    let end = window_end(text, a, cursor);
    let l = match_len(a);
    if end != n {
        lemma_last_match_congr(text, a, b, cursor, end - l);
        let p = last_match_before(text, a, cursor, end - l);
        if p >= 0 {
            lemma_run_start_congr(text, a, b, p);
        } else if a.forward_fallback {
            lemma_first_match_congr(text, a, b, end);
            let q = first_match_from(text, a, end);
            if q >= 0 {
                lemma_run_start_congr(text, a, b, q);
            }
        }
    }
}

/// Pattern precedence: when a pattern is configured, the delimiter set has no
/// influence on the emitted offsets.
pub proof fn lemma_pattern_precedence(text: Seq<u8>, a: ChunkConfig, b: ChunkConfig, cursor: int)
    requires
        same_but_delimiters(a, b),
    ensures
        chunk_offsets_from(text, a, cursor) == chunk_offsets_from(text, b, cursor),
    decreases text.len() - cursor,
{
    let n = text.len() as int;
    if 0 <= cursor < n {
        lemma_next_cut_congr(text, a, b, cursor);
        let c = next_cut(text, a, cursor);
        let cut = if c <= cursor {
            cursor + 1
        } else if c > n {
            n
        } else {
            c
        };
        lemma_pattern_precedence(text, a, b, cut);
    }
}

/// Idempotence of reset: a drain after `reset()` depends only on the buffer
/// and the configuration, so two reset-and-collect rounds on chunkers with
/// the same setup return the same offsets.
pub proof fn lemma_reset_collect_idempotent(a: Chunker, b: Chunker)
    requires
        a.same_setup(&b),
    ensures
        chunk_offsets_from(a.text@, a.config(), 0) == chunk_offsets_from(b.text@, b.config(), 0),
{
}

} // verus!
