//! Delimiter and pattern splitting.
//!
//! The splitter scans the buffer left to right for matches of a pattern set
//! (or of a set of single-byte delimiters), places a segment boundary at each
//! match according to the attachment policy, and finally merges segments that
//! are shorter than a minimum byte length. It is a one-shot transformation:
//! the result is a pure function of the buffer and the configuration.

use crate::chunker::bytes_match_at;
use crate::chunker::pairs_view;
use crate::segments::chain;
use crate::segments::concat_segs;
use crate::segments::lemma_chain_concat;
use crate::segments::lemma_chain_props;
use crate::segments::lemma_sorted_props;
use crate::segments::lemma_sorted_widen;
use crate::segments::sorted;
use vstd::prelude::*;

verus! {

/// Where the matched bytes belong: to the segment that ends at the match
/// (`Prev`), to the segment that starts at it (`Next`), or to no segment at
/// all (`Omit`, which drops the matched bytes from the output).
#[derive(Clone, Copy, Debug, PartialEq, Eq, Structural)]
pub enum IncludeDelim {
    /// The match ends the current segment and belongs to it.
    Prev,
    /// The match starts the next segment and belongs to it.
    Next,
    /// The match separates segments and belongs to neither.
    Omit,
}

/// Why a pattern set was rejected at construction.
#[derive(Clone, Copy, Debug, PartialEq, Eq, Structural)]
pub enum PatternError {
    /// The pattern set holds no pattern at all.
    EmptySet,
    /// The pattern set holds an empty pattern.
    EmptyPattern,
}

/// The views of a vector of patterns.
pub open spec fn pats_view(pats: Seq<Vec<u8>>) -> Seq<Seq<u8>> {
    pats.map_values(|p: Vec<u8>| p@)
}

/// Each delimiter byte, read as a one-byte pattern.
pub open spec fn singleton_pats(delims: Seq<u8>) -> Seq<Seq<u8>> {
    delims.map_values(|b: u8| seq![b])
}

/// Length of the longest pattern that matches at position `i`, or 0 when none
/// does. When two patterns match at the same position the longer one wins.
pub open spec fn longest_match_at(text: Seq<u8>, pats: Seq<Seq<u8>>, i: int) -> int
    decreases pats.len(),
{
    if pats.len() == 0 {
        0
    } else {
        let first: int = if bytes_match_at(text, pats[0], i) {
            pats[0].len() as int
        } else {
            0
        };
        let rest = longest_match_at(text, pats.drop_first(), i);
        if first >= rest {
            first
        } else {
            rest
        }
    }
}

/// All matches of the pattern set in `text` from position `i` on, in order,
/// as `(position, length)` pairs: leftmost first, longest at equal positions,
/// and non-overlapping (the scan resumes right after each match).
///
/// The clamp on the step merely makes the definition total; a match never
/// reaches past the buffer (see `lemma_longest_match_le`).
pub open spec fn split_hits(text: Seq<u8>, pats: Seq<Seq<u8>>, i: int) -> Seq<(int, int)>
    decreases text.len() - i,
{
    let n = text.len() as int;
    if i < 0 || i >= n {
        Seq::empty()
    } else {
        let l = longest_match_at(text, pats, i);
        if l >= 1 {
            let step = if l > n - i {
                n - i
            } else {
                l
            };
            seq![(i, l)] + split_hits(text, pats, i + step)
        } else {
            split_hits(text, pats, i + 1)
        }
    }
}

/// The hits are ordered, non-empty, non-overlapping, and lie in `[lo, n)`.
pub open spec fn hits_wf(hits: Seq<(int, int)>, lo: int, n: int) -> bool
    decreases hits.len(),
{
    if hits.len() == 0 {
        true
    } else {
        &&& lo <= hits[0].0
        &&& hits[0].1 >= 1
        &&& hits[0].0 + hits[0].1 <= n
        &&& hits_wf(hits.drop_first(), hits[0].0 + hits[0].1, n)
    }
}

/// The segments induced by the ordered match list under an attachment policy,
/// before the minimum-length merge. `prev` is where the pending segment
/// starts; zero-length segments are dropped.
pub open spec fn spec_segments(
    hits: Seq<(int, int)>,
    policy: IncludeDelim,
    prev: int,
    n: int,
) -> Seq<(int, int)>
    decreases hits.len(),
{
    if hits.len() == 0 {
        if prev < n {
            seq![(prev, n)]
        } else {
            Seq::empty()
        }
    } else {
        let p = hits[0].0;
        let l = hits[0].1;
        let cut = match policy {
            IncludeDelim::Prev => p + l,
            IncludeDelim::Next => p,
            IncludeDelim::Omit => p,
        };
        let nxt = match policy {
            IncludeDelim::Prev => p + l,
            IncludeDelim::Next => p,
            IncludeDelim::Omit => p + l,
        };
        let rest = spec_segments(hits.drop_first(), policy, nxt, n);
        if prev < cut {
            seq![(prev, cut)] + rest
        } else {
            rest
        }
    }
}

/// One step of the minimum-length merge: `cur` is the accumulating segment,
/// `acc` the finished ones. While `cur` is shorter than `mc` it absorbs the
/// next segment (together with any gap between the two); a final undersized
/// accumulator is merged backwards into its predecessor instead.
pub open spec fn min_merge_rec(
    segs: Seq<(int, int)>,
    mc: int,
    cur: (int, int),
    acc: Seq<(int, int)>,
) -> Seq<(int, int)>
    decreases segs.len(),
{
    if segs.len() == 0 {
        if cur.1 - cur.0 < mc && acc.len() > 0 {
            acc.update(acc.len() - 1, (acc.last().0, cur.1))
        } else {
            acc.push(cur)
        }
    } else if cur.1 - cur.0 < mc {
        min_merge_rec(segs.drop_first(), mc, (cur.0, segs[0].1), acc)
    } else {
        min_merge_rec(segs.drop_first(), mc, segs[0], acc.push(cur))
    }
}

/// The minimum-length merge: segments shorter than `mc` bytes absorb their
/// right neighbour; an undersized final segment is merged into its
/// predecessor.
pub open spec fn min_merge(segs: Seq<(int, int)>, mc: int) -> Seq<(int, int)> {
    if segs.len() == 0 {
        Seq::empty()
    } else {
        min_merge_rec(segs.drop_first(), mc, segs[0], Seq::empty())
    }
}

/// The offsets the splitter emits: scan for matches, place boundaries under
/// the policy, drop empty segments, merge undersized ones.
pub open spec fn spec_split(
    text: Seq<u8>,
    pats: Seq<Seq<u8>>,
    policy: IncludeDelim,
    mc: int,
) -> Seq<(int, int)> {
    min_merge(
        spec_segments(split_hits(text, pats, 0), policy, 0, text.len() as int),
        mc,
    )
}

/// A match never reaches past the end of the buffer.
pub proof fn lemma_longest_match_le(text: Seq<u8>, pats: Seq<Seq<u8>>, i: int)
    requires
        0 <= i <= text.len(),
    ensures
        0 <= longest_match_at(text, pats, i) <= text.len() - i,
    decreases pats.len(),
{
    if pats.len() > 0 {
        lemma_longest_match_le(text, pats.drop_first(), i);
    }
}

/// The scan yields well-formed hits.
pub proof fn lemma_split_hits_wf(text: Seq<u8>, pats: Seq<Seq<u8>>, i: int)
    requires
        0 <= i,
    ensures
        hits_wf(split_hits(text, pats, i), i, text.len() as int),
    decreases text.len() - i,
{
    let n = text.len() as int;
    if i < n {
        let l = longest_match_at(text, pats, i);
        lemma_longest_match_le(text, pats, i);
        if l >= 1 {
            lemma_split_hits_wf(text, pats, i + l);
            assert(split_hits(text, pats, i).drop_first() =~= split_hits(text, pats, i + l));
        } else {
            lemma_split_hits_wf(text, pats, i + 1);
            lemma_hits_wf_widen(split_hits(text, pats, i + 1), i + 1, i, n);
        }
    }
}

/// A weaker lower bound keeps a hit list well formed.
pub proof fn lemma_hits_wf_widen(hits: Seq<(int, int)>, lo: int, lo2: int, n: int)
    requires
        hits_wf(hits, lo, n),
        lo2 <= lo,
    ensures
        hits_wf(hits, lo2, n),
{
}

/// Under `Prev` or `Next` the segments before the merge form a chain: the
/// matched bytes stay with one of their neighbours and nothing is lost.
pub proof fn lemma_segments_chain(hits: Seq<(int, int)>, policy: IncludeDelim, prev: int, n: int)
    requires
        policy != IncludeDelim::Omit,
        hits_wf(hits, prev, n),
        0 <= prev <= n,
    ensures
        chain(spec_segments(hits, policy, prev, n), prev, n),
    decreases hits.len(),
{
    if hits.len() == 0 {
        if prev < n {
            assert(spec_segments(hits, policy, prev, n) =~= seq![(prev, n)]);
            assert(spec_segments(hits, policy, prev, n)[0] == (prev, n));
            assert(spec_segments(hits, policy, prev, n).drop_first() =~= Seq::<(int, int)>::empty());
            assert(chain(Seq::<(int, int)>::empty(), n, n));
            assert(chain(spec_segments(hits, policy, prev, n).drop_first(), n, n));
        }
    } else {
        let p = hits[0].0;
        let l = hits[0].1;
        let cut = match policy {
            IncludeDelim::Prev => p + l,
            IncludeDelim::Next => p,
            IncludeDelim::Omit => p,
        };
        if policy == IncludeDelim::Next {
            lemma_hits_wf_widen(hits.drop_first(), p + l, p, n);
        }
        lemma_segments_chain(hits.drop_first(), policy, cut, n);
        let rest = spec_segments(hits.drop_first(), policy, cut, n);
        if prev < cut {
            assert((seq![(prev, cut)] + rest)[0] == (prev, cut));
            assert((seq![(prev, cut)] + rest).drop_first() =~= rest);
            assert(chain((seq![(prev, cut)] + rest).drop_first(), cut, n));
        }
    }
}

/// Appending a touching segment extends a chain.
proof fn lemma_chain_push(acc: Seq<(int, int)>, lo: int, m: int, seg: (int, int))
    requires
        chain(acc, lo, m),
        seg.0 == m,
        seg.0 < seg.1,
    ensures
        chain(acc.push(seg), lo, seg.1),
    decreases acc.len(),
{
    assert(acc.push(seg)[0] == if acc.len() == 0 { seg } else { acc[0] });
    if acc.len() == 0 {
        assert(acc.push(seg).drop_first() =~= Seq::<(int, int)>::empty());
        assert(chain(Seq::<(int, int)>::empty(), seg.1, seg.1));
        assert(chain(acc.push(seg).drop_first(), acc.push(seg)[0].1, seg.1));
    } else {
        lemma_chain_push(acc.drop_first(), acc[0].1, m, seg);
        assert(acc.push(seg).drop_first() =~= acc.drop_first().push(seg));
        assert(chain(acc.push(seg).drop_first(), acc.push(seg)[0].1, seg.1));
    }
}

/// Stretching the last segment of a chain to a later end keeps it a chain.
proof fn lemma_chain_extend_last(acc: Seq<(int, int)>, lo: int, m: int, e: int)
    requires
        chain(acc, lo, m),
        acc.len() > 0,
        e > acc.last().0,
    ensures
        chain(acc.update(acc.len() - 1, (acc.last().0, e)), lo, e),
    decreases acc.len(),
{
    let upd = acc.update(acc.len() - 1, (acc.last().0, e));
    if acc.len() == 1 {
        assert(upd[0] == (acc.last().0, e));
        assert(acc.last() == acc[0]);
        assert(upd.drop_first() =~= Seq::<(int, int)>::empty());
        assert(chain(Seq::<(int, int)>::empty(), e, e));
        assert(chain(upd.drop_first(), upd[0].1, e));
    } else {
        assert(upd[0] == acc[0]);
        assert(acc.drop_first().last() == acc.last());
        lemma_chain_extend_last(acc.drop_first(), acc[0].1, m, e);
        assert(upd.drop_first() =~= acc.drop_first().update(acc.len() - 2, (acc.last().0, e)));
        assert(chain(upd.drop_first(), upd[0].1, e));
    }
}

/// The minimum-length merge of a chain is a chain over the same range.
proof fn lemma_min_merge_rec_chain(
    segs: Seq<(int, int)>,
    mc: int,
    cur: (int, int),
    acc: Seq<(int, int)>,
    lo: int,
    hi: int,
)
    requires
        chain(acc, lo, cur.0),
        cur.0 < cur.1,
        chain(segs, cur.1, hi),
    ensures
        chain(min_merge_rec(segs, mc, cur, acc), lo, hi),
    decreases segs.len(),
{
    if segs.len() == 0 {
        if cur.1 - cur.0 < mc && acc.len() > 0 {
            lemma_chain_props(acc, lo, cur.0);
            lemma_chain_extend_last(acc, lo, cur.0, cur.1);
        } else {
            lemma_chain_push(acc, lo, cur.0, cur);
        }
    } else if cur.1 - cur.0 < mc {
        lemma_min_merge_rec_chain(segs.drop_first(), mc, (cur.0, segs[0].1), acc, lo, hi);
    } else {
        lemma_chain_push(acc, lo, cur.0, cur);
        lemma_min_merge_rec_chain(segs.drop_first(), mc, segs[0], acc.push(cur), lo, hi);
    }
}

/// The minimum-length merge preserves the chain property, hence coverage.
pub proof fn lemma_min_merge_chain(segs: Seq<(int, int)>, mc: int, lo: int, hi: int)
    requires
        chain(segs, lo, hi),
    ensures
        chain(min_merge(segs, mc), lo, hi),
{
    if segs.len() > 0 {
        lemma_min_merge_rec_chain(segs.drop_first(), mc, segs[0], Seq::empty(), lo, hi);
    }
}

/// With `Prev` or `Next` the split offsets form a chain from 0 to the buffer
/// length, whatever the minimum length: every byte lies in exactly one
/// segment.
pub proof fn lemma_split_chain(text: Seq<u8>, pats: Seq<Seq<u8>>, policy: IncludeDelim, mc: int)
    requires
        policy != IncludeDelim::Omit,
    ensures
        chain(spec_split(text, pats, policy, mc), 0, text.len() as int),
{
    lemma_split_hits_wf(text, pats, 0);
    lemma_segments_chain(split_hits(text, pats, 0), policy, 0, text.len() as int);
    lemma_min_merge_chain(
        spec_segments(split_hits(text, pats, 0), policy, 0, text.len() as int),
        mc,
        0,
        text.len() as int,
    );
}

/// Coverage: with `Prev` or `Next`, concatenating the split segments in order
/// reproduces the buffer exactly.
pub proof fn lemma_split_coverage(text: Seq<u8>, pats: Seq<Seq<u8>>, policy: IncludeDelim, mc: int)
    requires
        policy != IncludeDelim::Omit,
    ensures
        concat_segs(text, spec_split(text, pats, policy, mc)) == text,
{
    lemma_split_chain(text, pats, policy, mc);
    lemma_chain_concat(text, spec_split(text, pats, policy, mc), 0, text.len() as int);
    assert(text.subrange(0, text.len() as int) =~= text);
}

/// Monotonic offsets: with `Prev` or `Next` every split segment is non-empty,
/// each segment ends exactly where the next begins, the first starts at 0 and
/// the last ends at the buffer length.
pub proof fn lemma_split_monotonic(text: Seq<u8>, pats: Seq<Seq<u8>>, policy: IncludeDelim, mc: int)
    requires
        policy != IncludeDelim::Omit,
    ensures
        forall|k: int|
            0 <= k < spec_split(text, pats, policy, mc).len() ==> (#[trigger] spec_split(
                text,
                pats,
                policy,
                mc,
            )[k]).0 < spec_split(text, pats, policy, mc)[k].1,
        forall|k: int|
            0 <= k < spec_split(text, pats, policy, mc).len() - 1 ==> (#[trigger] spec_split(
                text,
                pats,
                policy,
                mc,
            )[k]).1 == spec_split(text, pats, policy, mc)[k + 1].0,
        spec_split(text, pats, policy, mc).len() > 0 ==> spec_split(text, pats, policy, mc)[0].0
            == 0 && spec_split(text, pats, policy, mc).last().1 == text.len(),
{
    lemma_split_chain(text, pats, policy, mc);
    lemma_chain_props(spec_split(text, pats, policy, mc), 0, text.len() as int);
}

/// True when pattern `pat` occurs in `text` at position `i`.
#[verifier::loop_isolation(false)]
fn pat_match(text: &[u8], pat: &Vec<u8>, i: usize) -> (b: bool)
    ensures
        b == bytes_match_at(text@, pat@, i as int),
{
    let n = text.len();
    if i > n || pat.len() > n - i {
        return false;
    }
    let mut k: usize = 0;
    while k < pat.len()
        invariant
            0 <= k <= pat@.len(),
            i + pat@.len() <= text@.len(),
            forall|m: int| 0 <= m < k ==> text@[i + m] == pat@[m],
        decreases pat@.len() - k,
    {
        if *vstd::slice::slice_index_get(text, i + k) != pat[k] {
            proof {
                let sub = text@.subrange(i as int, i + pat@.len());
                assert(sub[k as int] == text@[i + k]);
            }
            return false;
        }
        k += 1;
    }
    proof {
        assert(text@.subrange(i as int, i + pat@.len()) =~= pat@);
    }
    true
}

/// Length of the longest pattern that matches at `i`, or 0 when none does.
#[verifier::loop_isolation(false)]
fn longest_at(text: &[u8], pats: &Vec<Vec<u8>>, i: usize) -> (l: usize)
    requires
        i as int <= text@.len(),
    ensures
        l as int == longest_match_at(text@, pats_view(pats@), i as int),
        i as int + l <= text@.len(),
{
    let ghost pv = pats_view(pats@);
    let mut best: usize = 0;
    let mut k: usize = 0;
    proof {
        assert(pv.skip(0) =~= pv);
        lemma_longest_match_le(text@, pv, i as int);
    }
    while k < pats.len()
        invariant
            0 <= k <= pats@.len(),
            i as int + best <= text@.len(),
            longest_match_at(text@, pv, i as int) == (if best as int >= longest_match_at(
                text@,
                pv.skip(k as int),
                i as int,
            ) {
                best as int
            } else {
                longest_match_at(text@, pv.skip(k as int), i as int)
            }),
        decreases pats@.len() - k,
    {
        proof {
            assert(pv.skip(k as int)[0] == pats@[k as int]@);
            assert(pv.skip(k as int).drop_first() =~= pv.skip(k as int + 1));
        }
        if pat_match(text, &pats[k], i) {
            let cand = pats[k].len();
            if cand > best {
                best = cand;
            }
        }
        k += 1;
    }
    proof {
        assert(pv.skip(pats@.len() as int) =~= Seq::<Seq<u8>>::empty());
    }
    best
}

/// All matches in `text`, leftmost first, longest at equal positions,
/// non-overlapping.
#[verifier::loop_isolation(false)]
fn scan_hits(text: &[u8], pats: &Vec<Vec<u8>>) -> (hits: Vec<(usize, usize)>)
    ensures
        pairs_view(hits@) == split_hits(text@, pats_view(pats@), 0),
{
    let ghost pv = pats_view(pats@);
    let n = text.len();
    let mut hits: Vec<(usize, usize)> = Vec::new();
    let mut i: usize = 0;
    proof {
        assert(pairs_view(hits@) =~= Seq::<(int, int)>::empty());
        assert(Seq::<(int, int)>::empty() + split_hits(text@, pv, 0) =~= split_hits(text@, pv, 0));
    }
    while i < n
        invariant
            0 <= i <= n,
            split_hits(text@, pv, 0) == pairs_view(hits@) + split_hits(text@, pv, i as int),
        decreases n - i,
    {
        let l = longest_at(text, pats, i);
        if l >= 1 {
            hits.push((i, l));
            proof {
                assert(pairs_view(hits@) =~= pairs_view(hits@.drop_last()).push(
                    (i as int, l as int),
                ));
                assert(split_hits(text@, pv, i as int) == seq![(i as int, l as int)] + split_hits(
                    text@,
                    pv,
                    i as int + l,
                ));
                assert(pairs_view(hits@) + split_hits(text@, pv, i as int + l) =~= pairs_view(
                    hits@.drop_last(),
                ) + split_hits(text@, pv, i as int));
            }
            i += l;
        } else {
            i += 1;
        }
    }
    proof {
        assert(pairs_view(hits@) + split_hits(text@, pv, i as int) =~= pairs_view(hits@));
    }
    hits
}

/// The segments induced by the hits under the attachment policy, with empty
/// segments dropped.
#[verifier::loop_isolation(false)]
fn segments_from_hits(hits: &Vec<(usize, usize)>, policy: IncludeDelim, n: usize) -> (segs: Vec<
    (usize, usize),
>)
    requires
        hits_wf(pairs_view(hits@), 0, n as int),
    ensures
        pairs_view(segs@) == spec_segments(pairs_view(hits@), policy, 0, n as int),
{
    let ghost hv = pairs_view(hits@);
    let mut segs: Vec<(usize, usize)> = Vec::new();
    let mut prev: usize = 0;
    let mut k: usize = 0;
    proof {
        assert(hv.skip(0) =~= hv);
        assert(pairs_view(segs@) =~= Seq::<(int, int)>::empty());
        assert(Seq::<(int, int)>::empty() + spec_segments(hv, policy, 0, n as int)
            =~= spec_segments(hv, policy, 0, n as int));
    }
    while k < hits.len()
        invariant
            0 <= k <= hits@.len(),
            prev <= n,
            hits_wf(hv.skip(k as int), prev as int, n as int),
            spec_segments(hv, policy, 0, n as int) == pairs_view(segs@) + spec_segments(
                hv.skip(k as int),
                policy,
                prev as int,
                n as int,
            ),
        decreases hits@.len() - k,
    {
        proof {
            assert(hv.skip(k as int)[0] == (hits@[k as int].0 as int, hits@[k as int].1 as int));
            assert(hv.skip(k as int).drop_first() =~= hv.skip(k as int + 1));
        }
        let (p, l) = hits[k];
        let cut: usize = match policy {
            IncludeDelim::Prev => p + l,
            IncludeDelim::Next => p,
            IncludeDelim::Omit => p,
        };
        let nxt: usize = match policy {
            IncludeDelim::Prev => p + l,
            IncludeDelim::Next => p,
            IncludeDelim::Omit => p + l,
        };
        if prev < cut {
            segs.push((prev, cut));
            proof {
                assert(pairs_view(segs@) =~= pairs_view(segs@.drop_last()).push(
                    (prev as int, cut as int),
                ));
                assert(pairs_view(segs@) + spec_segments(
                    hv.skip(k as int + 1),
                    policy,
                    nxt as int,
                    n as int,
                ) =~= pairs_view(segs@.drop_last()) + (seq![(prev as int, cut as int)]
                    + spec_segments(hv.skip(k as int + 1), policy, nxt as int, n as int)));
            }
        }
        proof {
            lemma_hits_wf_widen(hv.skip(k as int + 1), p as int + l, nxt as int, n as int);
        }
        prev = nxt;
        k += 1;
    }
    proof {
        assert(hv.skip(hits@.len() as int) =~= Seq::<(int, int)>::empty());
    }
    if prev < n {
        segs.push((prev, n));
        proof {
            assert(pairs_view(segs@) =~= pairs_view(segs@.drop_last()).push((prev as int, n as int)));
            assert(pairs_view(segs@.drop_last()) + seq![(prev as int, n as int)] =~= pairs_view(
                segs@,
            ));
        }
    }
    segs
}

/// The minimum-length merge over concrete offsets.
#[verifier::loop_isolation(false)]
fn min_merge_exec(segs: &Vec<(usize, usize)>, mc: usize) -> (out: Vec<(usize, usize)>)
    ensures
        pairs_view(out@) == min_merge(pairs_view(segs@), mc as int),
{
    let ghost sv = pairs_view(segs@);
    let mut out: Vec<(usize, usize)> = Vec::new();
    if segs.len() == 0 {
        proof {
            assert(pairs_view(out@) =~= min_merge(sv, mc as int));
        }
        return out;
    }
    let mut cur: (usize, usize) = segs[0];
    let mut k: usize = 1;
    proof {
        assert(sv[0] == (segs@[0].0 as int, segs@[0].1 as int));
        assert(sv.skip(1) =~= sv.drop_first());
        assert(pairs_view(out@) =~= Seq::<(int, int)>::empty());
    }
    while k < segs.len()
        invariant
            1 <= k <= segs@.len(),
            min_merge(sv, mc as int) == min_merge_rec(
                sv.skip(k as int),
                mc as int,
                (cur.0 as int, cur.1 as int),
                pairs_view(out@),
            ),
        decreases segs@.len() - k,
    {
        proof {
            assert(sv.skip(k as int)[0] == (segs@[k as int].0 as int, segs@[k as int].1 as int));
            assert(sv.skip(k as int).drop_first() =~= sv.skip(k as int + 1));
        }
        let ghost cur0 = (cur.0 as int, cur.1 as int);
        let ghost acc0 = pairs_view(out@);
        let short = cur.1 < cur.0 || cur.1 - cur.0 < mc;
        let (s, e) = segs[k];
        if short {
            cur = (cur.0, e);
            proof {
                assert(min_merge_rec(sv.skip(k as int), mc as int, cur0, acc0) == min_merge_rec(
                    sv.skip(k as int + 1),
                    mc as int,
                    (cur.0 as int, cur.1 as int),
                    acc0,
                ));
            }
        } else {
            out.push(cur);
            proof {
                assert(pairs_view(out@) =~= acc0.push(cur0));
                assert(min_merge_rec(sv.skip(k as int), mc as int, cur0, acc0) == min_merge_rec(
                    sv.skip(k as int + 1),
                    mc as int,
                    sv.skip(k as int)[0],
                    acc0.push(cur0),
                ));
            }
            cur = (s, e);
        }
        k += 1;
    }
    proof {
        assert(sv.skip(segs@.len() as int) =~= Seq::<(int, int)>::empty());
    }
    let short = cur.1 < cur.0 || cur.1 - cur.0 < mc;
    if short && out.len() > 0 {
        let ghost before = pairs_view(out@);
        let last = match out.pop() {
            Some(x) => x,
            None => (0, 0),
        };
        out.push((last.0, cur.1));
        proof {
            assert(before.last() == (last.0 as int, last.1 as int));
            assert(pairs_view(out@) =~= before.update(
                before.len() - 1,
                (before.last().0, cur.1 as int),
            ));
        }
    } else {
        out.push(cur);
        proof {
            assert(pairs_view(out@) =~= pairs_view(out@.drop_last()).push(
                (cur.0 as int, cur.1 as int),
            ));
        }
    }
    out
}

/// Split `text` at the given pattern set under the attachment policy, then
/// merge segments shorter than `min_chars` bytes.
fn split_with(text: &[u8], pats: &Vec<Vec<u8>>, policy: IncludeDelim, min_chars: usize) -> (r: Vec<
    (usize, usize),
>)
    ensures
        pairs_view(r@) == spec_split(text@, pats_view(pats@), policy, min_chars as int),
{
    let hits = scan_hits(text, pats);
    proof {
        lemma_split_hits_wf(text@, pats_view(pats@), 0);
    }
    let segs = segments_from_hits(&hits, policy, text.len());
    min_merge_exec(&segs, min_chars)
}

/// Split `text` at every occurrence of any of the delimiter bytes. Each
/// delimiter is a one-byte pattern; `include_delim` says which neighbour the
/// matched byte belongs to, and segments shorter than `min_chars` bytes are
/// merged with their neighbour.
#[verifier::loop_isolation(false)]
pub fn split_offsets(
    text: &[u8],
    delimiters: &[u8],
    include_delim: IncludeDelim,
    min_chars: usize,
) -> (r: Vec<(usize, usize)>)
    ensures
        pairs_view(r@) == spec_split(
            text@,
            singleton_pats(delimiters@),
            include_delim,
            min_chars as int,
        ),
{
    let mut pats: Vec<Vec<u8>> = Vec::new();
    let mut k: usize = 0;
    while k < delimiters.len()
        invariant
            0 <= k <= delimiters@.len(),
            pats@.len() == k,
            forall|m: int| 0 <= m < k ==> (#[trigger] pats@[m])@ == seq![delimiters@[m]],
        decreases delimiters@.len() - k,
    {
        let mut p: Vec<u8> = Vec::new();
        p.push(*vstd::slice::slice_index_get(delimiters, k));
        proof {
            assert(p@ =~= seq![delimiters@[k as int]]);
        }
        pats.push(p);
        k += 1;
    }
    proof {
        assert(pats_view(pats@) =~= singleton_pats(delimiters@));
    }
    split_with(text, &pats, include_delim, min_chars)
}

/// A compiled pattern splitter: the pattern set is validated once and reused
/// across calls to [`PatternSplitter::split`].
pub struct PatternSplitter {
    /// The validated pattern set: non-empty, with no empty pattern.
    pub patterns: Vec<Vec<u8>>,
}

impl PatternSplitter {
    /// The pattern set holds at least one pattern and no empty one.
    pub open spec fn wf(&self) -> bool {
        self.patterns@.len() > 0 && forall|k: int|
            0 <= k < self.patterns@.len() ==> (#[trigger] self.patterns@[k])@.len() >= 1
    }

    /// Compile a pattern set. An empty set and an empty pattern are the only
    /// rejected inputs, in that order of checking.
    #[verifier::loop_isolation(false)]
    pub fn new(patterns: Vec<Vec<u8>>) -> (r: Result<PatternSplitter, PatternError>)
        ensures
            patterns@.len() == 0 ==> r is Err && r->Err_0 == PatternError::EmptySet,
            patterns@.len() > 0 && (exists|k: int|
                0 <= k < patterns@.len() && (#[trigger] patterns@[k])@.len() == 0) ==> r is Err
                && r->Err_0 == PatternError::EmptyPattern,
            patterns@.len() > 0 && (forall|k: int|
                0 <= k < patterns@.len() ==> (#[trigger] patterns@[k])@.len() >= 1) ==> r is Ok
                && r->Ok_0.patterns == patterns && r->Ok_0.wf(),
    {
        if patterns.len() == 0 {
            return Err(PatternError::EmptySet);
        }
        let mut k: usize = 0;
        while k < patterns.len()
            invariant
                0 <= k <= patterns@.len(),
                forall|m: int| 0 <= m < k ==> (#[trigger] patterns@[m])@.len() >= 1,
            decreases patterns@.len() - k,
        {
            if patterns[k].len() == 0 {
                return Err(PatternError::EmptyPattern);
            }
            k += 1;
        }
        Ok(PatternSplitter { patterns })
    }

    /// Split `text` at every occurrence of any pattern of the set. Longer
    /// patterns win at equal positions; matches never overlap.
    pub fn split(&self, text: &[u8], include_delim: IncludeDelim, min_chars: usize) -> (r: Vec<
        (usize, usize),
    >)
        ensures
            pairs_view(r@) == spec_split(
                text@,
                pats_view(self.patterns@),
                include_delim,
                min_chars as int,
            ),
    {
        split_with(text, &self.patterns, include_delim, min_chars)
    }
}

/// One-shot pattern splitting: validate the pattern set as
/// [`PatternSplitter::new`] does, then split. `Err` comes exactly on an empty
/// set (`EmptySet`) or a set holding an empty pattern (`EmptyPattern`).
#[verifier::loop_isolation(false)]
pub fn split_pattern_offsets(
    text: &[u8],
    patterns: &Vec<Vec<u8>>,
    include_delim: IncludeDelim,
    min_chars: usize,
) -> (r: Result<Vec<(usize, usize)>, PatternError>)
    ensures
        patterns@.len() == 0 ==> r is Err && r->Err_0 == PatternError::EmptySet,
        patterns@.len() > 0 && (exists|k: int|
            0 <= k < patterns@.len() && (#[trigger] patterns@[k])@.len() == 0) ==> r is Err
            && r->Err_0 == PatternError::EmptyPattern,
        patterns@.len() > 0 && (forall|k: int|
            0 <= k < patterns@.len() ==> (#[trigger] patterns@[k])@.len() >= 1) ==> r is Ok
            && pairs_view(r->Ok_0@) == spec_split(
            text@,
            pats_view(patterns@),
            include_delim,
            min_chars as int,
        ),
{
    if patterns.len() == 0 {
        return Err(PatternError::EmptySet);
    }
    let mut k: usize = 0;
    while k < patterns.len()
        invariant
            0 <= k <= patterns@.len(),
            forall|m: int| 0 <= m < k ==> (#[trigger] patterns@[m])@.len() >= 1,
        decreases patterns@.len() - k,
    {
        if patterns[k].len() == 0 {
            return Err(PatternError::EmptyPattern);
        }
        k += 1;
    }
    Ok(split_with(text, patterns, include_delim, min_chars))
}

/// Under every policy the segments before the merge are ordered and within
/// bounds; under `Omit` they may leave gaps where matched bytes fell.
pub proof fn lemma_segments_sorted(hits: Seq<(int, int)>, policy: IncludeDelim, prev: int, n: int)
    requires
        hits_wf(hits, prev, n),
        0 <= prev <= n,
    ensures
        sorted(spec_segments(hits, policy, prev, n), prev, n),
    decreases hits.len(),
{
    if hits.len() == 0 {
        if prev < n {
            assert(spec_segments(hits, policy, prev, n)[0] == (prev, n));
            assert(spec_segments(hits, policy, prev, n).drop_first() =~= Seq::<(int, int)>::empty());
            assert(sorted(spec_segments(hits, policy, prev, n).drop_first(), n, n));
        }
    } else {
        let p = hits[0].0;
        let l = hits[0].1;
        let cut = match policy {
            IncludeDelim::Prev => p + l,
            IncludeDelim::Next => p,
            IncludeDelim::Omit => p,
        };
        let nxt = match policy {
            IncludeDelim::Prev => p + l,
            IncludeDelim::Next => p,
            IncludeDelim::Omit => p + l,
        };
        if policy == IncludeDelim::Next {
            lemma_hits_wf_widen(hits.drop_first(), p + l, nxt, n);
        }
        lemma_segments_sorted(hits.drop_first(), policy, nxt, n);
        let rest = spec_segments(hits.drop_first(), policy, nxt, n);
        if prev < cut {
            assert((seq![(prev, cut)] + rest)[0] == (prev, cut));
            assert((seq![(prev, cut)] + rest).drop_first() =~= rest);
            lemma_sorted_widen(rest, nxt, cut, n);
            assert(sorted((seq![(prev, cut)] + rest).drop_first(), cut, n));
        } else {
            lemma_sorted_widen(rest, nxt, prev, n);
        }
    }
}

/// Appending a later segment keeps a sequence sorted.
proof fn lemma_sorted_push(acc: Seq<(int, int)>, lo: int, m: int, seg: (int, int), hi: int)
    requires
        sorted(acc, lo, m),
        lo <= m <= seg.0,
        seg.0 < seg.1,
        seg.1 <= hi,
    ensures
        sorted(acc.push(seg), lo, hi),
    decreases acc.len(),
{
    assert(acc.push(seg)[0] == if acc.len() == 0 {
        seg
    } else {
        acc[0]
    });
    if acc.len() == 0 {
        assert(acc.push(seg).drop_first() =~= Seq::<(int, int)>::empty());
        assert(sorted(acc.push(seg).drop_first(), seg.1, hi));
    } else {
        lemma_sorted_push(acc.drop_first(), acc[0].1, m, seg, hi);
        assert(acc.push(seg).drop_first() =~= acc.drop_first().push(seg));
        assert(sorted(acc.push(seg).drop_first(), acc.push(seg)[0].1, hi));
    }
}

/// Stretching the last segment of a sorted sequence to a later end keeps it
/// sorted.
proof fn lemma_sorted_extend_last(acc: Seq<(int, int)>, lo: int, m: int, e: int, hi: int)
    requires
        sorted(acc, lo, m),
        acc.len() > 0,
        acc.last().0 < e,
        m <= hi,
        e <= hi,
    ensures
        sorted(acc.update(acc.len() - 1, (acc.last().0, e)), lo, hi),
    decreases acc.len(),
{
    let upd = acc.update(acc.len() - 1, (acc.last().0, e));
    if acc.len() == 1 {
        assert(upd[0] == (acc.last().0, e));
        assert(acc.last() == acc[0]);
        assert(upd.drop_first() =~= Seq::<(int, int)>::empty());
        assert(sorted(upd.drop_first(), upd[0].1, hi));
    } else {
        assert(upd[0] == acc[0]);
        assert(acc.drop_first().last() == acc.last());
        lemma_sorted_extend_last(acc.drop_first(), acc[0].1, m, e, hi);
        assert(upd.drop_first() =~= acc.drop_first().update(acc.len() - 2, (acc.last().0, e)));
        assert(sorted(upd.drop_first(), upd[0].1, hi));
    }
}

/// The minimum-length merge of a sorted sequence is sorted over the same
/// bounds.
proof fn lemma_min_merge_rec_sorted(
    segs: Seq<(int, int)>,
    mc: int,
    cur: (int, int),
    acc: Seq<(int, int)>,
    lo: int,
    hi: int,
)
    requires
        sorted(acc, lo, cur.0),
        lo <= cur.0 < cur.1,
        cur.1 <= hi,
        sorted(segs, cur.1, hi),
    ensures
        sorted(min_merge_rec(segs, mc, cur, acc), lo, hi),
    decreases segs.len(),
{
    if segs.len() == 0 {
        if cur.1 - cur.0 < mc && acc.len() > 0 {
            lemma_sorted_props(acc, lo, cur.0);
            lemma_sorted_extend_last(acc, lo, cur.0, cur.1, hi);
        } else {
            lemma_sorted_push(acc, lo, cur.0, cur, hi);
        }
    } else if cur.1 - cur.0 < mc {
        lemma_min_merge_rec_sorted(segs.drop_first(), mc, (cur.0, segs[0].1), acc, lo, hi);
    } else {
        lemma_sorted_push(acc, lo, cur.0, cur, segs[0].0);
        lemma_min_merge_rec_sorted(segs.drop_first(), mc, segs[0], acc.push(cur), lo, hi);
    }
}

/// The minimum-length merge preserves order and bounds.
pub proof fn lemma_min_merge_sorted(segs: Seq<(int, int)>, mc: int, lo: int, hi: int)
    requires
        sorted(segs, lo, hi),
        lo <= hi,
    ensures
        sorted(min_merge(segs, mc), lo, hi),
{
    if segs.len() > 0 {
        lemma_min_merge_rec_sorted(segs.drop_first(), mc, segs[0], Seq::empty(), lo, hi);
    }
}

/// Monotonic offsets under every policy, `Omit` included: every split segment
/// is non-empty and lies within the buffer, and each one ends no later than
/// the next begins. (Under `Omit` the matched bytes fall in the gaps.)
pub proof fn lemma_split_sorted(text: Seq<u8>, pats: Seq<Seq<u8>>, policy: IncludeDelim, mc: int)
    ensures
        forall|k: int|
            0 <= k < spec_split(text, pats, policy, mc).len() ==> 0 <= (#[trigger] spec_split(
                text,
                pats,
                policy,
                mc,
            )[k]).0 && spec_split(text, pats, policy, mc)[k].0 < spec_split(
                text,
                pats,
                policy,
                mc,
            )[k].1 && spec_split(text, pats, policy, mc)[k].1 <= text.len(),
        forall|k: int|
            0 <= k < spec_split(text, pats, policy, mc).len() - 1 ==> (#[trigger] spec_split(
                text,
                pats,
                policy,
                mc,
            )[k]).1 <= spec_split(text, pats, policy, mc)[k + 1].0,
{
    lemma_split_hits_wf(text, pats, 0);
    lemma_segments_sorted(split_hits(text, pats, 0), policy, 0, text.len() as int);
    lemma_min_merge_sorted(
        spec_segments(split_hits(text, pats, 0), policy, 0, text.len() as int),
        mc,
        0,
        text.len() as int,
    );
    lemma_sorted_props(spec_split(text, pats, policy, mc), 0, text.len() as int);
}

} // verus!
