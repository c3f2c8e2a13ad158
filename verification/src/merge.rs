//! Token-budget merge planning.
//!
//! Given per-segment token counts and a budget, the planner packs consecutive
//! segments into chunks: each chunk takes as many following segments as fit
//! under the budget, and a single segment that alone exceeds the budget forms
//! a chunk of its own. The planner reports end-exclusive segment indices and
//! per-chunk token totals; a materializing variant also concatenates the
//! segment bytes of each chunk.

use crate::splitter::pats_view;
use vstd::prelude::*;

verus! {

/// The whitespace surcharge: one synthetic token per segment when
/// `combine_whitespace` is set, to account for a joining separator.
pub open spec fn surcharge(combine_whitespace: bool) -> int {
    if combine_whitespace {
        1
    } else {
        0
    }
}

/// Prefix sum of the first `i` token counts, each raised by the surcharge
/// `w`: the cost of the segments before index `i`.
pub open spec fn spec_csum(t: Seq<usize>, w: int, i: int) -> int
    decreases i,
{
    if i <= 0 {
        0
    } else {
        spec_csum(t, w, i - 1) + t[i - 1] + w
    }
}

/// The last segment index the chunk starting at `cur` can still take: from
/// `e` on, segments are added while the running cost stays within the budget.
pub open spec fn grow(t: Seq<usize>, w: int, b: int, cur: int, e: int) -> int
    decreases t.len() - e,
{
    if e < 0 || e >= t.len() {
        e
    } else if spec_csum(t, w, e + 1) - spec_csum(t, w, cur) <= b {
        grow(t, w, b, cur, e + 1)
    } else {
        e
    }
}

/// The merge plan from segment index `cur` on: one `(end, tokens)` pair per
/// chunk, where `end` is the end-exclusive segment index and `tokens` the
/// chunk's token total. Every chunk takes at least one segment, so a single
/// segment whose cost alone exceeds the budget forms an over-budget chunk of
/// its own.
///
/// The clamp on the step merely makes the definition total; the grown end
/// always lands in `[cur + 1, len]` (see `lemma_grow_bounds`).
pub open spec fn spec_merge_plan(t: Seq<usize>, w: int, b: int, cur: int) -> Seq<(int, int)>
    decreases t.len() - cur,
{
    if cur < 0 || cur >= t.len() {
        Seq::empty()
    } else {
        let e0 = grow(t, w, b, cur, cur + 1);
        let e = if e0 <= cur {
            cur + 1
        } else if e0 > t.len() {
            t.len() as int
        } else {
            e0
        };
        seq![(e, spec_csum(t, w, e) - spec_csum(t, w, cur))] + spec_merge_plan(t, w, b, e)
    }
}

/// The bytes of the segments `[s, e)`, concatenated without separator.
pub open spec fn concat_splits(sv: Seq<Seq<u8>>, s: int, e: int) -> Seq<u8>
    decreases e - s,
{
    if s < 0 || s >= e {
        Seq::empty()
    } else {
        sv[s] + concat_splits(sv, s + 1, e)
    }
}

/// Prefix sums never decrease when counts and surcharge are non-negative.
pub proof fn lemma_csum_mono(t: Seq<usize>, w: int, i: int, j: int)
    requires
        w >= 0,
        0 <= i <= j <= t.len(),
    ensures
        0 <= spec_csum(t, w, i) <= spec_csum(t, w, j),
    decreases j,
{
    if i < j {
        lemma_csum_mono(t, w, i, j - 1);
    } else if i == j && j > 0 {
        lemma_csum_mono(t, w, i - 1, j - 1);
    }
}

/// The grown end lies between its start and the number of segments.
pub proof fn lemma_grow_bounds(t: Seq<usize>, w: int, b: int, cur: int, e: int)
    requires
        0 <= e <= t.len(),
    ensures
        e <= grow(t, w, b, cur, e) <= t.len(),
    decreases t.len() - e,
{
    if e < t.len() && spec_csum(t, w, e + 1) - spec_csum(t, w, cur) <= b {
        lemma_grow_bounds(t, w, b, cur, e + 1);
    }
}

/// `grow` is pinned down by its stopping conditions: any point whose
/// predecessors all fit the budget and whose successor does not is the grown
/// end.
pub proof fn lemma_grow_fix(t: Seq<usize>, w: int, b: int, cur: int, e: int, x: int)
    requires
        0 <= e <= x <= t.len(),
        forall|j: int| e < j <= x ==> spec_csum(t, w, j) - spec_csum(t, w, cur) <= b,
        x == t.len() || spec_csum(t, w, x + 1) - spec_csum(t, w, cur) > b,
    ensures
        grow(t, w, b, cur, e) == x,
    decreases x - e,
{
    if e < x {
        assert(spec_csum(t, w, e + 1) - spec_csum(t, w, cur) <= b);
        lemma_grow_fix(t, w, b, cur, e + 1, x);
    }
}

/// A chunk that grew past its first segment fits the budget.
pub proof fn lemma_grow_budget(t: Seq<usize>, w: int, b: int, cur: int, e: int)
    requires
        0 <= e <= t.len(),
    ensures
        grow(t, w, b, cur, e) == e || spec_csum(t, w, grow(t, w, b, cur, e)) - spec_csum(t, w, cur)
            <= b,
    decreases t.len() - e,
{
    if e < t.len() && spec_csum(t, w, e + 1) - spec_csum(t, w, cur) <= b {
        lemma_grow_budget(t, w, b, cur, e + 1);
    }
}

/// The plan read as a chain of chunks: each chunk ends past where it began,
/// its token count is the cost of its segments, it fits the budget unless it
/// holds exactly one segment, and the last chunk ends at the segment count.
pub open spec fn plan_wf(plan: Seq<(int, int)>, t: Seq<usize>, w: int, b: int, cur: int) -> bool
    decreases plan.len(),
{
    if plan.len() == 0 {
        cur == t.len()
    } else {
        &&& cur < plan[0].0 <= t.len()
        &&& plan[0].1 == spec_csum(t, w, plan[0].0) - spec_csum(t, w, cur)
        &&& (plan[0].1 <= b || plan[0].0 == cur + 1)
        &&& plan_wf(plan.drop_first(), t, w, b, plan[0].0)
    }
}

/// The merge plan is well formed.
pub proof fn lemma_merge_plan_wf(t: Seq<usize>, w: int, b: int, cur: int)
    requires
        0 <= cur <= t.len(),
    ensures
        plan_wf(spec_merge_plan(t, w, b, cur), t, w, b, cur),
    decreases t.len() - cur,
{
    if cur < t.len() {
        lemma_grow_bounds(t, w, b, cur, cur + 1);
        lemma_grow_budget(t, w, b, cur, cur + 1);
        let e = grow(t, w, b, cur, cur + 1);
        lemma_merge_plan_wf(t, w, b, e);
        assert(spec_merge_plan(t, w, b, cur).drop_first() =~= spec_merge_plan(t, w, b, e));
    }
}

/// Total number of segments a plan covers.
pub open spec fn plan_span(plan: Seq<(int, int)>, cur: int) -> int
    decreases plan.len(),
{
    if plan.len() == 0 {
        0
    } else {
        (plan[0].0 - cur) + plan_span(plan.drop_first(), plan[0].0)
    }
}

/// Pointwise reading of a well-formed plan: chunk ends are strictly
/// increasing, each chunk's token count is the cost of exactly its segments,
/// and the chunk sizes add up to the whole input — every segment lies in
/// exactly one chunk.
pub proof fn lemma_plan_wf_props(plan: Seq<(int, int)>, t: Seq<usize>, w: int, b: int, cur: int)
    requires
        plan_wf(plan, t, w, b, cur),
    ensures
        forall|k: int|
            0 <= k < plan.len() ==> (if k == 0 {
                cur
            } else {
                plan[k - 1].0
            }) < (#[trigger] plan[k]).0 <= t.len(),
        forall|k: int|
            0 <= k < plan.len() ==> (#[trigger] plan[k]).1 == spec_csum(t, w, plan[k].0)
                - spec_csum(
                t,
                w,
                if k == 0 {
                    cur
                } else {
                    plan[k - 1].0
                },
            ),
        forall|k: int|
            0 <= k < plan.len() ==> (#[trigger] plan[k]).1 <= b || plan[k].0 == (if k == 0 {
                cur
            } else {
                plan[k - 1].0
            }) + 1,
        plan.len() > 0 ==> plan.last().0 == t.len(),
        plan.len() == 0 ==> cur == t.len(),
        plan_span(plan, cur) == t.len() - cur,
    decreases plan.len(),
{
    if plan.len() > 0 {
        lemma_plan_wf_props(plan.drop_first(), t, w, b, plan[0].0);
        assert forall|k: int|
            0 <= k < plan.len() implies (if k == 0 {
            cur
        } else {
            plan[k - 1].0
        }) < (#[trigger] plan[k]).0 <= t.len() by {
            if k > 0 {
                assert(plan[k] == plan.drop_first()[k - 1]);
                if k > 1 {
                    assert(plan[k - 1] == plan.drop_first()[k - 2]);
                }
            }
        }
        assert forall|k: int|
            0 <= k < plan.len() implies (#[trigger] plan[k]).1 == spec_csum(t, w, plan[k].0)
            - spec_csum(
            t,
            w,
            if k == 0 {
                cur
            } else {
                plan[k - 1].0
            },
        ) by {
            if k > 0 {
                assert(plan[k] == plan.drop_first()[k - 1]);
                if k > 1 {
                    assert(plan[k - 1] == plan.drop_first()[k - 2]);
                }
            }
        }
        assert forall|k: int|
            0 <= k < plan.len() implies (#[trigger] plan[k]).1 <= b || plan[k].0 == (if k == 0 {
            cur
        } else {
            plan[k - 1].0
        }) + 1 by {
            if k > 0 {
                assert(plan[k] == plan.drop_first()[k - 1]);
                if k > 1 {
                    assert(plan[k - 1] == plan.drop_first()[k - 2]);
                }
            }
        }
        if plan.len() > 1 {
            assert(plan.last() == plan.drop_first().last());
        }
    }
}

/// Budget law: every planned chunk fits the budget or holds exactly one
/// segment whose cost alone meets or exceeds it.
pub proof fn lemma_merge_budget(t: Seq<usize>, w: int, b: int)
    requires
        0 <= t.len(),
    ensures
        forall|k: int|
            0 <= k < spec_merge_plan(t, w, b, 0).len() ==> (#[trigger] spec_merge_plan(
                t,
                w,
                b,
                0,
            )[k]).1 <= b || spec_merge_plan(t, w, b, 0)[k].0 == (if k == 0 {
                0
            } else {
                spec_merge_plan(t, w, b, 0)[k - 1].0
            }) + 1,
{
    lemma_merge_plan_wf(t, w, b, 0);
    lemma_plan_wf_props(spec_merge_plan(t, w, b, 0), t, w, b, 0);
}

/// Totality law: chunk ends are strictly increasing, the last chunk ends at
/// the segment count, and the chunk sizes add up to the whole input — every
/// segment lies in exactly one chunk.
pub proof fn lemma_merge_total(t: Seq<usize>, w: int, b: int)
    ensures
        forall|k: int|
            0 <= k < spec_merge_plan(t, w, b, 0).len() ==> (if k == 0 {
                0
            } else {
                spec_merge_plan(t, w, b, 0)[k - 1].0
            }) < (#[trigger] spec_merge_plan(t, w, b, 0)[k]).0 <= t.len(),
        spec_merge_plan(t, w, b, 0).len() > 0 ==> spec_merge_plan(t, w, b, 0).last().0 == t.len(),
        spec_merge_plan(t, w, b, 0).len() == 0 ==> t.len() == 0,
        plan_span(spec_merge_plan(t, w, b, 0), 0) == t.len(),
{
    lemma_merge_plan_wf(t, w, b, 0);
    lemma_plan_wf_props(spec_merge_plan(t, w, b, 0), t, w, b, 0);
}

/// The view of planned ends and token counts, paired up.
pub open spec fn plan_view(ends: Seq<usize>, toks: Seq<usize>) -> Seq<(int, int)> {
    Seq::new(ends.len(), |i: int| (ends[i] as int, toks[i] as int))
}

/// Binary search over the monotone prefix-sum array: the largest index `end`
/// in `(cur, len)` whose cost `c[end] - c[cur]` still fits the budget, or
/// `cur + 1` when even the first segment alone exceeds it.
#[verifier::loop_isolation(false)]
fn find_end(c: &Vec<usize>, cur: usize, b: usize) -> (end: usize)
    requires
        cur as int + 1 < c@.len(),
        forall|i: int, j: int| 0 <= i <= j < c@.len() ==> #[trigger] c@[i] <= #[trigger] c@[j],
    ensures
        cur < end < c@.len(),
        forall|j: int| cur + 1 < j <= end ==> c@[j] - c@[cur as int] <= b,
        end as int == c@.len() - 1 || c@[end as int + 1] - c@[cur as int] > b,
{
    let m = c.len() - 1;
    let mut lo: usize = cur + 1;
    let mut hi: usize = m + 1;
    while lo < hi
        invariant
            cur + 1 <= lo <= hi <= m + 1,
            forall|j: int| cur + 1 <= j < lo ==> c@[j] - c@[cur as int] <= b,
            forall|j: int| hi <= j <= m ==> c@[j] - c@[cur as int] > b,
        decreases hi - lo,
    {
        let mid = lo + (hi - lo) / 2;
        if c[mid] - c[cur] > b {
            hi = mid;
        } else {
            lo = mid + 1;
        }
    }
    if lo > cur + 1 {
        lo - 1
    } else {
        cur + 1
    }
}

/// Compute the merge plan: the end-exclusive segment index and the token
/// total of every chunk, in order.
#[verifier::loop_isolation(false)]
fn merge_plan(t: &Vec<usize>, b: usize, combine_whitespace: bool) -> (r: (Vec<usize>, Vec<usize>))
    requires
        b >= 1,
        spec_csum(t@, surcharge(combine_whitespace), t@.len() as int) <= usize::MAX,
    ensures
        plan_view(r.0@, r.1@) == spec_merge_plan(
            t@,
            surcharge(combine_whitespace),
            b as int,
            0,
        ),
        r.0@.len() == r.1@.len(),
{
    let ghost w = surcharge(combine_whitespace);
    let m = t.len();
    let wv: usize = if combine_whitespace {
        1
    } else {
        0
    };
    // prefix sums: c[i] is the cost of the first i segments
    let mut c: Vec<usize> = Vec::new();
    c.push(0);
    let mut i: usize = 0;
    while i < m
        invariant
            0 <= i <= m,
            c@.len() == i + 1,
            forall|j: int| 0 <= j <= i ==> #[trigger] c@[j] as int == spec_csum(t@, w, j),
        decreases m - i,
    {
        proof {
            lemma_csum_mono(t@, w, i as int + 1, m as int);
            lemma_csum_mono(t@, w, i as int, i as int + 1);
        }
        let next = c[i] + t[i] + wv;
        c.push(next);
        i += 1;
    }
    proof {
        assert forall|x: int, y: int| 0 <= x <= y < c@.len() implies #[trigger] c@[x] <= #[trigger] c@[y] by {
            lemma_csum_mono(t@, w, x, y);
        }
    }
    let mut ends: Vec<usize> = Vec::new();
    let mut toks: Vec<usize> = Vec::new();
    let mut cur: usize = 0;
    proof {
        assert(plan_view(ends@, toks@) =~= Seq::<(int, int)>::empty());
        assert(Seq::<(int, int)>::empty() + spec_merge_plan(t@, w, b as int, 0)
            =~= spec_merge_plan(t@, w, b as int, 0));
    }
    while cur < m
        invariant
            0 <= cur <= m,
            ends@.len() == toks@.len(),
            spec_merge_plan(t@, w, b as int, 0) == plan_view(ends@, toks@) + spec_merge_plan(
                t@,
                w,
                b as int,
                cur as int,
            ),
        decreases m - cur,
    {
        let end = find_end(&c, cur, b);
        let tok = c[end] - c[cur];
        proof {
            assert forall|j: int| cur as int + 1 < j <= end as int implies spec_csum(t@, w, j)
                - spec_csum(t@, w, cur as int) <= b as int by {
                assert(c@[j] - c@[cur as int] <= b);
            }
            lemma_grow_fix(t@, w, b as int, cur as int, cur as int + 1, end as int);
            assert(tok as int == spec_csum(t@, w, end as int) - spec_csum(t@, w, cur as int));
        }
        ends.push(end);
        toks.push(tok);
        proof {
            assert(plan_view(ends@, toks@) =~= plan_view(ends@.drop_last(), toks@.drop_last()).push(
                (end as int, tok as int),
            ));
            assert(spec_merge_plan(t@, w, b as int, cur as int) == seq![(end as int, tok as int)]
                + spec_merge_plan(t@, w, b as int, end as int));
            assert(plan_view(ends@, toks@) + spec_merge_plan(t@, w, b as int, end as int)
                =~= plan_view(ends@.drop_last(), toks@.drop_last()) + spec_merge_plan(
                t@,
                w,
                b as int,
                cur as int,
            ));
        }
        cur = end;
    }
    proof {
        assert(plan_view(ends@, toks@) + spec_merge_plan(t@, w, b as int, cur as int)
            =~= plan_view(ends@, toks@));
    }
    (ends, toks)
}

/// The end-exclusive segment index of every chunk of the merge plan.
pub fn find_merge_indices(token_counts: &Vec<usize>, chunk_size: usize, combine_whitespace: bool)
    -> (r: Vec<usize>)
    requires
        chunk_size >= 1,
        spec_csum(token_counts@, surcharge(combine_whitespace), token_counts@.len() as int)
            <= usize::MAX,
    ensures
        r@.len() == spec_merge_plan(
            token_counts@,
            surcharge(combine_whitespace),
            chunk_size as int,
            0,
        ).len(),
        forall|k: int|
            0 <= k < r@.len() ==> #[trigger] r@[k] as int == spec_merge_plan(
                token_counts@,
                surcharge(combine_whitespace),
                chunk_size as int,
                0,
            )[k].0,
{
    let r = merge_plan(token_counts, chunk_size, combine_whitespace);
    proof {
        assert forall|k: int| 0 <= k < r.0@.len() implies #[trigger] r.0@[k] as int
            == spec_merge_plan(
            token_counts@,
            surcharge(combine_whitespace),
            chunk_size as int,
            0,
        )[k].0 by {
            assert(plan_view(r.0@, r.1@)[k].0 == r.0@[k] as int);
        }
    }
    r.0
}

/// The merge plan as a flat sequence `[end_0, tokens_0, end_1, tokens_1, ...]`.
#[verifier::loop_isolation(false)]
pub fn merge_splits_flat(token_counts: &Vec<usize>, chunk_size: usize, combine_whitespace: bool)
    -> (r: Vec<usize>)
    requires
        chunk_size >= 1,
        spec_csum(token_counts@, surcharge(combine_whitespace), token_counts@.len() as int)
            <= usize::MAX,
    ensures
        r@.len() == 2 * spec_merge_plan(
            token_counts@,
            surcharge(combine_whitespace),
            chunk_size as int,
            0,
        ).len(),
        forall|k: int|
            0 <= k < spec_merge_plan(
                token_counts@,
                surcharge(combine_whitespace),
                chunk_size as int,
                0,
            ).len() ==> r@[2 * k] as int == (#[trigger] spec_merge_plan(
                token_counts@,
                surcharge(combine_whitespace),
                chunk_size as int,
                0,
            )[k]).0 && r@[2 * k + 1] as int == spec_merge_plan(
                token_counts@,
                surcharge(combine_whitespace),
                chunk_size as int,
                0,
            )[k].1,
{
    let ghost plan = spec_merge_plan(
        token_counts@,
        surcharge(combine_whitespace),
        chunk_size as int,
        0,
    );
    let (ends, toks) = merge_plan(token_counts, chunk_size, combine_whitespace);
    let mut r: Vec<usize> = Vec::new();
    let mut k: usize = 0;
    while k < ends.len()
        invariant
            0 <= k <= ends@.len(),
            r@.len() == 2 * k,
            forall|j: int|
                0 <= j < k ==> r@[2 * j] as int == (#[trigger] plan[j]).0 && r@[2 * j + 1] as int
                    == plan[j].1,
        decreases ends@.len() - k,
    {
        proof {
            assert(plan_view(ends@, toks@)[k as int] == (ends@[k as int] as int, toks@[k as int] as int));
        }
        r.push(ends[k]);
        r.push(toks[k]);
        k += 1;
    }
    r
}

/// Concatenating the bytes of segments `[s, e)` one segment at a time.
proof fn lemma_concat_snoc(sv: Seq<Seq<u8>>, s: int, j: int)
    requires
        0 <= s <= j,
    ensures
        concat_splits(sv, s, j + 1) == concat_splits(sv, s, j) + sv[j],
    decreases j - s,
{
    if s == j {
        assert(concat_splits(sv, s + 1, s + 1) =~= Seq::<u8>::empty());
        assert(concat_splits(sv, s, s + 1) =~= sv[s]);
        assert(concat_splits(sv, s, s) =~= Seq::<u8>::empty());
        assert(concat_splits(sv, s, s) + sv[s] =~= sv[s]);
    } else {
        lemma_concat_snoc(sv, s + 1, j);
        assert(sv[s] + (concat_splits(sv, s + 1, j) + sv[j]) =~= (sv[s] + concat_splits(
            sv,
            s + 1,
            j,
        )) + sv[j]);
    }
}

/// Concatenate the segments of each chunk: `merged[k]` is the bytes of
/// segments `[ends[k-1], ends[k])` (with `ends[-1]` read as 0), without
/// separator.
fn concat_chunks(splits: &Vec<Vec<u8>>, ends: &Vec<usize>) -> (merged: Vec<Vec<u8>>)
    requires
        forall|k: int|
            0 <= k < ends@.len() ==> (if k == 0 {
                0int
            } else {
                ends@[k - 1] as int
            }) <= #[trigger] ends@[k] as int && ends@[k] as int <= splits@.len(),
    ensures
        merged@.len() == ends@.len(),
        forall|k: int|
            0 <= k < ends@.len() ==> (#[trigger] merged@[k])@ == concat_splits(
                pats_view(splits@),
                if k == 0 {
                    0int
                } else {
                    ends@[k - 1] as int
                },
                ends@[k] as int,
            ),
{
    let ghost sv = pats_view(splits@);
    let mut merged: Vec<Vec<u8>> = Vec::new();
    let mut prev: usize = 0;
    let mut k: usize = 0;
    while k < ends.len()
        invariant
            0 <= k <= ends@.len(),
            merged@.len() == k,
            prev as int == (if k == 0 {
                0int
            } else {
                ends@[k - 1] as int
            }),
            prev <= splits@.len(),
            sv == pats_view(splits@),
            forall|j: int|
                0 <= j < ends@.len() ==> (if j == 0 {
                    0int
                } else {
                    ends@[j - 1] as int
                }) <= #[trigger] ends@[j] as int && ends@[j] as int <= splits@.len(),
            forall|j: int|
                0 <= j < k ==> (#[trigger] merged@[j])@ == concat_splits(
                    sv,
                    if j == 0 {
                        0int
                    } else {
                        ends@[j - 1] as int
                    },
                    ends@[j] as int,
                ),
        decreases ends@.len() - k,
    {
        let end = ends[k];
        let mut piece: Vec<u8> = Vec::new();
        let mut j = prev;
        proof {
            assert(piece@ =~= concat_splits(sv, prev as int, prev as int));
        }
        while j < end
            invariant
                prev <= j <= end,
                end <= splits@.len(),
                sv == pats_view(splits@),
                piece@ == concat_splits(sv, prev as int, j as int),
            decreases end - j,
        {
            piece.extend_from_slice(splits[j].as_slice());
            proof {
                lemma_concat_snoc(sv, prev as int, j as int);
                assert(sv[j as int] == splits@[j as int]@);
            }
            j += 1;
        }
        merged.push(piece);
        prev = end;
        k += 1;
    }
    merged
}

/// The materializing merge: the segments of each planned chunk concatenated
/// without separator, beside the chunk's token total. Both returned vectors
/// have one entry per chunk, in order.
pub fn merge_splits(
    splits: &Vec<Vec<u8>>,
    token_counts: &Vec<usize>,
    chunk_size: usize,
    combine_whitespace: bool,
) -> (r: (Vec<Vec<u8>>, Vec<usize>))
    requires
        splits@.len() == token_counts@.len(),
        chunk_size >= 1,
        spec_csum(token_counts@, surcharge(combine_whitespace), token_counts@.len() as int)
            <= usize::MAX,
    ensures
        r.0@.len() == spec_merge_plan(
            token_counts@,
            surcharge(combine_whitespace),
            chunk_size as int,
            0,
        ).len(),
        r.1@.len() == r.0@.len(),
        forall|k: int|
            0 <= k < r.0@.len() ==> (#[trigger] r.0@[k])@ == concat_splits(
                pats_view(splits@),
                if k == 0 {
                    0int
                } else {
                    spec_merge_plan(
                        token_counts@,
                        surcharge(combine_whitespace),
                        chunk_size as int,
                        0,
                    )[k - 1].0
                },
                spec_merge_plan(
                    token_counts@,
                    surcharge(combine_whitespace),
                    chunk_size as int,
                    0,
                )[k].0,
            ) && r.1@[k] as int == spec_merge_plan(
                token_counts@,
                surcharge(combine_whitespace),
                chunk_size as int,
                0,
            )[k].1,
{
    let ghost w = surcharge(combine_whitespace);
    let ghost plan = spec_merge_plan(token_counts@, w, chunk_size as int, 0);
    let (ends, toks) = merge_plan(token_counts, chunk_size, combine_whitespace);
    proof {
        lemma_merge_plan_wf(token_counts@, w, chunk_size as int, 0);
        lemma_plan_wf_props(plan, token_counts@, w, chunk_size as int, 0);
        assert forall|k: int|
            0 <= k < ends@.len() implies (if k == 0 {
            0int
        } else {
            ends@[k - 1] as int
        }) <= #[trigger] ends@[k] as int && ends@[k] as int <= splits@.len() by {
            assert(plan_view(ends@, toks@)[k] == (ends@[k] as int, toks@[k] as int));
            assert(plan[k].0 == ends@[k] as int);
            if k > 0 {
                assert(plan_view(ends@, toks@)[k - 1] == (ends@[k - 1] as int, toks@[k - 1] as int));
                assert(plan[k - 1].0 == ends@[k - 1] as int);
            }
        }
    }
    let merged = concat_chunks(splits, &ends);
    proof {
        assert forall|k: int|
            0 <= k < merged@.len() implies (#[trigger] merged@[k])@ == concat_splits(
            pats_view(splits@),
            if k == 0 {
                0int
            } else {
                plan[k - 1].0
            },
            plan[k].0,
        ) && toks@[k] as int == plan[k].1 by {
            assert(plan_view(ends@, toks@)[k] == (ends@[k] as int, toks@[k] as int));
            if k > 0 {
                assert(plan_view(ends@, toks@)[k - 1] == (ends@[k - 1] as int, toks@[k - 1] as int));
            }
        }
    }
    (merged, toks)
}

} // verus!
