//! Common facts about sequences of half-open offset pairs.
//!
//! Both the chunker and the splitter emit `(start, end)` pairs. `chain`
//! captures the gapless case: consecutive segments touch and together cover
//! `[lo, hi)`. `sorted` captures the weaker case allowed by the discarding
//! attachment policy: segments are non-empty, ordered and within bounds, but
//! may leave gaps where matches were dropped.

use vstd::prelude::*;

verus! {

/// The segments are non-empty and contiguous: the first starts at `lo`, each
/// next one starts where the previous ended, and the last ends at `hi` (an
/// empty sequence covers the empty range `lo == hi`).
pub open spec fn chain(segs: Seq<(int, int)>, lo: int, hi: int) -> bool
    decreases segs.len(),
{
    if segs.len() == 0 {
        lo == hi
    } else {
        &&& segs[0].0 == lo
        &&& segs[0].0 < segs[0].1
        &&& chain(segs.drop_first(), segs[0].1, hi)
    }
}

/// The segments are non-empty, ordered and lie within `[lo, hi)`, but may
/// leave gaps.
pub open spec fn sorted(segs: Seq<(int, int)>, lo: int, hi: int) -> bool
    decreases segs.len(),
{
    if segs.len() == 0 {
        true
    } else {
        &&& lo <= segs[0].0
        &&& segs[0].0 < segs[0].1
        &&& segs[0].1 <= hi
        &&& sorted(segs.drop_first(), segs[0].1, hi)
    }
}

/// The bytes of `text` named by the segments, in order.
pub open spec fn concat_segs(text: Seq<u8>, segs: Seq<(int, int)>) -> Seq<u8>
    decreases segs.len(),
{
    if segs.len() == 0 {
        Seq::empty()
    } else {
        text.subrange(segs[0].0, segs[0].1) + concat_segs(text, segs.drop_first())
    }
}

/// A weaker lower bound keeps a sequence sorted.
pub proof fn lemma_sorted_widen(segs: Seq<(int, int)>, lo: int, lo2: int, hi: int)
    requires
        sorted(segs, lo, hi),
        lo2 <= lo,
    ensures
        sorted(segs, lo2, hi),
{
    if segs.len() > 0 {
        assert(lo2 <= segs[0].0);
    }
}

/// Concatenating the bytes of a chain reproduces exactly the covered range.
pub proof fn lemma_chain_concat(text: Seq<u8>, segs: Seq<(int, int)>, lo: int, hi: int)
    requires
        chain(segs, lo, hi),
        0 <= lo,
        hi <= text.len(),
    ensures
        concat_segs(text, segs) == text.subrange(lo, hi),
    decreases segs.len(),
{
    if segs.len() == 0 {
        assert(concat_segs(text, segs) =~= text.subrange(lo, hi));
    } else {
        let mid = segs[0].1;
        lemma_chain_le(segs.drop_first(), mid, hi);
        lemma_chain_concat(text, segs.drop_first(), mid, hi);
        assert(text.subrange(lo, mid) + text.subrange(mid, hi) =~= text.subrange(lo, hi));
    }
}

/// The lower bound of a chain never exceeds its upper bound.
pub proof fn lemma_chain_le(segs: Seq<(int, int)>, lo: int, hi: int)
    requires
        chain(segs, lo, hi),
    ensures
        lo <= hi,
    decreases segs.len(),
{
    if segs.len() > 0 {
        lemma_chain_le(segs.drop_first(), segs[0].1, hi);
    }
}

/// Pointwise reading of a chain: every segment is non-empty, each segment
/// ends where the next begins, the first starts at `lo` and the last ends at
/// `hi`.
pub proof fn lemma_chain_props(segs: Seq<(int, int)>, lo: int, hi: int)
    requires
        chain(segs, lo, hi),
    ensures
        forall|k: int| 0 <= k < segs.len() ==> #[trigger] segs[k].0 < segs[k].1,
        forall|k: int| 0 <= k < segs.len() - 1 ==> #[trigger] segs[k].1 == segs[k + 1].0,
        segs.len() > 0 ==> segs[0].0 == lo && segs[segs.len() - 1].1 == hi,
        segs.len() == 0 ==> lo == hi,
    decreases segs.len(),
{
    if segs.len() > 0 {
        lemma_chain_props(segs.drop_first(), segs[0].1, hi);
        assert forall|k: int| 0 <= k < segs.len() implies #[trigger] segs[k].0 < segs[k].1 by {
            if k > 0 {
                assert(segs[k] == segs.drop_first()[k - 1]);
            }
        }
        assert forall|k: int| 0 <= k < segs.len() - 1 implies #[trigger] segs[k].1 == segs[k
            + 1].0 by {
            if k > 0 {
                assert(segs[k] == segs.drop_first()[k - 1]);
                assert(segs[k + 1] == segs.drop_first()[k]);
            } else {
                if segs.len() > 1 {
                    assert(segs[1] == segs.drop_first()[0]);
                }
            }
        }
        if segs.len() > 1 {
            assert(segs[segs.len() - 1] == segs.drop_first()[segs.len() - 2]);
        }
    }
}

/// Pointwise reading of a sorted sequence: segments are non-empty, ordered
/// and within `[lo, hi)`.
pub proof fn lemma_sorted_props(segs: Seq<(int, int)>, lo: int, hi: int)
    requires
        sorted(segs, lo, hi),
    ensures
        forall|k: int| 0 <= k < segs.len() ==> lo <= #[trigger] segs[k].0 && segs[k].0 < segs[k].1
            && segs[k].1 <= hi,
        forall|k: int| 0 <= k < segs.len() - 1 ==> #[trigger] segs[k].1 <= segs[k + 1].0,
    decreases segs.len(),
{
    if segs.len() > 0 {
        lemma_sorted_props(segs.drop_first(), segs[0].1, hi);
        assert forall|k: int| 0 <= k < segs.len() implies lo <= #[trigger] segs[k].0 && segs[k].0
            < segs[k].1 && segs[k].1 <= hi by {
            if k > 0 {
                assert(segs[k] == segs.drop_first()[k - 1]);
            }
        }
        assert forall|k: int| 0 <= k < segs.len() - 1 implies #[trigger] segs[k].1 <= segs[k
            + 1].0 by {
            if k > 0 {
                assert(segs[k] == segs.drop_first()[k - 1]);
                assert(segs[k + 1] == segs.drop_first()[k]);
            } else {
                if segs.len() > 1 {
                    assert(segs[1] == segs.drop_first()[0]);
                }
            }
        }
    }
}

} // verus!
