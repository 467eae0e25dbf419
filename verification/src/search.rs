//! Finding the first position that has a property.

use vstd::prelude::*;

verus! {

/// The first index in `[from, n)` at which `pred` holds, `n` if there is
/// none.
pub open spec fn first_index(n: int, pred: spec_fn(int) -> bool, from: int) -> int
    decreases n - from,
{
    if from >= n {
        n
    } else if pred(from) {
        from
    } else {
        first_index(n, pred, from + 1)
    }
}

/// `first_index` is an index at which `pred` holds, with none before it.
pub proof fn lemma_first_index(n: int, pred: spec_fn(int) -> bool, from: int)
    requires
        0 <= from <= n,
    ensures
        from <= first_index(n, pred, from) <= n,
        first_index(n, pred, from) < n ==> pred(first_index(n, pred, from)),
        forall|j: int| from <= j < first_index(n, pred, from) ==> !#[trigger] pred(j),
    decreases n - from,
{
    if from < n && !pred(from) {
        lemma_first_index(n, pred, from + 1);
    }
}

/// An index at which `pred` holds, with none before it, is `first_index`.
pub proof fn lemma_first_index_is(n: int, pred: spec_fn(int) -> bool, from: int, at: int)
    requires
        0 <= from <= at <= n,
        forall|j: int| from <= j < at ==> !#[trigger] pred(j),
        at < n ==> pred(at),
    ensures
        first_index(n, pred, from) == at,
    decreases at - from,
{
    if from < at {
        lemma_first_index_is(n, pred, from + 1, at);
    }
}

/// A sequence without repeats of integers in `[lo, hi)` has at most
/// `hi - lo` elements.
pub proof fn lemma_distinct_ints_bounded(l: Seq<int>, lo: int, hi: int)
    requires
        lo <= hi,
        forall|i: int| 0 <= i < l.len() ==> lo <= #[trigger] l[i] < hi,
        forall|i: int, j: int| 0 <= i < j < l.len() ==> l[i] != l[j],
    ensures
        l.len() <= hi - lo,
    decreases hi - lo,
{
    if l.len() > 0 {
        if lo == hi {
            assert(lo <= l[0] < hi);
        } else {
            let top = hi - 1;
            if exists|k: int| 0 <= k < l.len() && l[k] == top {
                let k = choose|k: int| 0 <= k < l.len() && l[k] == top;
                let d = l.remove(k);
                assert forall|i: int| 0 <= i < d.len() implies lo <= #[trigger] d[i] < top by {
                    if i < k {
                        assert(d[i] == l[i]);
                    } else {
                        assert(d[i] == l[i + 1]);
                    }
                }
                assert forall|i: int, j: int| 0 <= i < j < d.len() implies d[i] != d[j] by {
                    let i0 = if i < k {
                        i
                    } else {
                        i + 1
                    };
                    let j0 = if j < k {
                        j
                    } else {
                        j + 1
                    };
                    assert(d[i] == l[i0] && d[j] == l[j0]);
                }
                lemma_distinct_ints_bounded(d, lo, top);
            } else {
                assert forall|i: int| 0 <= i < l.len() implies lo <= #[trigger] l[i] < top by {
                    assert(lo <= l[i] < hi);
                }
                lemma_distinct_ints_bounded(l, lo, top);
            }
        }
    }
}

} // verus!
