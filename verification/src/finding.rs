//! Looking through the indices of a list: the first that fits, the last, and all of them.
use vstd::prelude::*;

verus! {

/// The first index from `i` on, below `n`, that fits.
pub open spec fn first_from(i: int, n: int, fits: spec_fn(int) -> bool) -> Option<usize>
    decreases n - i,
{
    if i >= n {
        None
    } else if fits(i) {
        Some(i as usize)
    } else {
        first_from(i + 1, n, fits)
    }
}

/// The last index below `n` that fits.
pub open spec fn last_below(n: int, fits: spec_fn(int) -> bool) -> Option<usize>
    decreases n,
{
    if n <= 0 {
        None
    } else if fits(n - 1) {
        Some((n - 1) as usize)
    } else {
        last_below(n - 1, fits)
    }
}

/// Every index below `n` that fits, in order.
pub open spec fn kept(n: int, fits: spec_fn(int) -> bool) -> Seq<usize>
    decreases n,
{
    if n <= 0 {
        Seq::empty()
    } else if fits(n - 1) {
        kept(n - 1, fits).push((n - 1) as usize)
    } else {
        kept(n - 1, fits)
    }
}

/// The first index found fits, and none before it does.
pub proof fn lemma_first_from(i: int, n: int, fits: spec_fn(int) -> bool)
    requires
        0 <= i,
        n <= usize::MAX + 1,
    ensures
        match first_from(i, n, fits) {
            Some(k) => i <= k < n && fits(k as int) && forall|j: int|
                i <= j < k ==> !#[trigger] fits(j),
            None => forall|j: int| i <= j < n ==> !#[trigger] fits(j),
        },
    decreases n - i,
{
    if i < n && !fits(i) {
        lemma_first_from(i + 1, n, fits);
    }
}

/// The last index found fits, and none after it does.
pub proof fn lemma_last_below(n: int, fits: spec_fn(int) -> bool)
    requires
        n <= usize::MAX + 1,
    ensures
        match last_below(n, fits) {
            Some(k) => 0 <= k < n && fits(k as int) && forall|j: int|
                k < j < n ==> !#[trigger] fits(j),
            None => forall|j: int| 0 <= j < n ==> !#[trigger] fits(j),
        },
    decreases n,
{
    if n > 0 && !fits(n - 1) {
        lemma_last_below(n - 1, fits);
    }
}

/// The indices kept are those that fit, in order.
pub proof fn lemma_kept(n: int, fits: spec_fn(int) -> bool)
    requires
        0 <= n <= usize::MAX + 1,
    ensures
        kept(n, fits).len() <= n,
        forall|k: int|
            0 <= k < kept(n, fits).len() ==> (#[trigger] kept(n, fits)[k]) < n && fits(
                kept(n, fits)[k] as int,
            ),
        forall|j: int| 0 <= j < n && #[trigger] fits(j) ==> kept(n, fits).contains(j as usize),
        forall|k: int, l: int|
            0 <= k < l < kept(n, fits).len() ==> kept(n, fits)[k] < kept(n, fits)[l],
    decreases n,
{
    if n > 0 {
        lemma_kept(n - 1, fits);
        let before = kept(n - 1, fits);
        assert forall|j: int| 0 <= j < n && #[trigger] fits(j) implies kept(n, fits).contains(
            j as usize,
        ) by {
            if j < n - 1 {
                let k = choose|k: int| 0 <= k < before.len() && before[k] == j as usize;
                assert(kept(n, fits)[k] == j as usize);
            } else {
                assert(kept(n, fits).last() == j as usize);
            }
        }
    }
}

} // verus!
