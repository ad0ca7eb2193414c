//! Sums over the first numbers, in whole or in part.
use vstd::prelude::*;

verus! {

/// The sum of `w(0)`, .., `w(n - 1)`.
pub open spec fn total_of(w: spec_fn(int) -> int, n: nat) -> int
    decreases n,
{
    if n == 0 {
        0
    } else {
        total_of(w, (n - 1) as nat) + w(n - 1)
    }
}

/// The sum of those of `w(0)`, .., `w(n - 1)` whose index is in `part`.
pub open spec fn part_of(w: spec_fn(int) -> int, part: Set<int>, n: nat) -> int
    decreases n,
{
    if n == 0 {
        0
    } else {
        part_of(w, part, (n - 1) as nat) + (if part.contains(n - 1) {
            w(n - 1)
        } else {
            0
        })
    }
}

/// One more index adds its term.
pub proof fn lemma_part_insert(w: spec_fn(int) -> int, part: Set<int>, j: int, n: nat)
    requires
        !part.contains(j),
    ensures
        part_of(w, part.insert(j), n) == part_of(w, part, n) + (if 0 <= j < n {
            w(j)
        } else {
            0
        }),
    decreases n,
{
    if n > 0 {
        lemma_part_insert(w, part, j, (n - 1) as nat);
    }
}

/// A part of terms that are not negative is no more than a larger part.
pub proof fn lemma_part_grows(w: spec_fn(int) -> int, small: Set<int>, large: Set<int>, n: nat)
    requires
        small.subset_of(large),
        forall|j: int| 0 <= j < n ==> #[trigger] w(j) >= 0,
    ensures
        part_of(w, small, n) <= part_of(w, large, n),
    decreases n,
{
    if n > 0 {
        lemma_part_grows(w, small, large, (n - 1) as nat);
        assert(w(n - 1) >= 0);
    }
}

/// A part of terms that are not negative is no more than the whole.
pub proof fn lemma_part_below(w: spec_fn(int) -> int, part: Set<int>, n: nat)
    requires
        forall|j: int| 0 <= j < n ==> #[trigger] w(j) >= 0,
    ensures
        0 <= part_of(w, part, n) <= total_of(w, n),
    decreases n,
{
    if n > 0 {
        lemma_part_below(w, part, (n - 1) as nat);
        assert(w(n - 1) >= 0);
    }
}

/// A part that holds all terms but zeros is the whole.
pub proof fn lemma_part_whole(w: spec_fn(int) -> int, part: Set<int>, n: nat)
    requires
        forall|j: int| 0 <= j < n && !part.contains(j) ==> #[trigger] w(j) == 0,
    ensures
        part_of(w, part, n) == total_of(w, n),
    decreases n,
{
    if n > 0 {
        lemma_part_whole(w, part, (n - 1) as nat);
        if !part.contains(n - 1) {
            assert(w(n - 1) == 0);
        }
    }
}

pub proof fn lemma_part_empty(w: spec_fn(int) -> int, n: nat)
    ensures
        part_of(w, Set::empty(), n) == 0,
    decreases n,
{
    if n > 0 {
        lemma_part_empty(w, (n - 1) as nat);
    }
}

/// A product with zero.
pub proof fn lemma_zero_product(a: int, b: int)
    requires
        b == 0,
    ensures
        a * b == 0,
{
    assert(a * b == 0) by (nonlinear_arith)
        requires
            b == 0,
    ;
}

} // verus!
