//! Counting: how many of a run of numbers have a property, and sums.

use vstd::prelude::*;

verus! {

/// The sum of a function over the numbers below `n`.
pub open spec fn sum_to(n: nat, f: spec_fn(int) -> nat) -> nat
    decreases n,
{
    if n == 0 {
        0
    } else {
        sum_to((n - 1) as nat, f) + f(n - 1)
    }
}

/// How many of the numbers below `n` have a property.
pub open spec fn how_many(n: nat, p: spec_fn(int) -> bool) -> nat
    decreases n,
{
    if n == 0 {
        0
    } else {
        how_many((n - 1) as nat, p) + if p(n - 1) {
            1nat
        } else {
            0nat
        }
    }
}

pub proof fn lemma_how_many_alike(n: nat, p: spec_fn(int) -> bool, q: spec_fn(int) -> bool)
    requires
        forall|i: int| 0 <= i < n ==> #[trigger] p(i) == q(i),
    ensures
        how_many(n, p) == how_many(n, q),
    decreases n,
{
    if n > 0 {
        lemma_how_many_alike((n - 1) as nat, p, q);
        assert(p(n - 1) == q(n - 1));
    }
}

pub proof fn lemma_how_many_bound(n: nat, p: spec_fn(int) -> bool)
    ensures
        how_many(n, p) <= n,
        (forall|i: int| 0 <= i < n ==> #[trigger] p(i)) ==> how_many(n, p) == n,
        (forall|i: int| 0 <= i < n ==> !#[trigger] p(i)) ==> how_many(n, p) == 0,
    decreases n,
{
    if n > 0 {
        lemma_how_many_bound((n - 1) as nat, p);
        if forall|i: int| 0 <= i < n ==> #[trigger] p(i) {
            assert(p(n - 1));
        }
        if forall|i: int| 0 <= i < n ==> !#[trigger] p(i) {
            assert(!p(n - 1));
        }
    }
}

} // verus!
