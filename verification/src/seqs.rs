//! Sequences: concatenation, extremes, distinct values.

use vstd::prelude::*;

verus! {

/// The parts one after another.
pub open spec fn concat(parts: Seq<Seq<u8>>) -> Seq<u8>
    decreases parts.len(),
{
    if parts.len() == 0 {
        Seq::empty()
    } else {
        parts[0] + concat(parts.drop_first())
    }
}

pub proof fn lemma_concat_push(parts: Seq<Seq<u8>>, x: Seq<u8>)
    ensures
        concat(parts.push(x)) == concat(parts) + x,
    decreases parts.len(),
{
    if parts.len() == 0 {
        assert(parts.push(x).drop_first() =~= Seq::<Seq<u8>>::empty());
        assert(concat(parts.push(x).drop_first()) =~= Seq::<u8>::empty());
        assert(concat(parts.push(x)) =~= concat(parts) + x);
    } else {
        lemma_concat_push(parts.drop_first(), x);
        assert(parts.push(x).drop_first() =~= parts.drop_first().push(x));
        assert(concat(parts.push(x)) =~= concat(parts) + x);
    }
}

/// Parts of one length: part `i` starts at `i` times that length.
pub proof fn lemma_concat_even(parts: Seq<Seq<u8>>, n: nat)
    requires
        forall|i: int| 0 <= i < parts.len() ==> (#[trigger] parts[i]).len() == n,
    ensures
        concat(parts).len() == n * parts.len(),
        forall|i: int|
            0 <= i < parts.len() ==> concat(parts).subrange(n * i, n * i + n) == #[trigger] parts[i],
    decreases parts.len(),
{
    let all = concat(parts);
    if parts.len() == 0 {
        assert(n * parts.len() == 0) by (nonlinear_arith)
            requires parts.len() == 0,
        ;
    } else {
        let rest = parts.drop_first();
        lemma_concat_even(rest, n);
        assert(n * parts.len() == n + n * rest.len()) by (nonlinear_arith)
            requires parts.len() == rest.len() + 1,
        ;
        assert forall|i: int| 0 <= i < parts.len() implies all.subrange(n * i, n * i + n)
            == #[trigger] parts[i] by {
            assert(0 <= n * i && n * i + n <= n * parts.len()) by (nonlinear_arith)
                requires 0 <= i < parts.len(), n >= 0,
            ;
            if i == 0 {
                assert(n * i == 0) by (nonlinear_arith)
                    requires i == 0,
                ;
                assert(all.subrange(0, n as int) =~= parts[0]);
            } else {
                assert(rest[i - 1] == parts[i]);
                assert(n * i == n + n * (i - 1)) by (nonlinear_arith);
                assert(0 <= n * (i - 1)) by (nonlinear_arith)
                    requires i >= 1, n >= 0,
                ;
                assert(n * (i - 1) + n <= n * rest.len()) by (nonlinear_arith)
                    requires i - 1 < rest.len(), n >= 0,
                ;
                assert(all.subrange(n * i, n * i + n) =~= concat(rest).subrange(
                    n * (i - 1),
                    n * (i - 1) + n,
                ));
            }
        }
    }
}

/// The least of the values; 0 where there are none.
pub open spec fn least(s: Seq<i64>) -> i64
    decreases s.len(),
{
    if s.len() == 0 {
        0
    } else if s.len() == 1 {
        s[0]
    } else {
        let m = least(s.drop_last());
        if s.last() < m {
            s.last()
        } else {
            m
        }
    }
}

/// The greatest of the values; 0 where there are none.
pub open spec fn greatest(s: Seq<i64>) -> i64
    decreases s.len(),
{
    if s.len() == 0 {
        0
    } else if s.len() == 1 {
        s[0]
    } else {
        let m = greatest(s.drop_last());
        if s.last() > m {
            s.last()
        } else {
            m
        }
    }
}

pub proof fn lemma_extremes(s: Seq<i64>)
    ensures
        forall|i: int| 0 <= i < s.len() ==> least(s) <= #[trigger] s[i] <= greatest(s),
    decreases s.len(),
{
    if s.len() > 1 {
        lemma_extremes(s.drop_last());
        assert forall|i: int| 0 <= i < s.len() implies least(s) <= #[trigger] s[i] <= greatest(s) by {
            if i < s.len() - 1 {
                assert(s.drop_last()[i] == s[i]);
            }
        }
    }
}

pub fn min_max(s: &[i64]) -> (r: (i64, i64))
    ensures
        r.0 == least(s@),
        r.1 == greatest(s@),
        r.0 <= r.1,
{
    if s.len() == 0 {
        return (0, 0);
    }
    let mut lo: i64 = s[0];
    let mut hi: i64 = s[0];
    let mut i: usize = 1;
    while i < s.len()
        invariant
            1 <= i <= s@.len(),
            lo == least(s@.take(i as int)),
            hi == greatest(s@.take(i as int)),
            lo <= hi,
        decreases s@.len() - i,
    {
        let x: i64 = s[i];
        proof {
            assert(s@.take(i as int + 1).drop_last() =~= s@.take(i as int));
        }
        if x < lo {
            lo = x;
        }
        if x > hi {
            hi = x;
        }
        i = i + 1;
    }
    proof {
        assert(s@.take(i as int) =~= s@);
    }
    (lo, hi)
}

/// The distinct values, in the order in which they first occur.
pub open spec fn distinct(s: Seq<i64>) -> Seq<i64>
    decreases s.len(),
{
    if s.len() == 0 {
        Seq::empty()
    } else {
        let d = distinct(s.drop_last());
        if d.contains(s.last()) {
            d
        } else {
            d.push(s.last())
        }
    }
}

pub proof fn lemma_distinct(s: Seq<i64>)
    ensures
        distinct(s).no_duplicates(),
        distinct(s).len() <= s.len(),
        forall|x: i64| #[trigger] distinct(s).contains(x) <==> s.contains(x),
    decreases s.len(),
{
    let d = distinct(s);
    if s.len() > 0 {
        let t = s.drop_last();
        lemma_distinct(t);
        assert forall|x: i64| #[trigger] d.contains(x) <==> s.contains(x) by {
            if s.contains(x) {
                let i = choose|i: int| 0 <= i < s.len() && s[i] == x;
                if i < s.len() - 1 {
                    assert(t[i] == x);
                    assert(t.contains(x));
                    assert(distinct(t).contains(x));
                    let j = choose|j: int| 0 <= j < distinct(t).len() && distinct(t)[j] == x;
                    assert(d[j] == x);
                } else if !distinct(t).contains(s.last()) {
                    assert(d[d.len() - 1] == x);
                }
            }
            if d.contains(x) {
                let j = choose|j: int| 0 <= j < d.len() && d[j] == x;
                if j < distinct(t).len() {
                    assert(distinct(t)[j] == x);
                    assert(distinct(t).contains(x));
                    assert(t.contains(x));
                    let i = choose|i: int| 0 <= i < t.len() && t[i] == x;
                    assert(s[i] == x);
                } else {
                    assert(s[s.len() - 1] == x);
                }
            }
        }
    }
}

} // verus!
