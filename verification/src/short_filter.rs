//! Short-segment filtering: embeddings of windows shorter than a minimum
//! duration are left out of clustering and reassigned afterwards. Durations
//! are whole nanoseconds.

use vstd::prelude::*;

verus! {

/// The indices `i < k` for which `keep(i)` holds, in increasing order.
pub open spec fn picked(keep: spec_fn(int) -> bool, k: int) -> Seq<usize>
    decreases k,
{
    if k <= 0 {
        Seq::empty()
    } else if keep(k - 1) {
        picked(keep, k - 1).push((k - 1) as usize)
    } else {
        picked(keep, k - 1)
    }
}

/// The index of the longest of `durations[0..k]`, the lowest index among
/// equally long ones (zero when `k` is zero).
pub open spec fn longest_upto(durations: Seq<i64>, k: int) -> int
    decreases k,
{
    if k <= 1 {
        0
    } else {
        let b = longest_upto(durations, k - 1);
        if durations[k - 1] > durations[b] {
            k - 1
        } else {
            b
        }
    }
}

/// The indices kept for clustering and the short ones: with a positive
/// minimum, the indices of durations at least `min` and the others; when
/// no duration reaches it, the longest alone is kept instead. With a
/// minimum of zero or less, or no durations, every index is kept.
pub open spec fn partition_spec(durations: Seq<i64>, min: i64) -> (Seq<usize>, Seq<usize>) {
    let n = durations.len() as int;
    if min <= 0 || n == 0 {
        (picked(|i: int| true, n), Seq::empty())
    } else {
        let kept = picked(|i: int| durations[i] >= min, n);
        let short = picked(|i: int| durations[i] < min, n);
        if kept.len() > 0 {
            (kept, short)
        } else {
            let best = longest_upto(durations, n);
            (seq![best as usize], picked(|i: int| durations[i] < min && i != best, n))
        }
    }
}

proof fn lemma_picked_contains(keep: spec_fn(int) -> bool, k: int, x: usize)
    requires
        0 <= k <= usize::MAX as int + 1,
    ensures
        picked(keep, k).contains(x) <==> (x < k && keep(x as int)),
    decreases k,
{
    if k > 0 {
        lemma_picked_contains(keep, k - 1, x);
        let p = picked(keep, k - 1);
        if keep(k - 1) {
            let pp = p.push((k - 1) as usize);
            assert(picked(keep, k) == pp);
            if x == k - 1 {
                assert(pp[p.len() as int] == x);
            }
            if pp.contains(x) && x != k - 1 {
                let q = choose|q: int| 0 <= q < pp.len() && #[trigger] pp[q] == x;
                assert(q < p.len());
                assert(p[q] == x);
            }
            if p.contains(x) {
                let q = choose|q: int| 0 <= q < p.len() && #[trigger] p[q] == x;
                assert(pp[q] == x);
            }
        }
    }
}

/// Split the indices of `durations` into those kept for clustering and the
/// short ones (see [`partition_spec`]). Each index is in exactly one of
/// the two lists, and whenever there is a duration some index is kept, so
/// clustering always has an input.
pub fn partition_by_min_duration(durations: &Vec<i64>, min: i64) -> (r: (Vec<usize>, Vec<usize>))
    ensures
        (r.0@, r.1@) == partition_spec(durations@, min),
        durations.len() > 0 ==> r.0.len() > 0,
        forall|i: usize| i < durations.len() ==> #[trigger] r.0@.contains(i) != r.1@.contains(i),
{
    let n = durations.len();
    let ghost d = durations@;
    if min <= 0 || n == 0 {
        let mut all: Vec<usize> = Vec::new();
        let mut i: usize = 0;
        while i < n
            invariant
                i <= n == d.len(),
                all@ == picked(|q: int| true, i as int),
            decreases n - i,
        {
            all.push(i);
            i += 1;
        }
        proof {
            if n > 0 {
                assert(all@.len() > 0) by {
                    assert(picked(|q: int| true, n as int) == picked(|q: int| true, n - 1).push((n - 1) as usize));
                }
            }
            assert forall|x: usize| x < n implies #[trigger] all@.contains(x) != Seq::<usize>::empty().contains(x) by {
                lemma_picked_contains(|q: int| true, n as int, x);
            }
        }
        return (all, Vec::new());
    }
    let ghost keep_long = |q: int| d[q] >= min;
    let ghost keep_short = |q: int| d[q] < min;
    let mut kept: Vec<usize> = Vec::new();
    let mut short: Vec<usize> = Vec::new();
    let mut i: usize = 0;
    while i < n
        invariant
            i <= n == d.len(),
            d == durations@,
            keep_long == (|q: int| d[q] >= min),
            keep_short == (|q: int| d[q] < min),
            kept@ == picked(keep_long, i as int),
            short@ == picked(keep_short, i as int),
        decreases n - i,
    {
        if durations[i] >= min {
            kept.push(i);
        } else {
            short.push(i);
        }
        i += 1;
    }
    proof {
        assert forall|x: usize| x < n implies (#[trigger] kept@.contains(x) <==> d[x as int] >= min) && (short@.contains(x) <==> d[x as int] < min) by {
            lemma_picked_contains(keep_long, n as int, x);
            lemma_picked_contains(keep_short, n as int, x);
        }
    }
    if kept.len() > 0 {
        return (kept, short);
    }
    let mut best: usize = 0;
    let mut j: usize = 1;
    while j < n
        invariant
            1 <= j <= n == d.len(),
            d == durations@,
            best == longest_upto(d, j as int),
            best < j,
        decreases n - j,
    {
        if durations[j] > durations[best] {
            best = j;
        }
        j += 1;
    }
    let ghost keep_rest = |q: int| d[q] < min && q != best;
    let mut rest: Vec<usize> = Vec::new();
    let mut k: usize = 0;
    while k < n
        invariant
            k <= n == d.len(),
            d == durations@,
            keep_rest == (|q: int| d[q] < min && q != best),
            rest@ == picked(keep_rest, k as int),
        decreases n - k,
    {
        if durations[k] < min && k != best {
            rest.push(k);
        }
        k += 1;
    }
    let mut one: Vec<usize> = Vec::new();
    one.push(best);
    proof {
        assert forall|x: usize| x < n implies #[trigger] one@.contains(x) != rest@.contains(x) by {
            lemma_picked_contains(keep_rest, n as int, x);
            assert(!kept@.contains(x));
            if one@.contains(x) {
                let q = choose|q: int| 0 <= q < one@.len() && #[trigger] one@[q] == x;
                assert(x == best);
            }
            if x == best {
                assert(one@[0] == x);
            }
        }
    }
    (one, rest)
}

} // verus!
