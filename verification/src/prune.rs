//! Which clusters survive pruning: those large enough, or, when none is, the
//! single largest one, so that pruning never leaves no cluster at all.

use vstd::prelude::*;

verus! {

/// Some entry of `sizes` carries label `l`.
pub open spec fn has_label(sizes: Seq<(usize, u64)>, l: usize) -> bool {
    exists|k: int| 0 <= k < sizes.len() && (#[trigger] sizes[k]).0 == l
}

/// Label `l` occurs among `labels[0..n]`.
pub open spec fn seen_label(labels: Seq<usize>, n: int, l: usize) -> bool {
    exists|q: int| 0 <= q < n && labels[q] == l
}

/// Items of `labels[0..n]` carrying label `l`.
pub open spec fn label_count(labels: Seq<usize>, l: usize, n: int) -> int
    decreases n,
{
    if n <= 0 {
        0
    } else {
        label_count(labels, l, n - 1) + if labels[n - 1] == l {
            1int
        } else {
            0int
        }
    }
}

/// The labels of `labels`, each once, in order of first appearance, with
/// the number of items carrying it.
pub fn cluster_sizes(labels: &Vec<usize>) -> (sizes: Vec<(usize, u64)>)
    ensures
        forall|a: int, b: int| 0 <= a < b < sizes.len() ==> (#[trigger] sizes@[a]).0 != (#[trigger] sizes@[b]).0,
        forall|l: usize| #[trigger] has_label(sizes@, l) <==> labels@.contains(l),
        forall|k: int| 0 <= k < sizes.len() ==> (#[trigger] sizes@[k]).1 == label_count(labels@, sizes@[k].0, labels.len() as int),
{
    let mut sizes: Vec<(usize, u64)> = Vec::new();
    let mut i: usize = 0;
    while i < labels.len()
        invariant
            i <= labels.len(),
            forall|a: int, b: int| 0 <= a < b < sizes.len() ==> (#[trigger] sizes@[a]).0 != (#[trigger] sizes@[b]).0,
            forall|l: usize| #[trigger] has_label(sizes@, l) <==> seen_label(labels@, i as int, l),
            forall|k: int| 0 <= k < sizes.len() ==> (#[trigger] sizes@[k]).1 == label_count(labels@, sizes@[k].0, i as int),
            forall|k: int| 0 <= k < sizes.len() ==> (#[trigger] sizes@[k]).1 <= i,
        decreases labels.len() - i,
    {
        let l = labels[i];
        let mut k: usize = 0;
        while k < sizes.len() && sizes[k].0 != l
            invariant
                k <= sizes.len(),
                forall|q: int| 0 <= q < k ==> (#[trigger] sizes@[q]).0 != l,
            decreases sizes.len() - k,
        {
            k += 1;
        }
        let ghost before = sizes@;
        if k < sizes.len() {
            let (lab, c) = sizes[k];
            sizes.set(k, (lab, c + 1));
            proof {
                assert forall|q: int| 0 <= q < sizes.len() implies (#[trigger] sizes@[q]).1 == label_count(labels@, sizes@[q].0, i as int + 1) by {
                    if q != k {
                        assert(before[q].0 != before[k as int].0);
                    }
                }
                assert forall|m: usize| #[trigger] has_label(sizes@, m) <==> seen_label(labels@, i + 1, m) by {
                    assert(has_label(before, m) <==> seen_label(labels@, i as int, m));
                    if has_label(sizes@, m) {
                        let q = choose|q: int| 0 <= q < sizes@.len() && (#[trigger] sizes@[q]).0 == m;
                        assert(before[q].0 == m);
                        assert(has_label(before, m));
                        let r = choose|r: int| 0 <= r < i && labels@[r] == m;
                        assert(seen_label(labels@, i + 1, m));
                    }
                    if seen_label(labels@, i + 1, m) {
                        let q = choose|q: int| 0 <= q < i + 1 && labels@[q] == m;
                        if q == i {
                            assert(sizes@[k as int].0 == m);
                        } else {
                            assert(seen_label(labels@, i as int, m));
                            assert(has_label(before, m));
                            let r = choose|r: int| 0 <= r < before.len() && (#[trigger] before[r]).0 == m;
                            assert(sizes@[r].0 == m);
                        }
                    }
                }
            }
        } else {
            sizes.push((l, 1));
            proof {
                assert forall|q: int| 0 <= q < sizes.len() implies (#[trigger] sizes@[q]).1 == label_count(labels@, sizes@[q].0, i as int + 1) by {
                    if q < before.len() {
                        assert(before[q].0 != l);
                    } else {
                        assert(!has_label(before, l));
                        assert(!seen_label(labels@, i as int, l));
                        lemma_label_count_absent(labels@, l, i as int);
                    }
                }
                assert forall|m: usize| #[trigger] has_label(sizes@, m) <==> seen_label(labels@, i + 1, m) by {
                    assert(has_label(before, m) <==> seen_label(labels@, i as int, m));
                    if has_label(sizes@, m) {
                        let q = choose|q: int| 0 <= q < sizes@.len() && (#[trigger] sizes@[q]).0 == m;
                        if q < before.len() {
                            assert(before[q].0 == m);
                            assert(has_label(before, m));
                            let r = choose|r: int| 0 <= r < i && labels@[r] == m;
                            assert(seen_label(labels@, i + 1, m));
                        } else {
                            assert(labels@[i as int] == m);
                            assert(seen_label(labels@, i + 1, m));
                        }
                    }
                    if seen_label(labels@, i + 1, m) {
                        let q = choose|q: int| 0 <= q < i + 1 && labels@[q] == m;
                        if q == i {
                            assert(sizes@[before.len() as int].0 == m);
                        } else {
                            assert(seen_label(labels@, i as int, m));
                            assert(has_label(before, m));
                            let r = choose|r: int| 0 <= r < before.len() && (#[trigger] before[r]).0 == m;
                            assert(sizes@[r].0 == m);
                        }
                    }
                }
                assert forall|a: int, b: int| 0 <= a < b < sizes.len() implies (#[trigger] sizes@[a]).0 != (#[trigger] sizes@[b]).0 by {
                    if b == before.len() {
                        assert(before[a].0 != l);
                    }
                }
            }
        }
        i += 1;
    }
    proof {
        assert forall|l: usize| #[trigger] has_label(sizes@, l) <==> labels@.contains(l) by {
            if labels@.contains(l) {
                let q = choose|q: int| 0 <= q < labels.len() && labels@[q] == l;
            }
        }
    }
    sizes
}

proof fn lemma_label_count_absent(labels: Seq<usize>, l: usize, n: int)
    requires
        forall|q: int| 0 <= q < n ==> labels[q] != l,
    ensures
        label_count(labels, l, n) == 0,
    decreases n,
{
    if n > 0 {
        lemma_label_count_absent(labels, l, n - 1);
    }
}

/// Among `metrics[0..k]`, the entry with the largest metric (ties: the
/// smaller label).
pub open spec fn largest_upto(metrics: Seq<(usize, u64)>, k: int) -> int
    decreases k,
{
    if k <= 1 {
        0
    } else {
        let b = largest_upto(metrics, k - 1);
        let e = metrics[k - 1];
        if e.1 > metrics[b].1 || (e.1 == metrics[b].1 && e.0 < metrics[b].0) {
            k - 1
        } else {
            b
        }
    }
}

/// The labels among `metrics[0..k]` whose metric reaches `min`, in order.
pub open spec fn kept_labels(metrics: Seq<(usize, u64)>, k: int, min: u64) -> Seq<usize>
    decreases k,
{
    if k <= 0 {
        Seq::empty()
    } else {
        let rest = kept_labels(metrics, k - 1, min);
        if metrics[k - 1].1 >= min {
            rest.push(metrics[k - 1].0)
        } else {
            rest
        }
    }
}

/// The labels whose metric reaches `min`, in order; when none does, the
/// label of largest metric (ties: smaller label), so that some cluster
/// always survives; nothing for no clusters. Each label carries one metric.
pub fn survivors_or_largest(metrics: &Vec<(usize, u64)>, min: u64) -> (s: Vec<usize>)
    requires
        forall|a: int, b: int| 0 <= a < b < metrics.len() ==> (#[trigger] metrics@[a]).0 != (#[trigger] metrics@[b]).0,
    ensures
        kept_labels(metrics@, metrics.len() as int, min).len() > 0 ==> s@ == kept_labels(
            metrics@,
            metrics.len() as int,
            min,
        ),
        kept_labels(metrics@, metrics.len() as int, min).len() == 0 && metrics.len() > 0 ==> s@
            == seq![metrics@[largest_upto(metrics@, metrics.len() as int)].0],
        metrics.len() == 0 ==> s.len() == 0,
        metrics.len() > 0 ==> s.len() > 0,
        forall|i: int| 0 <= i < s.len() ==> has_label(metrics@, #[trigger] s@[i]),
{
    let mut s: Vec<usize> = Vec::new();
    let mut k: usize = 0;
    while k < metrics.len()
        invariant
            k <= metrics.len(),
            s@ == kept_labels(metrics@, k as int, min),
        decreases metrics.len() - k,
    {
        if metrics[k].1 >= min {
            s.push(metrics[k].0);
        }
        k += 1;
    }
    if s.len() == 0 && metrics.len() > 0 {
        let mut b: usize = 0;
        let mut j: usize = 1;
        while j < metrics.len()
            invariant
                1 <= j <= metrics.len(),
                b < j,
                b == largest_upto(metrics@, j as int),
            decreases metrics.len() - j,
        {
            let e = metrics[j];
            if e.1 > metrics[b].1 || (e.1 == metrics[b].1 && e.0 < metrics[b].0) {
                b = j;
            }
            j += 1;
        }
        s.push(metrics[b].0);
        proof {
            assert(s@ =~= seq![metrics@[largest_upto(metrics@, metrics.len() as int)].0]);
            assert(s@[0] == metrics@[b as int].0);
        }
    } else {
        proof {
            lemma_kept_labels_members(metrics@, metrics.len() as int, min);
        }
    }
    s
}

proof fn lemma_kept_labels_members(metrics: Seq<(usize, u64)>, k: int, min: u64)
    requires
        0 <= k <= metrics.len(),
    ensures
        forall|i: int|
            0 <= i < kept_labels(metrics, k, min).len() ==> has_label(metrics, #[trigger] kept_labels(metrics, k, min)[i]),
    decreases k,
{
    if k > 0 {
        lemma_kept_labels_members(metrics, k - 1, min);
        let rest = kept_labels(metrics, k - 1, min);
        assert forall|i: int| 0 <= i < kept_labels(metrics, k, min).len() implies has_label(
            metrics,
            #[trigger] kept_labels(metrics, k, min)[i],
        ) by {
            if i < rest.len() {
                assert(kept_labels(metrics, k, min)[i] == rest[i]);
            } else {
                assert(kept_labels(metrics, k, min)[i] == metrics[k - 1].0);
            }
        }
    }
}


} // verus!
