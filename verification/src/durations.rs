//! Speech duration of clusters: the length of the union of each cluster's
//! windows, overlaps counted once, in nanoseconds.

use vstd::prelude::*;
use vstd::set_lib::{lemma_int_range, lemma_len_subset, lemma_set_disjoint_lens, set_int_range};
use crate::der::in_some_range;
use crate::sweep::{key_before, order_by_key, sorted_order};
use crate::time::TimeRange;

verus! {

/// The instants that some span of `spans` holds.
pub open spec fn covered(spans: Seq<TimeRange>) -> Set<int> {
    Set::new(|t: int| in_some_range(spans, t))
}

/// `spans` taken in the order `order`, its first `p` entries.
pub open spec fn in_order(spans: Seq<TimeRange>, order: Seq<usize>, p: int) -> Seq<TimeRange> {
    Seq::new(p as nat, |q: int| spans[order[q] as int])
}

proof fn lemma_covered_push(s: Seq<TimeRange>, x: TimeRange)
    ensures
        covered(s.push(x)) =~= covered(s) + set_int_range(x.start as int, x.end as int),
{
    assert forall|t: int| #[trigger] covered(s.push(x)).contains(t) == (covered(s) + set_int_range(
        x.start as int,
        x.end as int,
    )).contains(t) by {
        if in_some_range(s.push(x), t) {
            let k = choose|k: int| 0 <= k < s.push(x).len() && (#[trigger] s.push(x)[k]).holds(t);
            if k < s.len() {
                assert(s[k].holds(t));
            }
        }
        if in_some_range(s, t) {
            let k = choose|k: int| 0 <= k < s.len() && (#[trigger] s[k]).holds(t);
            assert(s.push(x)[k].holds(t));
        }
        if x.holds(t) {
            assert(s.push(x)[s.len() as int].holds(t));
        }
    }
}

/// The length of the union of `spans`: how many nanoseconds some span holds.
pub fn union_length(spans: &Vec<TimeRange>) -> (u: u64)
    ensures
        covered(spans@).finite(),
        u == covered(spans@).len(),
{
    let n = spans.len();
    let mut keys: Vec<i64> = Vec::new();
    let mut k: usize = 0;
    while k < n
        invariant
            k <= n == spans.len(),
            keys.len() == k,
            forall|q: int| 0 <= q < k ==> #[trigger] keys@[q] == spans@[q].start,
        decreases n - k,
    {
        keys.push(spans[k].start);
        k += 1;
    }
    let order = order_by_key(&keys);
    let ghost s = spans@;
    let mut total: u64 = 0;
    let mut reach: i64 = i64::MIN;
    let mut last: i64 = i64::MIN;
    let mut p: usize = 0;
    proof {
        assert(covered(in_order(s, order@, 0)) =~= Set::<int>::empty());
    }
    while p < n
        invariant
            p <= n == spans.len() == keys.len() == order.len(),
            s == spans@,
            sorted_order(keys@, order@),
            forall|q: int| 0 <= q < n ==> #[trigger] keys@[q] == s[q].start,
            covered(in_order(s, order@, p as int)).finite(),
            total == covered(in_order(s, order@, p as int)).len(),
            covered(in_order(s, order@, p as int)).subset_of(set_int_range(i64::MIN as int, reach as int)),
            forall|t: int| last <= t < reach ==> covered(in_order(s, order@, p as int)).contains(t),
            forall|q: int| p <= q < n ==> last <= #[trigger] s[order@[q] as int].start,
        decreases n - p,
    {
        let x = spans[order[p]];
        let ghost before = in_order(s, order@, p as int);
        let ghost cov = covered(before);
        proof {
            assert(in_order(s, order@, p + 1) =~= before.push(x));
            lemma_covered_push(before, x);
            assert forall|q: int| p + 1 <= q < n implies x.start <= #[trigger] s[order@[q] as int].start by {
                assert(key_before(keys@, order@[p as int] as int, order@[q] as int));
            }
        }
        if x.start < x.end {
            let lo: i64 = if x.start > reach {
                x.start
            } else {
                reach
            };
            let add: u128 = if x.end > lo {
                (x.end as i128 - lo as i128) as u128
            } else {
                0
            };
            let new_reach: i64 = if x.end > reach {
                x.end
            } else {
                reach
            };
            let ghost piece = set_int_range(lo as int, x.end as int);
            let ghost after = covered(in_order(s, order@, p + 1));
            proof {
                let span = set_int_range(x.start as int, x.end as int);
                assert(after =~= cov + piece) by {
                    assert forall|t: int| #[trigger] span.contains(t) && !piece.contains(t) implies cov.contains(t) by {
                        assert(last <= x.start);
                    }
                }
                if lo <= x.end {
                    lemma_int_range(lo as int, x.end as int);
                } else {
                    assert(piece =~= Set::<int>::empty());
                }
                assert(cov.disjoint(piece)) by {
                    assert forall|t: int| cov.contains(t) implies !piece.contains(t) by {
                        assert(set_int_range(i64::MIN as int, reach as int).contains(t));
                    }
                }
                lemma_set_disjoint_lens(cov, piece);
                assert(after.subset_of(set_int_range(i64::MIN as int, new_reach as int)));
                lemma_int_range(i64::MIN as int, new_reach as int);
                lemma_len_subset(after, set_int_range(i64::MIN as int, new_reach as int));
                assert(after.len() == total + add);
            }
            total = (total as u128 + add) as u64;
            reach = new_reach;
            last = x.start;
        } else {
            proof {
                assert(set_int_range(x.start as int, x.end as int) =~= Set::<int>::empty());
                assert(covered(in_order(s, order@, p + 1)) =~= cov);
            }
        }
        p += 1;
    }
    proof {
        let all = in_order(s, order@, n as int);
        assert(covered(all) =~= covered(s)) by {
            assert forall|t: int| #[trigger] covered(all).contains(t) == covered(s).contains(t) by {
                if in_some_range(all, t) {
                    let q = choose|q: int| 0 <= q < all.len() && (#[trigger] all[q]).holds(t);
                    assert(s[order@[q] as int].holds(t));
                }
                if in_some_range(s, t) {
                    let k = choose|k: int| 0 <= k < s.len() && (#[trigger] s[k]).holds(t);
                    assert(order@.contains(k as usize));
                    let q = choose|q: int| 0 <= q < order@.len() && order@[q] == k as usize;
                    assert(all[q].holds(t));
                }
            }
        }
    }
    total
}

/// The spans among `ranges[0..k]` whose label in `labels` is `l`, in order.
pub open spec fn label_spans(ranges: Seq<TimeRange>, labels: Seq<usize>, l: usize, k: int) -> Seq<TimeRange>
    decreases k,
{
    if k <= 0 {
        Seq::empty()
    } else if labels[k - 1] == l {
        label_spans(ranges, labels, l, k - 1).push(ranges[k - 1])
    } else {
        label_spans(ranges, labels, l, k - 1)
    }
}

/// The windows that carry both a time range and a label.
pub open spec fn paired(ranges: Seq<TimeRange>, labels: Seq<usize>) -> int {
    if ranges.len() < labels.len() {
        ranges.len() as int
    } else {
        labels.len() as int
    }
}

/// Label `l` is carried by one of the windows `0..k`.
pub open spec fn labelled(labels: Seq<usize>, l: usize, k: int) -> bool {
    exists|i: int| 0 <= i < k && labels[i] == l
}

/// The speech duration of each cluster: for every label of a window that
/// has a time range, once and in order of first appearance, the length of
/// the union of its windows' ranges (overlaps counted once).
pub fn cluster_durations(ranges: &Vec<TimeRange>, labels: &Vec<usize>) -> (d: Vec<(usize, u64)>)
    ensures
        forall|a: int, b: int| 0 <= a < b < d.len() ==> (#[trigger] d@[a]).0 != (#[trigger] d@[b]).0,
        forall|l: usize|
            (exists|k: int| 0 <= k < d.len() && (#[trigger] d@[k]).0 == l) <==> labelled(
                labels@,
                l,
                paired(ranges@, labels@),
            ),
        forall|k: int|
            0 <= k < d.len() ==> (#[trigger] d@[k]).1 == covered(
                label_spans(ranges@, labels@, d@[k].0, paired(ranges@, labels@)),
            ).len(),
{
    let m = if ranges.len() < labels.len() {
        ranges.len()
    } else {
        labels.len()
    };
    let ghost rs = ranges@;
    let ghost ls = labels@;
    let mut d: Vec<(usize, u64)> = Vec::new();
    let mut i: usize = 0;
    while i < m
        invariant
            m == paired(rs, ls),
            m <= ranges.len(),
            m <= labels.len(),
            rs == ranges@,
            ls == labels@,
            i <= m,
            forall|a: int, b: int| 0 <= a < b < d.len() ==> (#[trigger] d@[a]).0 != (#[trigger] d@[b]).0,
            forall|l: usize|
                (exists|k: int| 0 <= k < d.len() && (#[trigger] d@[k]).0 == l) <==> labelled(ls, l, i as int),
            forall|k: int|
                0 <= k < d.len() ==> (#[trigger] d@[k]).1 == covered(label_spans(rs, ls, d@[k].0, m as int)).len(),
        decreases m - i,
    {
        let l = labels[i];
        let ghost i1 = i + 1;
        let mut k: usize = 0;
        while k < d.len() && d[k].0 != l
            invariant
                k <= d.len(),
                forall|q: int| 0 <= q < k ==> (#[trigger] d@[q]).0 != l,
            decreases d.len() - k,
        {
            k += 1;
        }
        if k == d.len() {
            let mut spans: Vec<TimeRange> = Vec::new();
            let mut j: usize = 0;
            while j < m
                invariant
                    m <= ranges.len(),
                    m <= labels.len(),
                    rs == ranges@,
                    ls == labels@,
                    j <= m,
                    spans@ == label_spans(rs, ls, l, j as int),
                decreases m - j,
            {
                if labels[j] == l {
                    spans.push(ranges[j]);
                }
                j += 1;
            }
            let u = union_length(&spans);
            let ghost before = d@;
            d.push((l, u));
            proof {
                assert forall|x: usize|
                    #![trigger labelled(ls, x, i1)]
                    (exists|q: int| 0 <= q < d.len() && (#[trigger] d@[q]).0 == x) <==> labelled(ls, x, i1) by {
                    if exists|q: int| 0 <= q < d.len() && (#[trigger] d@[q]).0 == x {
                        let q = choose|q: int| 0 <= q < d.len() && (#[trigger] d@[q]).0 == x;
                        if q < before.len() {
                            assert(before[q].0 == x);
                            assert(labelled(ls, x, i as int));
                        } else {
                            assert(ls[i as int] == x);
                        }
                    }
                    if labelled(ls, x, i1) {
                        if x == l {
                            assert(d@[before.len() as int].0 == x);
                        } else {
                            let r = choose|r: int| 0 <= r < i + 1 && ls[r] == x;
                            assert(labelled(ls, x, i as int));
                            let q = choose|q: int| 0 <= q < before.len() && (#[trigger] before[q]).0 == x;
                            assert(d@[q].0 == x);
                        }
                    }
                }
            }
        } else {
            proof {
                assert forall|x: usize|
                    #![trigger labelled(ls, x, i1)]
                    (exists|q: int| 0 <= q < d.len() && (#[trigger] d@[q]).0 == x) <==> labelled(ls, x, i1) by {
                    if labelled(ls, x, i1) {
                        if x == l {
                            assert(d@[k as int].0 == x);
                        } else {
                            let r = choose|r: int| 0 <= r < i + 1 && ls[r] == x;
                            assert(labelled(ls, x, i as int));
                        }
                    }
                    if exists|q: int| 0 <= q < d.len() && (#[trigger] d@[q]).0 == x {
                        let q = choose|q: int| 0 <= q < d.len() && (#[trigger] d@[q]).0 == x;
                        assert(labelled(ls, x, i as int));
                        let r = choose|r: int| 0 <= r < i && ls[r] == x;
                        assert(0 <= r < i + 1 && ls[r] == x);
                    }
                }
            }
        }
        i += 1;
    }
    d
}

} // verus!
