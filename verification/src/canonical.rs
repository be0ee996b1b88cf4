//! Canonical cluster ids: the clusters of a labelling numbered `0..K` by
//! descending size, ties broken by smallest member index. The ids then
//! depend on the partition alone, not on the raw labels.

use vstd::prelude::*;
use crate::prune::label_count;
use crate::sums::{ind, lemma_total_le, lemma_total_le_eq, total};

verus! {

/// The first index at or after `j` where `labels` holds `l`, or the length.
pub open spec fn first_from(labels: Seq<usize>, l: usize, j: int) -> int
    decreases labels.len() - j,
{
    if j >= labels.len() {
        labels.len() as int
    } else if labels[j] == l {
        j
    } else {
        first_from(labels, l, j + 1)
    }
}

/// The smallest member index of label `l` (the length when absent).
pub open spec fn first_index(labels: Seq<usize>, l: usize) -> int {
    first_from(labels, l, 0)
}

/// Members of label `l`.
pub open spec fn cluster_size(labels: Seq<usize>, l: usize) -> int {
    label_count(labels, l, labels.len() as int)
}

/// The cluster of the member at `j` comes before that of the member at `i`:
/// `j` is the first member of its cluster, and that cluster is larger, or
/// as large with a smaller first member.
pub open spec fn ahead(labels: Seq<usize>, j: int, i: int) -> bool {
    let a = labels[j];
    let b = labels[i];
    &&& first_index(labels, a) == j
    &&& (cluster_size(labels, a) > cluster_size(labels, b) || (cluster_size(labels, a) == cluster_size(
        labels,
        b,
    ) && j < first_index(labels, b)))
}

/// The canonical id of the member at `i`: how many clusters come before its
/// own.
pub open spec fn canonical_id(labels: Seq<usize>, i: int) -> int {
    total(labels.len() as int, |j: int| ind(ahead(labels, j, i)))
}

proof fn lemma_first_from(labels: Seq<usize>, l: usize, j: int)
    requires
        0 <= j <= labels.len(),
    ensures
        j <= first_from(labels, l, j) <= labels.len(),
        first_from(labels, l, j) < labels.len() ==> labels[first_from(labels, l, j)] == l,
        forall|q: int| j <= q < first_from(labels, l, j) ==> labels[q] != l,
    decreases labels.len() - j,
{
    if j < labels.len() && labels[j] != l {
        lemma_first_from(labels, l, j + 1);
    }
}

/// A member's cluster has a first member, at or before it.
proof fn lemma_first_index_of_member(labels: Seq<usize>, i: int)
    requires
        0 <= i < labels.len(),
    ensures
        0 <= first_index(labels, labels[i]) <= i,
        labels[first_index(labels, labels[i])] == labels[i],
        first_index(labels, labels[first_index(labels, labels[i])]) == first_index(labels, labels[i]),
{
    lemma_first_from(labels, labels[i], 0);
}

fn size_of(labels: &Vec<usize>, l: usize) -> (c: usize)
    ensures
        c == cluster_size(labels@, l),
{
    let mut c: usize = 0;
    let mut j: usize = 0;
    while j < labels.len()
        invariant
            j <= labels.len(),
            c == label_count(labels@, l, j as int),
            c <= j,
        decreases labels.len() - j,
    {
        if labels[j] == l {
            c += 1;
        }
        j += 1;
    }
    c
}

fn first_of(labels: &Vec<usize>, l: usize) -> (f: usize)
    ensures
        f == first_index(labels@, l),
{
    let mut j: usize = 0;
    while j < labels.len()
        invariant
            j <= labels.len(),
            first_from(labels@, l, 0) == first_from(labels@, l, j as int),
        decreases labels.len() - j,
    {
        if labels[j] == l {
            return j;
        }
        j += 1;
    }
    j
}

/// Relabel `labels` canonically: each cluster gets as id the number of
/// clusters that are larger, or as large with a smaller first member. Two
/// members share an id exactly when they shared a label, so the partition
/// is unchanged.
pub fn canonical_labels(labels: &Vec<usize>) -> (out: Vec<usize>)
    ensures
        out.len() == labels.len(),
        forall|i: int| 0 <= i < labels.len() ==> (#[trigger] out@[i]) as int == canonical_id(labels@, i),
        forall|i: int, k: int|
            0 <= i < labels.len() && 0 <= k < labels.len() ==> ((#[trigger] out@[i] == #[trigger] out@[k])
                <==> labels@[i] == labels@[k]),
{
    let n = labels.len();
    let ghost s = labels@;
    let mut size: Vec<usize> = Vec::new();
    let mut first: Vec<usize> = Vec::new();
    let mut i: usize = 0;
    while i < n
        invariant
            n == labels.len(),
            s == labels@,
            i <= n,
            size.len() == i,
            first.len() == i,
            forall|q: int| 0 <= q < i ==> #[trigger] size@[q] as int == cluster_size(s, s[q]),
            forall|q: int| 0 <= q < i ==> #[trigger] first@[q] as int == first_index(s, s[q]),
        decreases n - i,
    {
        size.push(size_of(labels, labels[i]));
        first.push(first_of(labels, labels[i]));
        i += 1;
    }
    let mut out: Vec<usize> = Vec::new();
    let mut i: usize = 0;
    while i < n
        invariant
            n == labels.len(),
            s == labels@,
            i <= n,
            size.len() == n,
            first.len() == n,
            forall|q: int| 0 <= q < n ==> #[trigger] size@[q] as int == cluster_size(s, s[q]),
            forall|q: int| 0 <= q < n ==> #[trigger] first@[q] as int == first_index(s, s[q]),
            out.len() == i,
            forall|q: int| 0 <= q < i ==> (#[trigger] out@[q]) as int == canonical_id(s, q),
        decreases n - i,
    {
        let mut c: usize = 0;
        let mut j: usize = 0;
        while j < n
            invariant
                n == labels.len(),
                s == labels@,
                i < n,
                j <= n,
                size.len() == n,
                first.len() == n,
                forall|q: int| 0 <= q < n ==> #[trigger] size@[q] as int == cluster_size(s, s[q]),
                forall|q: int| 0 <= q < n ==> #[trigger] first@[q] as int == first_index(s, s[q]),
                c as int == total(j as int, |q: int| ind(ahead(s, q, i as int))),
                c <= j,
            decreases n - j,
        {
            if first[j] == j && (size[j] > size[i] || (size[j] == size[i] && j < first[i])) {
                c += 1;
            }
            j += 1;
        }
        out.push(c);
        i += 1;
    }
    proof {
        assert forall|i: int, k: int|
            0 <= i < n && 0 <= k < n implies ((#[trigger] out@[i] == #[trigger] out@[k]) <==> s[i] == s[k]) by {
            if s[i] == s[k] {
                assert forall|q: int| 0 <= q < n implies #[trigger] ind(ahead(s, q, i)) == ind(ahead(s, q, k)) by {}
                lemma_total_ext_ind(s, i, k);
            } else {
                lemma_distinct_ids(s, i, k);
            }
        }
    }
    out
}

proof fn lemma_total_ext_ind(s: Seq<usize>, i: int, k: int)
    requires
        0 <= i < s.len(),
        0 <= k < s.len(),
        s[i] == s[k],
    ensures
        canonical_id(s, i) == canonical_id(s, k),
{
    crate::sums::lemma_total_ext(s.len() as int, |q: int| ind(ahead(s, q, i)), |q: int| ind(ahead(s, q, k)));
}

/// Members of different clusters get different ids.
proof fn lemma_distinct_ids(s: Seq<usize>, i: int, k: int)
    requires
        0 <= i < s.len(),
        0 <= k < s.len(),
        s[i] != s[k],
    ensures
        canonical_id(s, i) != canonical_id(s, k),
{
    lemma_first_index_of_member(s, i);
    lemma_first_index_of_member(s, k);
    let fi = first_index(s, s[i]);
    let fk = first_index(s, s[k]);
    assert(fi != fk);
    // Order the two clusters; the one ahead has the smaller id.
    let (x, y) = if ahead(s, fi, k) {
        (i, k)
    } else {
        (k, i)
    };
    let fx = first_index(s, s[x]);
    assert(ahead(s, fx, y));
    let n = s.len() as int;
    assert forall|q: int| 0 <= q < n implies #[trigger] ind(ahead(s, q, x)) <= ind(ahead(s, q, y)) by {
        if ahead(s, q, x) {
            lemma_first_index_of_member(s, q);
        }
    }
    assert(!ahead(s, fx, x));
    if canonical_id(s, x) == canonical_id(s, y) {
        lemma_total_le_eq(n, |q: int| ind(ahead(s, q, x)), |q: int| ind(ahead(s, q, y)), fx);
    }
}

} // verus!
