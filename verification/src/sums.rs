//! Finite sums over index ranges, and the facts about them that the scoring
//! proofs use: extensionality, additivity, single non-zero terms, exchange
//! of a double sum, and re-indexing over a list without repeats.

use vstd::prelude::*;

verus! {

/// `g(0) + g(1) + ... + g(n - 1)`.
pub open spec fn total(n: int, g: spec_fn(int) -> int) -> int
    decreases n,
{
    if n <= 0 {
        0
    } else {
        total(n - 1, g) + g(n - 1)
    }
}

/// `g(i) + g(i + 1) + ... + g(n - 1)`.
pub open spec fn total_from(i: int, n: int, g: spec_fn(int) -> int) -> int
    decreases n - i,
{
    if i >= n {
        0
    } else {
        g(i) + total_from(i + 1, n, g)
    }
}

/// `1` when `b` holds, else `0`.
pub open spec fn ind(b: bool) -> int {
    if b {
        1
    } else {
        0
    }
}

/// Sums of pointwise equal terms are equal.
pub proof fn lemma_total_ext(n: int, g: spec_fn(int) -> int, h: spec_fn(int) -> int)
    requires
        forall|i: int| 0 <= i < n ==> #[trigger] g(i) == h(i),
    ensures
        total(n, g) == total(n, h),
    decreases n,
{
    if n > 0 {
        lemma_total_ext(n - 1, g, h);
    }
}

/// The sum of a pointwise sum is the sum of the sums.
pub proof fn lemma_total_add(n: int, g: spec_fn(int) -> int, h: spec_fn(int) -> int, f: spec_fn(int) -> int)
    requires
        forall|i: int| 0 <= i < n ==> #[trigger] f(i) == g(i) + h(i),
    ensures
        total(n, f) == total(n, g) + total(n, h),
    decreases n,
{
    if n > 0 {
        lemma_total_add(n - 1, g, h, f);
    }
}

/// A sum whose terms are zero but for index `j` is that term.
pub proof fn lemma_total_single(n: int, g: spec_fn(int) -> int, j: int)
    requires
        0 <= j < n,
        forall|i: int| 0 <= i < n && i != j ==> #[trigger] g(i) == 0,
    ensures
        total(n, g) == g(j),
    decreases n,
{
    if n - 1 > j {
        lemma_total_single(n - 1, g, j);
    } else {
        lemma_total_zero(n - 1, g);
    }
}

/// A sum of zero terms is zero.
pub proof fn lemma_total_zero(n: int, g: spec_fn(int) -> int)
    requires
        forall|i: int| 0 <= i < n ==> #[trigger] g(i) == 0,
    ensures
        total(n, g) == 0,
    decreases n,
{
    if n > 0 {
        lemma_total_zero(n - 1, g);
    }
}

/// A sum of terms each at most the matching term of another is at most its
/// sum.
pub proof fn lemma_total_le(n: int, g: spec_fn(int) -> int, h: spec_fn(int) -> int)
    requires
        forall|i: int| 0 <= i < n ==> #[trigger] g(i) <= h(i),
    ensures
        total(n, g) <= total(n, h),
    decreases n,
{
    if n > 0 {
        lemma_total_le(n - 1, g, h);
    }
}

/// If a sum of terms, each at most the matching term of another, reaches
/// that other sum, the terms are equal.
pub proof fn lemma_total_le_eq(n: int, g: spec_fn(int) -> int, h: spec_fn(int) -> int, j: int)
    requires
        forall|i: int| 0 <= i < n ==> #[trigger] g(i) <= h(i),
        total(n, g) >= total(n, h),
        0 <= j < n,
    ensures
        g(j) == h(j),
    decreases n,
{
    lemma_total_le(n - 1, g, h);
    if j < n - 1 {
        lemma_total_le_eq(n - 1, g, h, j);
    }
}

/// Suffix and prefix sums agree.
pub proof fn lemma_total_from(i: int, n: int, g: spec_fn(int) -> int)
    requires
        0 <= i <= n,
    ensures
        total_from(i, n, g) == total(n, g) - total(i, g),
    decreases n - i,
{
    if i < n {
        lemma_total_from(i + 1, n, g);
    }
}

/// `sum_a sum_i c(a, i)` over rows `a < rows`, one row's sum at a time.
pub open spec fn row_sums(rows: int, n: int, c: spec_fn(int, int) -> int) -> int
    decreases rows,
{
    if rows <= 0 {
        0
    } else {
        row_sums(rows - 1, n, c) + total(n, |i: int| c(rows - 1, i))
    }
}

/// `sum_i sum_a c(a, i)`, one column's sum at a time.
pub open spec fn col_sums(rows: int, n: int, c: spec_fn(int, int) -> int) -> int
    decreases n,
{
    if n <= 0 {
        0
    } else {
        col_sums(rows, n - 1, c) + total(rows, |a: int| c(a, n - 1))
    }
}

proof fn lemma_row_sums_step(rows: int, n: int, c: spec_fn(int, int) -> int)
    requires
        n >= 1,
    ensures
        row_sums(rows, n, c) == row_sums(rows, n - 1, c) + total(rows, |a: int| c(a, n - 1)),
    decreases rows,
{
    if rows > 0 {
        lemma_row_sums_step(rows - 1, n, c);
    }
}

/// A double sum may be taken in either order.
pub proof fn lemma_sum_exchange(rows: int, n: int, c: spec_fn(int, int) -> int)
    ensures
        row_sums(rows, n, c) == col_sums(rows, n, c),
    decreases n,
{
    if n <= 0 {
        lemma_row_sums_empty(rows, n, c);
    } else {
        lemma_row_sums_step(rows, n, c);
        lemma_sum_exchange(rows, n - 1, c);
    }
}

proof fn lemma_row_sums_empty(rows: int, n: int, c: spec_fn(int, int) -> int)
    requires
        n <= 0,
    ensures
        row_sums(rows, n, c) == 0,
    decreases rows,
{
    if rows > 0 {
        lemma_row_sums_empty(rows - 1, n, c);
    }
}

/// Row sums agree when every row's sum agrees.
pub proof fn lemma_row_sums_ext(rows: int, n: int, c: spec_fn(int, int) -> int, g: spec_fn(int) -> int)
    requires
        forall|a: int| 0 <= a < rows ==> #[trigger] g(a) == total(n, |i: int| c(a, i)),
    ensures
        row_sums(rows, n, c) == total(rows, g),
    decreases rows,
{
    if rows > 0 {
        lemma_row_sums_ext(rows - 1, n, c, g);
    }
}

/// Column sums agree when every column's sum agrees.
pub proof fn lemma_col_sums_ext(rows: int, n: int, c: spec_fn(int, int) -> int, g: spec_fn(int) -> int)
    requires
        forall|i: int| 0 <= i < n ==> #[trigger] g(i) == total(rows, |a: int| c(a, i)),
    ensures
        col_sums(rows, n, c) == total(n, g),
    decreases n,
{
    if n > 0 {
        lemma_col_sums_ext(rows, n - 1, c, g);
    }
}

/// Over a list `x` without repeats whose items all occur in a list `y`
/// without repeats, summing `f` over `x` is summing it over the items of `y`
/// that occur in `x`.
pub proof fn lemma_reindex(x: Seq<u32>, y: Seq<u32>, f: spec_fn(u32) -> int)
    requires
        forall|a: int, b: int| 0 <= a < x.len() && 0 <= b < x.len() && a != b ==> x[a] != x[b],
        forall|a: int, b: int| 0 <= a < y.len() && 0 <= b < y.len() && a != b ==> y[a] != y[b],
        forall|k: int| 0 <= k < x.len() ==> y.contains(#[trigger] x[k]),
    ensures
        total(x.len() as int, |k: int| f(x[k])) == total(
            y.len() as int,
            |a: int| if x.contains(y[a]) {
                f(y[a])
            } else {
                0
            },
        ),
    decreases x.len(),
{
    let gy = |a: int|
        if x.contains(y[a]) {
            f(y[a])
        } else {
            0
        };
    if x.len() == 0 {
        lemma_total_zero(y.len() as int, gy);
    } else {
        let xp = x.drop_last();
        let e = x.last();
        lemma_reindex(xp, y, f);
        let gp = |a: int|
            if xp.contains(y[a]) {
                f(y[a])
            } else {
                0
            };
        let ge = |a: int|
            if y[a] == e {
                f(e)
            } else {
                0
            };
        assert(!xp.contains(e)) by {
            if xp.contains(e) {
                let q = choose|q: int| 0 <= q < xp.len() && xp[q] == e;
                assert(x[q] == x[x.len() - 1]);
            }
        }
        assert forall|a: int| 0 <= a < y.len() implies #[trigger] gy(a) == gp(a) + ge(a) by {
            if x.contains(y[a]) {
                let q = choose|q: int| 0 <= q < x.len() && x[q] == y[a];
                if q < x.len() - 1 {
                    assert(xp[q] == y[a]);
                }
            }
            if xp.contains(y[a]) {
                let q = choose|q: int| 0 <= q < xp.len() && xp[q] == y[a];
                assert(x[q] == y[a]);
            }
            if y[a] == e {
                assert(x[x.len() - 1] == y[a]);
            }
        }
        lemma_total_add(y.len() as int, gp, ge, gy);
        assert(y.contains(x[x.len() - 1]));
        let j = choose|j: int| 0 <= j < y.len() && y[j] == e;
        lemma_total_single(y.len() as int, ge, j);
        assert(total(x.len() as int, |k: int| f(x[k])) == total(xp.len() as int, |k: int| f(x[k]))
            + f(e));
        lemma_total_ext(xp.len() as int, |k: int| f(x[k]), |k: int| f(xp[k]));
    }
}

} // verus!
