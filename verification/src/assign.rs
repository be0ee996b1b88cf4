//! Maximum-weight one-to-one assignment between the rows and the columns of a
//! non-negative weight table (Kuhn-Munkres).
//!
//! Rows and columns stand for two sets of speaker ids (hypothesis and
//! reference); the weight of a cell is how often the two co-occur. An
//! assignment gives each row at most one column and never gives one column to
//! two rows.
//!
//! The Hungarian method computes a candidate assignment together with dual
//! potentials. Before the candidate is returned, its dual certificate is
//! checked; weak duality then proves it optimal. Should the check ever fail,
//! an exhaustive search that is optimal by construction is used instead.

use vstd::prelude::*;

verus! {

/// Weight of the cell `(i, o)`: the table entry when row `i` is assigned,
/// zero when it is left out.
pub open spec fn cell_weight(w: Seq<Vec<u64>>, i: int, o: Option<usize>) -> int {
    match o {
        Some(j) => w[i]@[j as int] as int,
        None => 0,
    }
}

/// A table with `w.len()` rows of `ncols` columns each.
pub open spec fn well_formed_table(w: Seq<Vec<u64>>, ncols: nat) -> bool {
    forall|i: int| 0 <= i < w.len() ==> (#[trigger] w[i])@.len() == ncols
}

/// Column `j` is given to some row `k` with `i <= k`.
pub open spec fn taken_from(a: Seq<Option<usize>>, i: int, j: int) -> bool {
    exists|k: int| i <= k < a.len() && #[trigger] a[k] is Some && a[k]->0 as int == j
}

/// One column at most per row, only existing columns, and no column twice.
pub open spec fn is_assignment(a: Seq<Option<usize>>, ncols: nat) -> bool {
    &&& forall|i: int| 0 <= i < a.len() && (#[trigger] a[i]) is Some ==> (a[i]->0 as int) < ncols
    &&& forall|i: int, k: int|
        0 <= i < a.len() && 0 <= k < a.len() && i != k && (#[trigger] a[i]) is Some && (
        #[trigger] a[k]) is Some ==> a[i]->0 != a[k]->0
}

/// Total weight of the rows `i..` of `a`.
pub open spec fn weight_from(w: Seq<Vec<u64>>, a: Seq<Option<usize>>, i: int) -> int
    decreases a.len() - i,
{
    if i >= a.len() || i < 0 {
        0
    } else {
        cell_weight(w, i, a[i]) + weight_from(w, a, i + 1)
    }
}

/// Total weight of an assignment.
pub open spec fn assignment_weight(w: Seq<Vec<u64>>, a: Seq<Option<usize>>) -> int {
    weight_from(w, a, 0)
}

/// `a` is an assignment of all rows of `w` whose weight no other assignment
/// exceeds.
pub open spec fn is_max_weight_assignment(
    w: Seq<Vec<u64>>,
    ncols: nat,
    a: Seq<Option<usize>>,
) -> bool {
    &&& a.len() == w.len()
    &&& is_assignment(a, ncols)
    &&& forall|b: Seq<Option<usize>>|
        b.len() == w.len() && is_assignment(b, ncols) ==> #[trigger] assignment_weight(w, b)
            <= assignment_weight(w, a)
}

// ---------------------------------------------------------------------------
// Weak duality
// ---------------------------------------------------------------------------

/// Sum of `s[0..k]`.
pub open spec fn sum_to(s: Seq<int>, k: int) -> int
    decreases k,
{
    if k <= 0 {
        0
    } else {
        sum_to(s, k - 1) + s[k - 1]
    }
}

/// Sum of the row potentials of the rows `i..` that `b` assigns.
pub open spec fn row_pot_from(u: Seq<int>, b: Seq<Option<usize>>, i: int) -> int
    decreases b.len() - i,
{
    if i >= b.len() || i < 0 {
        0
    } else {
        (if b[i] is Some {
            u[i]
        } else {
            0
        }) + row_pot_from(u, b, i + 1)
    }
}

/// Sum of the column potentials of the columns that the rows `i..` of `b` take.
pub open spec fn col_pot_from(v: Seq<int>, b: Seq<Option<usize>>, i: int) -> int
    decreases b.len() - i,
{
    if i >= b.len() || i < 0 {
        0
    } else {
        (match b[i] {
            Some(j) => v[j as int],
            None => 0,
        }) + col_pot_from(v, b, i + 1)
    }
}

/// Sum of the column potentials of the columns `0..k` that no row `i..` of `b` takes.
pub open spec fn free_col_pot(v: Seq<int>, b: Seq<Option<usize>>, i: int, k: int) -> int
    decreases k,
{
    if k <= 0 {
        0
    } else {
        free_col_pot(v, b, i, k - 1) + (if taken_from(b, i, k - 1) {
            0
        } else {
            v[k - 1]
        })
    }
}

/// Dual potentials `u`, `v` prove `a` optimal: they are non-negative, cover
/// every cell, are tight on the assigned cells, and vanish on unassigned rows
/// and untaken columns.
pub open spec fn certifies(
    w: Seq<Vec<u64>>,
    ncols: nat,
    a: Seq<Option<usize>>,
    u: Seq<int>,
    v: Seq<int>,
) -> bool {
    &&& u.len() == w.len()
    &&& v.len() == ncols
    &&& a.len() == w.len()
    &&& well_formed_table(w, ncols)
    &&& is_assignment(a, ncols)
    &&& forall|i: int| 0 <= i < u.len() ==> #[trigger] u[i] >= 0
    &&& forall|j: int| 0 <= j < v.len() ==> #[trigger] v[j] >= 0
    &&& forall|i: int, j: int|
        0 <= i < w.len() && 0 <= j < ncols ==> u[i] + v[j] >= #[trigger] w[i]@[j] as int
    &&& forall|i: int|
        0 <= i < a.len() ==> match #[trigger] a[i] {
            Some(j) => u[i] + v[j as int] == w[i]@[j as int] as int,
            None => u[i] == 0,
        }
    &&& forall|j: int| 0 <= j < ncols && !taken_from(a, 0, j) ==> #[trigger] v[j] == 0
}

proof fn lemma_assignment_suffix_weight_bound(
    w: Seq<Vec<u64>>,
    ncols: nat,
    b: Seq<Option<usize>>,
    u: Seq<int>,
    v: Seq<int>,
    i: int,
)
    requires
        0 <= i <= b.len(),
        b.len() == w.len(),
        u.len() == w.len(),
        v.len() == ncols,
        well_formed_table(w, ncols),
        is_assignment(b, ncols),
        forall|i: int, j: int|
            0 <= i < w.len() && 0 <= j < ncols ==> u[i] + v[j] >= #[trigger] w[i]@[j] as int,
    ensures
        weight_from(w, b, i) <= row_pot_from(u, b, i) + col_pot_from(v, b, i),
    decreases b.len() - i,
{
    if i < b.len() {
        lemma_assignment_suffix_weight_bound(w, ncols, b, u, v, i + 1);
        if let Some(j) = b[i] {
            assert(u[i] + v[j as int] >= w[i]@[j as int] as int);
        }
    }
}

proof fn lemma_row_pot_bound(u: Seq<int>, b: Seq<Option<usize>>, i: int)
    requires
        0 <= i <= b.len(),
        u.len() == b.len(),
        forall|k: int| 0 <= k < u.len() ==> #[trigger] u[k] >= 0,
    ensures
        row_pot_from(u, b, i) <= sum_to(u, u.len() as int) - sum_to(u, i),
        (forall|k: int| i <= k < b.len() ==> (#[trigger] b[k] is Some || u[k] == 0)) ==> row_pot_from(
            u,
            b,
            i,
        ) == sum_to(u, u.len() as int) - sum_to(u, i),
    decreases b.len() - i,
{
    if i < b.len() {
        lemma_row_pot_bound(u, b, i + 1);
        lemma_sum_to_step(u, i);
    }
}

proof fn lemma_sum_to_step(s: Seq<int>, i: int)
    requires
        0 <= i,
    ensures
        sum_to(s, i + 1) == sum_to(s, i) + s[i],
{
}

proof fn lemma_free_col_pot_drop(v: Seq<int>, b: Seq<Option<usize>>, i: int, k: int)
    requires
        0 <= i < b.len(),
        0 <= k,
        b[i] is Some,
        !taken_from(b, i + 1, b[i]->0 as int),
    ensures
        free_col_pot(v, b, i, k) == free_col_pot(v, b, i + 1, k) - (if (b[i]->0 as int) < k {
            v[b[i]->0 as int]
        } else {
            0
        }),
    decreases k,
{
    if k > 0 {
        lemma_free_col_pot_drop(v, b, i, k - 1);
        let j = k - 1;
        let j0 = b[i]->0 as int;
        if j == j0 {
            assert(taken_from(b, i, j));
        } else {
            if taken_from(b, i, j) {
                let kk = choose|kk: int| i <= kk < b.len() && b[kk] is Some && b[kk]->0 as int == j;
                assert(kk != i);
                assert(taken_from(b, i + 1, j));
            }
            if taken_from(b, i + 1, j) {
                let kk = choose|kk: int| i + 1 <= kk < b.len() && b[kk] is Some && b[kk]->0 as int == j;
                assert(taken_from(b, i, j));
            }
        }
    }
}

proof fn lemma_free_col_pot_same(v: Seq<int>, b: Seq<Option<usize>>, i: int, k: int)
    requires
        0 <= i < b.len(),
        0 <= k,
        b[i] is None,
    ensures
        free_col_pot(v, b, i, k) == free_col_pot(v, b, i + 1, k),
    decreases k,
{
    if k > 0 {
        lemma_free_col_pot_same(v, b, i, k - 1);
        let j = k - 1;
        if taken_from(b, i, j) {
            let kk = choose|kk: int| i <= kk < b.len() && b[kk] is Some && b[kk]->0 as int == j;
            assert(kk != i);
            assert(taken_from(b, i + 1, j));
        }
        if taken_from(b, i + 1, j) {
            let kk = choose|kk: int| i + 1 <= kk < b.len() && b[kk] is Some && b[kk]->0 as int == j;
            assert(taken_from(b, i, j));
        }
    }
}

proof fn lemma_free_col_pot_none_taken(v: Seq<int>, b: Seq<Option<usize>>, k: int)
    requires
        0 <= k,
    ensures
        free_col_pot(v, b, b.len() as int, k) == sum_to(v, k),
    decreases k,
{
    if k > 0 {
        lemma_free_col_pot_none_taken(v, b, k - 1);
        assert(!taken_from(b, b.len() as int, k - 1));
    }
}

/// Taken plus untaken column potentials add up to the sum of all of them.
proof fn lemma_col_pot_split(v: Seq<int>, ncols: nat, b: Seq<Option<usize>>, i: int)
    requires
        0 <= i <= b.len(),
        v.len() == ncols,
        is_assignment(b, ncols),
    ensures
        col_pot_from(v, b, i) + free_col_pot(v, b, i, ncols as int) == sum_to(v, ncols as int),
    decreases b.len() - i,
{
    if i == b.len() {
        lemma_free_col_pot_none_taken(v, b, ncols as int);
    } else {
        lemma_col_pot_split(v, ncols, b, i + 1);
        match b[i] {
            Some(j) => {
                assert((j as int) < ncols);
                if taken_from(b, i + 1, j as int) {
                    let kk = choose|kk: int| i + 1 <= kk < b.len() && b[kk] is Some && b[kk]->0 as int == j as int;
                    assert(b[kk] is Some && b[i] is Some);
                }
                lemma_free_col_pot_drop(v, b, i, ncols as int);
            },
            None => {
                lemma_free_col_pot_same(v, b, i, ncols as int);
            },
        }
    }
}

proof fn lemma_free_col_pot_nonneg(v: Seq<int>, b: Seq<Option<usize>>, i: int, k: int)
    requires
        0 <= k <= v.len(),
        forall|j: int| 0 <= j < v.len() ==> #[trigger] v[j] >= 0,
    ensures
        free_col_pot(v, b, i, k) >= 0,
        (forall|j: int| 0 <= j < k && !taken_from(b, i, j) ==> #[trigger] v[j] == 0) ==> free_col_pot(
            v,
            b,
            i,
            k,
        ) == 0,
    decreases k,
{
    if k > 0 {
        lemma_free_col_pot_nonneg(v, b, i, k - 1);
    }
}

proof fn lemma_tight_weight(
    w: Seq<Vec<u64>>,
    a: Seq<Option<usize>>,
    u: Seq<int>,
    v: Seq<int>,
    i: int,
)
    requires
        0 <= i <= a.len(),
        a.len() == w.len(),
        u.len() == w.len(),
        forall|i: int|
            0 <= i < a.len() ==> match #[trigger] a[i] {
                Some(j) => u[i] + v[j as int] == w[i]@[j as int] as int,
                None => u[i] == 0,
            },
    ensures
        weight_from(w, a, i) == row_pot_from(u, a, i) + col_pot_from(v, a, i),
    decreases a.len() - i,
{
    if i < a.len() {
        lemma_tight_weight(w, a, u, v, i + 1);
        let _ = a[i];
    }
}

/// Weak duality: a certified assignment weighs at least as much as any other.
pub proof fn lemma_certified_is_optimal(
    w: Seq<Vec<u64>>,
    ncols: nat,
    a: Seq<Option<usize>>,
    u: Seq<int>,
    v: Seq<int>,
)
    requires
        certifies(w, ncols, a, u, v),
    ensures
        is_max_weight_assignment(w, ncols, a),
{
    lemma_tight_weight(w, a, u, v, 0);
    lemma_row_pot_bound(u, a, 0);
    assert forall|k: int| 0 <= k < a.len() implies (#[trigger] a[k] is Some || u[k] == 0) by {
        let _ = a[k];
    }
    lemma_col_pot_split(v, ncols, a, 0);
    lemma_free_col_pot_nonneg(v, a, 0, ncols as int);
    assert forall|b: Seq<Option<usize>>|
        b.len() == w.len() && is_assignment(b, ncols) implies #[trigger] assignment_weight(w, b)
        <= assignment_weight(w, a) by {
        lemma_assignment_suffix_weight_bound(w, ncols, b, u, v, 0);
        lemma_row_pot_bound(u, b, 0);
        lemma_col_pot_split(v, ncols, b, 0);
        lemma_free_col_pot_nonneg(v, b, 0, ncols as int);
    }
}

// ---------------------------------------------------------------------------
// Exhaustive search (used only if a certificate fails to check)
// ---------------------------------------------------------------------------

/// Best weight for the rows `i..` when the columns marked in `used` are
/// unavailable.
pub open spec fn best_rest(w: Seq<Vec<u64>>, i: int, used: Seq<bool>) -> int
    decreases w.len() - i, 1int, 0int,
{
    if i < 0 || i >= w.len() {
        0
    } else {
        let skip = best_rest(w, i + 1, used);
        let take = best_take(w, i, used, used.len() as int);
        if take > skip {
            take
        } else {
            skip
        }
    }
}

/// Best weight for the rows `i..` when row `i` takes one of the free
/// columns `0..j`; `-1` when none of them is free.
pub open spec fn best_take(w: Seq<Vec<u64>>, i: int, used: Seq<bool>, j: int) -> int
    decreases w.len() - i, 0int, j,
{
    if i < 0 || i >= w.len() || j <= 0 || j > used.len() {
        -1
    } else {
        let before = best_take(w, i, used, j - 1);
        let here = if !used[j - 1] {
            w[i]@[j - 1] as int + best_rest(w, i + 1, used.update(j - 1, true))
        } else {
            -1
        };
        if here > before {
            here
        } else {
            before
        }
    }
}

/// The rows `i..` of `b` use only existing, free columns, no column twice.
pub open spec fn avoids_from(b: Seq<Option<usize>>, i: int, used: Seq<bool>) -> bool {
    &&& forall|k: int|
        i <= k < b.len() && (#[trigger] b[k]) is Some ==> (b[k]->0 as int) < used.len() && !used[b[k]->0 as int]
    &&& forall|k1: int, k2: int|
        i <= k1 < b.len() && i <= k2 < b.len() && k1 != k2 && (#[trigger] b[k1]) is Some && (
        #[trigger] b[k2]) is Some ==> b[k1]->0 != b[k2]->0
}

proof fn lemma_best_take_covers(w: Seq<Vec<u64>>, i: int, used: Seq<bool>, j0: int, j: int)
    requires
        0 <= i < w.len(),
        0 <= j < j0 <= used.len(),
        !used[j],
    ensures
        best_take(w, i, used, j0) >= w[i]@[j] as int + best_rest(w, i + 1, used.update(j, true)),
    decreases j0,
{
    if j0 - 1 > j {
        lemma_best_take_covers(w, i, used, j0 - 1, j);
    }
}

proof fn lemma_best_rest_bounds(w: Seq<Vec<u64>>, b: Seq<Option<usize>>, i: int, used: Seq<bool>)
    requires
        0 <= i <= w.len(),
        b.len() == w.len(),
        avoids_from(b, i, used),
    ensures
        weight_from(w, b, i) <= best_rest(w, i, used),
    decreases w.len() - i,
{
    if i < w.len() {
        match b[i] {
            None => {
                lemma_best_rest_bounds(w, b, i + 1, used);
            },
            Some(j) => {
                let used2 = used.update(j as int, true);
                assert forall|k: int|
                    i + 1 <= k < b.len() && (#[trigger] b[k]) is Some implies (b[k]->0 as int)
                    < used2.len() && !used2[b[k]->0 as int] by {
                    assert(b[k]->0 != b[i]->0);
                }
                lemma_best_rest_bounds(w, b, i + 1, used2);
                lemma_best_take_covers(w, i, used, used.len() as int, j as int);
            },
        }
    }
}

proof fn lemma_best_nonneg(w: Seq<Vec<u64>>, i: int, used: Seq<bool>)
    ensures
        best_rest(w, i, used) >= 0,
    decreases w.len() - i,
{
    if 0 <= i < w.len() {
        lemma_best_nonneg(w, i + 1, used);
    }
}

/// Fills the rows `i..` of `a` with a best choice of free columns and returns
/// its weight.
fn search_rest(
    w: &Vec<Vec<u64>>,
    ncols: usize,
    i: usize,
    used: &mut Vec<bool>,
    a: &mut Vec<Option<usize>>,
) -> (val: u128)
    requires
        i <= w.len(),
        old(a).len() == w.len(),
        old(used).len() == ncols,
        well_formed_table(w@, ncols as nat),
    ensures
        final(used)@ == old(used)@,
        final(a).len() == old(a).len(),
        forall|k: int| 0 <= k < i ==> final(a)@[k] == old(a)@[k],
        avoids_from(final(a)@, i as int, old(used)@),
        weight_from(w@, final(a)@, i as int) == val as int,
        val as int == best_rest(w@, i as int, old(used)@),
        val as int <= (w.len() - i) * (u64::MAX as int),
    decreases w.len() - i,
{
    let n = w.len();
    if i >= n {
        return 0;
    }
    let ghost used0 = used@;
    let ghost a0 = a@;
    a.set(i, None);
    let skip_val = search_rest(w, ncols, i + 1, used, a);
    let mut best_val = skip_val;
    let mut best_col: Option<usize> = None;
    let mut j: usize = 0;
    while j < ncols
        invariant
            n == w.len(),
            i < n,
            j <= ncols,
            used@ == used0,
            used0.len() == ncols,
            a.len() == n,
            forall|k: int| 0 <= k < i ==> a@[k] == a0[k],
            well_formed_table(w@, ncols as nat),
            best_val as int == (if best_take(w@, i as int, used0, j as int) > best_rest(
                w@,
                i as int + 1,
                used0,
            ) {
                best_take(w@, i as int, used0, j as int)
            } else {
                best_rest(w@, i as int + 1, used0)
            }),
            best_val as int <= (n - i) * (u64::MAX as int),
            match best_col {
                None => best_val as int == best_rest(w@, i as int + 1, used0),
                Some(c) => c < j && !used0[c as int] && best_val as int == w@[i as int]@[c as int] as int
                    + best_rest(w@, i as int + 1, used0.update(c as int, true)),
            },
        decreases ncols - j,
    {
        if !used[j] {
            used.set(j, true);
            let ghost used1 = used@;
            assert(used1 == used0.update(j as int, true));
            a.set(i, Some(j));
            let rest = search_rest(w, ncols, i + 1, used, a);
            used.set(j, false);
            assert(used@ =~= used0);
            let wij = w[i][j];
            assert((n - i) * (u64::MAX as int) == (n - (i + 1)) * (u64::MAX as int) + u64::MAX)
                by (nonlinear_arith)
                requires
                    i < n,
            ;
            let cand: u128 = wij as u128 + rest;
            if cand > best_val {
                best_val = cand;
                best_col = Some(j);
            }
        }
        j += 1;
    }
    // Rebuild the rows `i..` for the winning choice.
    match best_col {
        None => {
            a.set(i, None);
            let v = search_rest(w, ncols, i + 1, used, a);
            proof {
                lemma_best_nonneg(w@, i as int + 1, used0);
            }
            v
        },
        Some(c) => {
            used.set(c, true);
            a.set(i, Some(c));
            let rest = search_rest(w, ncols, i + 1, used, a);
            used.set(c, false);
            assert(used@ =~= used0);
            let ghost aa = a@;
            proof {
                let used2 = used0.update(c as int, true);
                assert forall|k: int|
                    i <= k < aa.len() && (#[trigger] aa[k]) is Some implies (aa[k]->0 as int)
                    < used0.len() && !used0[aa[k]->0 as int] by {
                    if k > i {
                        assert(!used2[aa[k]->0 as int]);
                    }
                }
                assert forall|k1: int, k2: int|
                    i <= k1 < aa.len() && i <= k2 < aa.len() && k1 != k2 && (#[trigger] aa[k1])
                        is Some && (#[trigger] aa[k2]) is Some implies aa[k1]->0 != aa[k2]->0 by {
                    if k1 > i && k2 > i {
                    } else if k1 == i {
                        assert(!used2[aa[k2]->0 as int]);
                    } else {
                        assert(!used2[aa[k1]->0 as int]);
                    }
                }
            }
            w[i][c] as u128 + rest
        },
    }
}

// ---------------------------------------------------------------------------
// Certificate check
// ---------------------------------------------------------------------------

/// The integers held by a vector of `i128`.
pub open spec fn int_seq(s: Seq<i128>) -> Seq<int> {
    s.map_values(|x: i128| x as int)
}

/// A vector of `len` copies of `x`.
fn filled<T: Copy>(x: T, len: usize) -> (r: Vec<T>)
    ensures
        r.len() == len,
        forall|k: int| 0 <= k < len ==> r@[k] == x,
{
    let mut r: Vec<T> = Vec::new();
    let mut k: usize = 0;
    while k < len
        invariant
            k <= len,
            r.len() == k,
            forall|q: int| 0 <= q < k ==> r@[q] == x,
        decreases len - k,
    {
        r.push(x);
        k += 1;
    }
    r
}

/// Every sum of a row potential and a column potential fits in an `i128`.
pub open spec fn sums_fit(u: Seq<int>, v: Seq<int>) -> bool {
    forall|i: int, j: int|
        #![trigger u[i], v[j]]
        0 <= i < u.len() && 0 <= j < v.len() ==> u[i] + v[j] <= i128::MAX
}

/// Checks that `u`, `v` certify `a` (see [`certifies`]); potentials whose
/// sums leave the range of `i128` are refused.
fn check_certificate(
    w: &Vec<Vec<u64>>,
    ncols: usize,
    a: &Vec<Option<usize>>,
    u: &Vec<i128>,
    v: &Vec<i128>,
) -> (ok: bool)
    requires
        well_formed_table(w@, ncols as nat),
    ensures
        ok == (certifies(w@, ncols as nat, a@, int_seq(u@), int_seq(v@)) && sums_fit(
            int_seq(u@),
            int_seq(v@),
        )),
{
    let n = w.len();
    if a.len() != n || u.len() != n || v.len() != ncols {
        return false;
    }
    let ghost us = int_seq(u@);
    let ghost vs = int_seq(v@);
    // Columns taken so far, and the assignment property on the prefix.
    let mut taken: Vec<bool> = filled(false, ncols);
    let mut i: usize = 0;
    while i < n
        invariant
            n == a.len(),
            i <= n,
            taken.len() == ncols,
            forall|j: int| 0 <= j < ncols ==> (#[trigger] taken@[j] <==> exists|k: int|
                0 <= k < i && #[trigger] a@[k] is Some && a@[k]->0 as int == j),
            forall|k: int| 0 <= k < i && (#[trigger] a@[k]) is Some ==> (a@[k]->0 as int) < ncols,
            forall|k1: int, k2: int|
                0 <= k1 < i && 0 <= k2 < i && k1 != k2 && (#[trigger] a@[k1]) is Some && (
                #[trigger] a@[k2]) is Some ==> a@[k1]->0 != a@[k2]->0,
        decreases n - i,
    {
        if let Some(j) = a[i] {
            if j >= ncols {
                assert(!is_assignment(a@, ncols as nat)) by {
                    assert(a@[i as int] is Some);
                }
                return false;
            }
            if taken[j] {
                assert(!is_assignment(a@, ncols as nat)) by {
                    assert(taken@[j as int]);
                    let k = choose|k: int| 0 <= k < i && #[trigger] a@[k] is Some && a@[k]->0 as int == j;
                    assert(a@[i as int] is Some && a@[k] is Some && k != i);
                }
                return false;
            }
            taken.set(j, true);
            proof {
                assert forall|jj: int| 0 <= jj < ncols implies (#[trigger] taken@[jj] <==> exists|k: int|
                    0 <= k < i + 1 && #[trigger] a@[k] is Some && a@[k]->0 as int == jj) by {
                    if jj == j as int {
                        assert(a@[i as int] is Some && a@[i as int]->0 as int == jj);
                    }
                }
            }
        } else {
            proof {
                assert forall|jj: int| 0 <= jj < ncols implies (#[trigger] taken@[jj] <==> exists|k: int|
                    0 <= k < i + 1 && #[trigger] a@[k] is Some && a@[k]->0 as int == jj) by {
                    if exists|k: int| 0 <= k < i + 1 && #[trigger] a@[k] is Some && a@[k]->0 as int == jj {
                        let k = choose|k: int| 0 <= k < i + 1 && #[trigger] a@[k] is Some && a@[k]->0 as int == jj;
                        assert(k != i);
                    }
                }
            }
        }
        i += 1;
    }
    assert(is_assignment(a@, ncols as nat));
    // Signs.
    let mut i: usize = 0;
    while i < n
        invariant
            i <= n,
            n == u.len(),
            us == int_seq(u@),
            forall|k: int| 0 <= k < i ==> #[trigger] us[k] >= 0,
        decreases n - i,
    {
        if u[i] < 0 {
            assert(us[i as int] < 0);
            return false;
        }
        i += 1;
    }
    let mut j: usize = 0;
    while j < ncols
        invariant
            j <= ncols,
            ncols == v.len(),
            vs == int_seq(v@),
            forall|k: int| 0 <= k < j ==> #[trigger] vs[k] >= 0,
        decreases ncols - j,
    {
        if v[j] < 0 {
            assert(vs[j as int] < 0);
            return false;
        }
        j += 1;
    }
    // Cover, tightness, and vanishing on unassigned rows.
    let mut i: usize = 0;
    while i < n
        invariant
            i <= n,
            n == w.len(),
            n == u.len(),
            n == a.len(),
            ncols == v.len(),
            us == int_seq(u@),
            vs == int_seq(v@),
            well_formed_table(w@, ncols as nat),
            is_assignment(a@, ncols as nat),
            forall|k: int| 0 <= k < n ==> #[trigger] us[k] >= 0,
            forall|k: int| 0 <= k < ncols ==> #[trigger] vs[k] >= 0,
            forall|ii: int, jj: int|
                0 <= ii < i && 0 <= jj < ncols ==> us[ii] + vs[jj] >= #[trigger] w@[ii]@[jj] as int,
            forall|ii: int, jj: int|
                #![trigger us[ii], vs[jj]]
                0 <= ii < i && 0 <= jj < ncols ==> us[ii] + vs[jj] <= i128::MAX,
            forall|ii: int|
                0 <= ii < i ==> match #[trigger] a@[ii] {
                    Some(jj) => us[ii] + vs[jj as int] == w@[ii]@[jj as int] as int,
                    None => us[ii] == 0,
                },
        decreases n - i,
    {
        let row = &w[i];
        let mut j: usize = 0;
        while j < ncols
            invariant
                i < n,
                j <= ncols,
                n == w.len(),
                n == u.len(),
                ncols == v.len(),
                row@ == w@[i as int]@,
                row.len() == ncols,
                us == int_seq(u@),
                vs == int_seq(v@),
                forall|jj: int| 0 <= jj < j ==> us[i as int] + vs[jj] >= #[trigger] w@[i as int]@[jj] as int,
                forall|jj: int| 0 <= jj < j ==> us[i as int] + #[trigger] vs[jj] <= i128::MAX,
                forall|k: int| 0 <= k < n ==> #[trigger] us[k] >= 0,
                forall|k: int| 0 <= k < ncols ==> #[trigger] vs[k] >= 0,
            decreases ncols - j,
        {
            match u[i].checked_add(v[j]) {
                Some(s) => {
                    if s < row[j] as i128 {
                        assert(us[i as int] + vs[j as int] < w@[i as int]@[j as int] as int);
                        return false;
                    }
                },
                None => {
                    assert(us[i as int] >= 0 && vs[j as int] >= 0);
                    assert(us[i as int] + vs[j as int] > i128::MAX);
                    return false;
                },
            }
            j += 1;
        }
        match a[i] {
            Some(j) => {
                assert(a@[i as int] is Some);
                match u[i].checked_add(v[j]) {
                    Some(s) => {
                        if s != row[j] as i128 {
                            assert(us[i as int] + vs[j as int] != w@[i as int]@[j as int] as int);
                            return false;
                        }
                    },
                    None => {
                        assert(us[i as int] >= 0 && vs[j as int] >= 0);
                        assert(us[i as int] + vs[j as int] > i128::MAX);
                        return false;
                    },
                }
            },
            None => {
                if u[i] != 0 {
                    assert(a@[i as int] is None && us[i as int] != 0);
                    return false;
                }
            },
        }
        i += 1;
    }
    // Untaken columns carry no potential.
    let mut j: usize = 0;
    while j < ncols
        invariant
            j <= ncols,
            ncols == v.len(),
            ncols == taken.len(),
            vs == int_seq(v@),
            n == a.len(),
            forall|jj: int| 0 <= jj < ncols ==> (#[trigger] taken@[jj] <==> exists|k: int|
                0 <= k < n && #[trigger] a@[k] is Some && a@[k]->0 as int == jj),
            forall|jj: int| 0 <= jj < j && !taken_from(a@, 0, jj) ==> #[trigger] vs[jj] == 0,
        decreases ncols - j,
    {
        if !taken[j] && v[j] != 0 {
            assert(!taken_from(a@, 0, j as int) && vs[j as int] != 0);
            return false;
        }
        j += 1;
    }
    true
}

// ---------------------------------------------------------------------------
// Hungarian method (candidate + dual potentials)
// ---------------------------------------------------------------------------

/// Cost of cell `(i, j)` (1-based) of the square min-cost problem that pads
/// the table with zero rows and columns.
fn padded_cost(w: &Vec<Vec<u64>>, ncols: usize, i: usize, j: usize) -> (c: i128)
    requires
        well_formed_table(w@, ncols as nat),
    ensures
        c == (if 1 <= i <= w.len() && 1 <= j <= ncols {
            -(w@[i - 1]@[j - 1] as int)
        } else {
            0
        }),
{
    if 1 <= i && i <= w.len() && 1 <= j && j <= ncols {
        -(w[i - 1][j - 1] as i128)
    } else {
        0
    }
}

/// Kuhn-Munkres on the zero-padded square table. Returns an assignment of
/// the table's rows to its columns together with one potential per row and
/// one per column, or `None` when an arithmetic or bookkeeping guard trips.
/// That the potentials prove the assignment optimal is not claimed:
/// [`check_certificate`] decides whether it is used.
fn hungarian_candidate(w: &Vec<Vec<u64>>, ncols: usize) -> (r: Option<
    (Vec<Option<usize>>, Vec<i128>, Vec<i128>),
>)
    requires
        well_formed_table(w@, ncols as nat),
    ensures
        match r {
            Some((a, u, v)) => {
                &&& a.len() == w.len()
                &&& u.len() == w.len()
                &&& v.len() == ncols
                &&& is_assignment(a@, ncols as nat)
            },
            None => true,
        },
{
    let n = w.len();
    let big = if n >= ncols {
        n
    } else {
        ncols
    };
    if big >= usize::MAX - 1 {
        return None;
    }
    let inf: i128 = i128::MAX;
    let mut u: Vec<i128> = filled(0i128, big + 1);
    let mut v: Vec<i128> = filled(0i128, big + 1);
    let mut p: Vec<usize> = filled(0usize, big + 1);
    let mut way: Vec<usize> = filled(0usize, big + 1);
    let mut i: usize = 1;
    while i <= big
        invariant
            big < usize::MAX - 1,
            well_formed_table(w@, ncols as nat),
            u.len() == big + 1,
            v.len() == big + 1,
            p.len() == big + 1,
            way.len() == big + 1,
            forall|k: int| 0 <= k <= big ==> #[trigger] p@[k] <= big,
            forall|k: int| 0 <= k <= big ==> #[trigger] way@[k] <= big,
            1 <= i <= big + 1,
        decreases big + 1 - i,
    {
        p.set(0, i);
        let mut j0: usize = 0;
        let mut minv: Vec<i128> = filled(inf, big + 1);
        let mut used: Vec<bool> = filled(false, big + 1);
        let mut found = false;
        let mut step: usize = 0;
        while step <= big && !found
            invariant
                big < usize::MAX - 1,
                well_formed_table(w@, ncols as nat),
                u.len() == big + 1,
                v.len() == big + 1,
                p.len() == big + 1,
                way.len() == big + 1,
                minv.len() == big + 1,
                used.len() == big + 1,
                j0 <= big,
                forall|k: int| 0 <= k <= big ==> #[trigger] p@[k] <= big,
                forall|k: int| 0 <= k <= big ==> #[trigger] way@[k] <= big,
            decreases big + 1 - step,
        {
            used.set(j0, true);
            let i0 = p[j0];
            let mut delta: i128 = inf;
            let mut j1: usize = 0;
            let mut j: usize = 1;
            while j <= big
                invariant
                    big < usize::MAX - 1,
                    well_formed_table(w@, ncols as nat),
                    u.len() == big + 1,
                    v.len() == big + 1,
                    minv.len() == big + 1,
                    used.len() == big + 1,
                    way.len() == big + 1,
                    i0 <= big,
                    j0 <= big,
                    j1 <= big,
                    1 <= j <= big + 1,
                    forall|k: int| 0 <= k <= big ==> #[trigger] way@[k] <= big,
                decreases big + 1 - j,
            {
                if !used[j] {
                    let c = padded_cost(w, ncols, i0, j);
                    let cur = match c.checked_sub(u[i0]) {
                        Some(x) => match x.checked_sub(v[j]) {
                            Some(y) => y,
                            None => {
                                return None;
                            },
                        },
                        None => {
                            return None;
                        },
                    };
                    if cur < minv[j] {
                        minv.set(j, cur);
                        way.set(j, j0);
                    }
                    if minv[j] < delta {
                        delta = minv[j];
                        j1 = j;
                    }
                }
                j += 1;
            }
            if j1 == 0 || delta < 0 {
                return None;
            }
            let mut j: usize = 0;
            while j <= big
                invariant
                    big < usize::MAX - 1,
                    u.len() == big + 1,
                    v.len() == big + 1,
                    p.len() == big + 1,
                    minv.len() == big + 1,
                    used.len() == big + 1,
                    j <= big + 1,
                    forall|k: int| 0 <= k <= big ==> #[trigger] p@[k] <= big,
                decreases big + 1 - j,
            {
                if used[j] {
                    let r = p[j];
                    match u[r].checked_add(delta) {
                        Some(x) => {
                            u.set(r, x);
                        },
                        None => {
                            return None;
                        },
                    }
                    match v[j].checked_sub(delta) {
                        Some(x) => {
                            v.set(j, x);
                        },
                        None => {
                            return None;
                        },
                    }
                } else {
                    match minv[j].checked_sub(delta) {
                        Some(x) => {
                            minv.set(j, x);
                        },
                        None => {
                            return None;
                        },
                    }
                }
                j += 1;
            }
            j0 = j1;
            if p[j0] == 0 {
                found = true;
            }
            step += 1;
        }
        if !found {
            return None;
        }
        // Augment along the alternating path ending at `j0`.
        let mut steps: usize = 0;
        while j0 != 0 && steps <= big
            invariant
                p.len() == big + 1,
                way.len() == big + 1,
                j0 <= big,
                forall|k: int| 0 <= k <= big ==> #[trigger] p@[k] <= big,
                forall|k: int| 0 <= k <= big ==> #[trigger] way@[k] <= big,
            decreases big + 1 - steps,
        {
            let j1 = way[j0];
            let r = p[j1];
            p.set(j0, r);
            j0 = j1;
            steps += 1;
        }
        if j0 != 0 {
            return None;
        }
        i += 1;
    }
    // Read off the assignment of the table's rows.
    let mut a: Vec<Option<usize>> = filled(None, n);
    let mut j: usize = 1;
    while j <= big
        invariant
            big < usize::MAX - 1,
            n <= big,
            a.len() == n,
            p.len() == big + 1,
            1 <= j <= big + 1,
            forall|k: int|
                0 <= k < n && (#[trigger] a@[k]) is Some ==> {
                    &&& (a@[k]->0 as int) < ncols
                    &&& (a@[k]->0 as int) + 1 < j
                    &&& p@[a@[k]->0 as int + 1] as int == k + 1
                },
        decreases big + 1 - j,
    {
        let r = p[j];
        if 1 <= r && r <= n && j <= ncols {
            a.set(r - 1, Some(j - 1));
        }
        j += 1;
    }
    assert(is_assignment(a@, ncols as nat)) by {
        assert forall|k1: int, k2: int|
            0 <= k1 < a@.len() && 0 <= k2 < a@.len() && k1 != k2 && (#[trigger] a@[k1]) is Some && (
            #[trigger] a@[k2]) is Some implies a@[k1]->0 != a@[k2]->0 by {}
    }
    // Potentials of the maximisation problem, shifted to be non-negative.
    let mut row_pot: Vec<i128> = Vec::new();
    let mut min_row: i128 = inf;
    let mut i: usize = 1;
    while i <= big
        invariant
            big < usize::MAX - 1,
            n <= big,
            u.len() == big + 1,
            1 <= i <= big + 1,
            row_pot.len() == if i - 1 <= n { i - 1 } else { n as int },
        decreases big + 1 - i,
    {
        let x = match 0i128.checked_sub(u[i]) {
            Some(x) => x,
            None => {
                return None;
            },
        };
        if x < min_row {
            min_row = x;
        }
        if i <= n {
            row_pot.push(x);
        }
        i += 1;
    }
    let mut col_pot: Vec<i128> = Vec::new();
    let mut min_col: i128 = inf;
    let mut j: usize = 1;
    while j <= big
        invariant
            big < usize::MAX - 1,
            ncols <= big,
            v.len() == big + 1,
            1 <= j <= big + 1,
            col_pot.len() == if j - 1 <= ncols { j - 1 } else { ncols as int },
        decreases big + 1 - j,
    {
        let x = match 0i128.checked_sub(v[j]) {
            Some(x) => x,
            None => {
                return None;
            },
        };
        if x < min_col {
            min_col = x;
        }
        if j <= ncols {
            col_pot.push(x);
        }
        j += 1;
    }
    // Rows gain what columns lose (or the other way round): sums stay equal.
    let shift: i128 = if n <= ncols {
        min_col
    } else {
        match 0i128.checked_sub(min_row) {
            Some(x) => x,
            None => {
                return None;
            },
        }
    };
    let mut k: usize = 0;
    while k < row_pot.len()
        invariant
            k <= row_pot.len(),
            row_pot.len() == n,
        decreases row_pot.len() - k,
    {
        match row_pot[k].checked_add(shift) {
            Some(x) => {
                row_pot.set(k, x);
            },
            None => {
                return None;
            },
        }
        k += 1;
    }
    let mut k: usize = 0;
    while k < col_pot.len()
        invariant
            k <= col_pot.len(),
            col_pot.len() == ncols,
        decreases col_pot.len() - k,
    {
        match col_pot[k].checked_sub(shift) {
            Some(x) => {
                col_pot.set(k, x);
            },
            None => {
                return None;
            },
        }
        k += 1;
    }
    Some((a, row_pot, col_pot))
}

/// A maximum-weight assignment of the rows of `w` to its `ncols` columns.
pub fn max_weight_assignment(w: &Vec<Vec<u64>>, ncols: usize) -> (a: Vec<Option<usize>>)
    requires
        well_formed_table(w@, ncols as nat),
    ensures
        is_max_weight_assignment(w@, ncols as nat, a@),
{
    if let Some((a, u, v)) = hungarian_candidate(w, ncols) {
        if check_certificate(w, ncols, &a, &u, &v) {
            proof {
                lemma_certified_is_optimal(w@, ncols as nat, a@, int_seq(u@), int_seq(v@));
            }
            return a;
        }
    }
    let mut used: Vec<bool> = filled(false, ncols);
    let mut a: Vec<Option<usize>> = filled(None, w.len());
    let ghost free = used@;
    search_rest(w, ncols, 0, &mut used, &mut a);
    proof {
        assert forall|i: int| 0 <= i < a@.len() && (#[trigger] a@[i]) is Some implies (a@[i]->0 as int)
            < ncols by {}
        assert forall|b: Seq<Option<usize>>|
            b.len() == w@.len() && is_assignment(b, ncols as nat) implies #[trigger] assignment_weight(
            w@,
            b,
        ) <= assignment_weight(w@, a@) by {
            assert forall|k: int|
                0 <= k < b.len() && (#[trigger] b[k]) is Some implies (b[k]->0 as int) < free.len()
                && !free[b[k]->0 as int] by {}
            lemma_best_rest_bounds(w@, b, 0, free);
        }
    }
    a
}

} // verus!
