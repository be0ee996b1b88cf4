//! Decimal numbers of seconds, read as whole nanoseconds.
//!
//! A number is an optional sign, digits with at most one decimal point (at
//! least one digit in all), and an optional exponent (`e` or `E`, an
//! optional sign and at least one digit). Its value in nanoseconds is
//! truncated toward zero.

use vstd::prelude::*;
use crate::uem::{all_digits, all_digits_in, digits_value, is_digit, lemma_digits_prefix, pow10};

verus! {

pub proof fn lemma_pow10_add(a: nat, b: nat)
    ensures
        pow10(a + b) == pow10(a) * pow10(b),
    decreases b,
{
    if b > 0 {
        let b1 = (b - 1) as nat;
        lemma_pow10_add(a, b1);
        assert(a + b1 == (a + b - 1) as nat);
        assert(pow10(a + b) == 10 * pow10((a + b - 1) as nat));
        assert(pow10(b) == 10 * pow10(b1));
        let x = pow10(a);
        let y = pow10(b1);
        assert(pow10((a + b - 1) as nat) == x * y);
        assert(10 * (x * y) == x * (10 * y)) by (nonlinear_arith);
    } else {
        assert(pow10(b) == 1);
        assert(a + b == a);
    }
}

pub proof fn lemma_pow10_pos(a: nat)
    ensures
        pow10(a) >= 1,
    decreases a,
{
    if a > 0 {
        lemma_pow10_pos((a - 1) as nat);
    }
}

pub proof fn lemma_pow10_mono(a: nat, b: nat)
    requires
        a <= b,
    ensures
        pow10(a) <= pow10(b),
    decreases b,
{
    if a < b {
        lemma_pow10_mono(a, (b - 1) as nat);
        lemma_pow10_pos((b - 1) as nat);
    }
}

proof fn lemma_pow10_19()
    ensures
        pow10(19) == 10_000_000_000_000_000_000,
{
    reveal_with_fuel(pow10, 20);
}

/// The value of digits followed by more digits.
pub proof fn lemma_digits_append(a: Seq<char>, b: Seq<char>)
    ensures
        digits_value(a + b) == digits_value(a) * pow10(b.len()) + digits_value(b),
    decreases b.len(),
{
    if b.len() == 0 {
        assert(a + b =~= a);
        assert(pow10(b.len()) == 1);
        assert(digits_value(b) == 0);
    } else {
        lemma_digits_append(a, b.drop_last());
        assert((a + b).drop_last() =~= a + b.drop_last());
        assert((a + b).last() == b.last());
        let x = digits_value(a);
        let p = pow10((b.len() - 1) as nat);
        let y = digits_value(b.drop_last());
        let c = ((b.last() as u32) - 48) as nat;
        assert(digits_value(a + b.drop_last()) == x * p + y);
        assert(digits_value(a + b) == digits_value(a + b.drop_last()) * 10 + c);
        assert(digits_value(b) == y * 10 + c);
        assert(pow10(b.len()) == 10 * p);
        assert((x * p + y) * 10 == x * (10 * p) + y * 10) by (nonlinear_arith);
    }
}

/// Digits that are all zeros have value zero.
proof fn lemma_digits_zero(s: Seq<char>)
    requires
        forall|i: int| 0 <= i < s.len() ==> s[i] == '0',
    ensures
        digits_value(s) == 0,
    decreases s.len(),
{
    if s.len() > 0 {
        lemma_digits_zero(s.drop_last());
    }
}

/// Digits with a non-zero first digit are worth at least `10^(len - 1)`.
proof fn lemma_digits_lower(s: Seq<char>)
    requires
        s.len() > 0,
        all_digits(s),
        s[0] != '0',
    ensures
        digits_value(s) >= pow10((s.len() - 1) as nat),
{
    let head = s.take(1);
    let tail = s.skip(1);
    assert(s =~= head + tail);
    lemma_digits_append(head, tail);
    assert(head.drop_last() =~= Seq::<char>::empty());
    assert(head.last() == s[0]);
    assert(digits_value(head.drop_last()) == 0);
    assert(digits_value(head) == (s[0] as u32 - 48) as nat);
    assert(is_digit(s[0]));
    assert(digits_value(head) >= 1);
    lemma_pow10_pos(tail.len());
    assert(digits_value(head) * pow10(tail.len()) >= pow10(tail.len())) by (nonlinear_arith)
        requires
            digits_value(head) >= 1,
    ;
}

/// Digits are worth less than `10^len`.
pub proof fn lemma_digits_below(s: Seq<char>)
    requires
        all_digits(s),
    ensures
        digits_value(s) < pow10(s.len()),
    decreases s.len(),
{
    if s.len() > 0 {
        assert(all_digits(s.drop_last())) by {
            assert forall|i: int| 0 <= i < s.drop_last().len() implies is_digit(#[trigger] s.drop_last()[i]) by {
                assert(s.drop_last()[i] == s[i]);
            }
        }
        lemma_digits_below(s.drop_last());
        assert(is_digit(s[s.len() - 1]));
    }
}

/// Index of the first `c1` or `c2` in `s` at or after `i`, or the length
/// of `s`.
pub open spec fn mark_index(s: Seq<char>, c1: char, c2: char, i: int) -> int
    decreases s.len() - i,
{
    if i >= s.len() {
        s.len() as int
    } else if s[i] == c1 || s[i] == c2 {
        i
    } else {
        mark_index(s, c1, c2, i + 1)
    }
}

/// A decimal exponent: an optional sign, then at least one digit.
pub open spec fn parse_exponent(x: Seq<char>) -> Option<int> {
    let neg = x.len() > 0 && x[0] == '-';
    let d = if x.len() > 0 && (x[0] == '-' || x[0] == '+') {
        x.drop_first()
    } else {
        x
    };
    if d.len() > 0 && all_digits(d) {
        Some(
            if neg {
                -(digits_value(d) as int)
            } else {
                digits_value(d) as int
            },
        )
    } else {
        None
    }
}

/// `n` times `10^k`, truncated toward zero when `k` is negative.
pub open spec fn scaled(n: nat, k: int) -> nat {
    if k >= 0 {
        n * pow10(k as nat)
    } else {
        n / pow10((-k) as nat)
    }
}

/// The largest magnitude of nanoseconds an `i64` holds with the given sign.
pub open spec fn nanos_bound(neg: bool) -> int {
    if neg {
        0x8000_0000_0000_0000
    } else {
        0x7fff_ffff_ffff_ffff
    }
}

/// A number of seconds as whole nanoseconds, truncated toward zero: an
/// optional sign, digits with at most one point (at least one digit), and an
/// optional exponent; `None` when it does not parse or does not fit in an
/// `i64`.
pub open spec fn parse_seconds(s: Seq<char>) -> Option<int> {
    let signed = s.len() > 0 && (s[0] == '-' || s[0] == '+');
    let neg = s.len() > 0 && s[0] == '-';
    let body = if signed {
        s.drop_first()
    } else {
        s
    };
    let e = mark_index(body, 'e', 'E', 0);
    let mant = body.take(e);
    let ex = if e < body.len() {
        parse_exponent(body.skip(e + 1))
    } else {
        Some(0int)
    };
    let d = mark_index(mant, '.', '.', 0);
    let ip = mant.take(d);
    let fp = if d < mant.len() {
        mant.skip(d + 1)
    } else {
        Seq::<char>::empty()
    };
    match ex {
        None => None,
        Some(x) => {
            let v = scaled(digits_value(ip + fp), x - fp.len() + 9);
            if all_digits(ip) && all_digits(fp) && ip.len() + fp.len() > 0 && v <= nanos_bound(neg) {
                Some(
                    if neg {
                        -(v as int)
                    } else {
                        v as int
                    },
                )
            } else {
                None
            }
        },
    }
}

/// The position of the first `c1` or `c2` in `cs[lo..hi]`, relative to `lo`.
fn find_mark(cs: &Vec<char>, lo: usize, hi: usize, c1: char, c2: char) -> (d: usize)
    requires
        lo <= hi <= cs.len(),
    ensures
        d == mark_index(cs@.subrange(lo as int, hi as int), c1, c2, 0),
        d <= hi - lo,
{
    let ghost s = cs@.subrange(lo as int, hi as int);
    let mut j: usize = lo;
    while j < hi
        invariant
            lo <= j <= hi <= cs.len(),
            s == cs@.subrange(lo as int, hi as int),
            mark_index(s, c1, c2, 0) == mark_index(s, c1, c2, j - lo),
        decreases hi - j,
    {
        assert(s[j - lo] == cs@[j as int]);
        if cs[j] == c1 || cs[j] == c2 {
            return j - lo;
        }
        j += 1;
    }
    j - lo
}

/// The characters `cs[lo..hi]`.
fn chars_between(cs: &Vec<char>, lo: usize, hi: usize) -> (r: Vec<char>)
    requires
        lo <= hi <= cs.len(),
    ensures
        r@ == cs@.subrange(lo as int, hi as int),
{
    let mut r: Vec<char> = Vec::new();
    let mut i: usize = lo;
    while i < hi
        invariant
            lo <= i <= hi <= cs.len(),
            r@ == cs@.subrange(lo as int, i as int),
        decreases hi - i,
    {
        r.push(cs[i]);
        assert(cs@.subrange(lo as int, i + 1) =~= cs@.subrange(lo as int, i as int).push(cs@[i as int]));
        i += 1;
    }
    r
}

/// The value of the digits `cs[lo..hi]`, or `None` when it exceeds `cap`.
fn digits_capped(cs: &Vec<char>, lo: usize, hi: usize, cap: u128) -> (r: Option<u128>)
    requires
        lo <= hi <= cs.len(),
        all_digits(cs@.subrange(lo as int, hi as int)),
        cap <= 0x1_0000_0000_0000_0000_0000,
    ensures
        match r {
            Some(v) => v == digits_value(cs@.subrange(lo as int, hi as int)) && v <= cap,
            None => digits_value(cs@.subrange(lo as int, hi as int)) > cap,
        },
{
    let ghost whole = cs@.subrange(lo as int, hi as int);
    let mut v: u128 = 0;
    let mut j: usize = lo;
    while j < hi
        invariant
            lo <= j <= hi <= cs.len(),
            whole == cs@.subrange(lo as int, hi as int),
            all_digits(whole),
            cap <= 0x1_0000_0000_0000_0000_0000,
            v <= cap,
            v == digits_value(whole.take(j - lo)),
        decreases hi - j,
    {
        let c = cs[j];
        assert(whole[j - lo] == c);
        assert(is_digit(c));
        let d: u128 = (c as u32 - 48) as u128;
        let nv = v * 10 + d;
        proof {
            assert(whole.take(j - lo + 1).drop_last() =~= whole.take(j - lo));
            assert(whole.take(j - lo + 1).last() == c);
        }
        if nv > cap {
            proof {
                lemma_digits_prefix(whole, j - lo + 1);
            }
            return None;
        }
        v = nv;
        j += 1;
    }
    assert(whole.take(hi - lo) =~= whole);
    Some(v)
}

fn pow10_exec(k: u32) -> (p: u128)
    requires
        k <= 19,
    ensures
        p == pow10(k as nat),
        p <= 10_000_000_000_000_000_000,
{
    proof {
        lemma_pow10_19();
        lemma_pow10_mono(0, 19);
    }
    let mut p: u128 = 1;
    let mut j: u32 = 0;
    while j < k
        invariant
            j <= k <= 19,
            p == pow10(j as nat),
            pow10(19) == 10_000_000_000_000_000_000,
        decreases k - j,
    {
        proof {
            lemma_pow10_mono((j + 1) as nat, 19);
            assert(pow10((j + 1) as nat) == 10 * pow10(j as nat));
        }
        p = p * 10;
        j += 1;
    }
    proof {
        lemma_pow10_mono(k as nat, 19);
    }
    p
}

/// The position of the first digit of `ds` that is not `0` (or its length).
fn first_nonzero(ds: &Vec<char>) -> (z: usize)
    ensures
        z <= ds.len(),
        forall|i: int| 0 <= i < z ==> ds@[i] == '0',
        z < ds.len() ==> ds@[z as int] != '0',
{
    let mut z: usize = 0;
    while z < ds.len() && ds[z] == '0'
        invariant
            z <= ds.len(),
            forall|i: int| 0 <= i < z ==> ds@[i] == '0',
        decreases ds.len() - z,
    {
        z += 1;
    }
    z
}

/// Leading zeros do not count; what follows them bounds the value.
proof fn lemma_significant(ds: Seq<char>, z: int)
    requires
        all_digits(ds),
        0 <= z <= ds.len(),
        forall|i: int| 0 <= i < z ==> ds[i] == '0',
        z < ds.len() ==> ds[z] != '0',
    ensures
        digits_value(ds) == digits_value(ds.skip(z)),
        all_digits(ds.skip(z)),
        z < ds.len() ==> digits_value(ds) >= pow10((ds.len() - z - 1) as nat),
        digits_value(ds) < pow10((ds.len() - z) as nat),
{
    assert(ds =~= ds.take(z) + ds.skip(z));
    lemma_digits_append(ds.take(z), ds.skip(z));
    lemma_digits_zero(ds.take(z));
    assert(all_digits(ds.skip(z))) by {
        assert forall|i: int| 0 <= i < ds.skip(z).len() implies is_digit(#[trigger] ds.skip(z)[i]) by {
            assert(ds.skip(z)[i] == ds[z + i]);
        }
    }
    lemma_digits_below(ds.skip(z));
    if z < ds.len() {
        assert(ds.skip(z)[0] == ds[z]);
        lemma_digits_lower(ds.skip(z));
    }
}

/// Too many significant digits for the scale: beyond the time bound.
proof fn lemma_scaled_too_big(dv: nat, l: int, k: int)
    requires
        l >= 1,
        k >= 0,
        l + k > 19,
        dv >= pow10((l - 1) as nat),
    ensures
        scaled(dv, k) > 0x8000_0000_0000_0000,
{
    lemma_pow10_add((l - 1) as nat, k as nat);
    lemma_pow10_mono(19, (l - 1 + k) as nat);
    lemma_pow10_19();
    let a = pow10((l - 1) as nat);
    let b = pow10(k as nat);
    lemma_pow10_pos(k as nat);
    assert(dv * b >= a * b) by (nonlinear_arith)
        requires
            dv >= a,
            b >= 1,
    ;
}

/// Scaled down past all its digits, a number vanishes.
proof fn lemma_scaled_vanishes(dv: nat, l: int, m: int)
    requires
        l >= 0,
        m >= l,
        dv < pow10(l as nat),
    ensures
        scaled(dv, -m) == 0,
{
    lemma_pow10_mono(l as nat, m as nat);
    vstd::arithmetic::div_mod::lemma_fundamental_div_mod_converse(
        dv as int,
        pow10(m as nat) as int,
        0,
        dv as int,
    );
}

/// Scaling digits down by `10^m` drops their last `m` digits.
proof fn lemma_scaled_truncates(t: Seq<char>, keep: int, m: int)
    requires
        all_digits(t),
        keep >= 0,
        m > 0,
        t.len() == keep + m,
    ensures
        scaled(digits_value(t), -m) == digits_value(t.take(keep)),
{
    assert(t =~= t.take(keep) + t.skip(keep));
    lemma_digits_append(t.take(keep), t.skip(keep));
    assert(all_digits(t.skip(keep))) by {
        assert forall|i: int| 0 <= i < t.skip(keep).len() implies is_digit(#[trigger] t.skip(keep)[i]) by {
            assert(t.skip(keep)[i] == t[keep + i]);
        }
    }
    lemma_digits_below(t.skip(keep));
    lemma_pow10_pos(m as nat);
    vstd::arithmetic::div_mod::lemma_fundamental_div_mod_converse(
        digits_value(t) as int,
        pow10(m as nat) as int,
        digits_value(t.take(keep)) as int,
        digits_value(t.skip(keep)) as int,
    );
}

/// The characters of `a` followed by those of `b`.
fn concat_chars(a: &Vec<char>, b: &Vec<char>) -> (r: Vec<char>)
    ensures
        r@ == a@ + b@,
{
    let mut r: Vec<char> = Vec::new();
    let mut i: usize = 0;
    while i < a.len()
        invariant
            i <= a.len(),
            r@ == a@.take(i as int),
        decreases a.len() - i,
    {
        r.push(a[i]);
        assert(a@.take(i + 1) =~= a@.take(i as int).push(a@[i as int]));
        i += 1;
    }
    let mut j: usize = 0;
    assert(a@.take(a.len() as int) =~= a@);
    while j < b.len()
        invariant
            j <= b.len(),
            r@ == a@ + b@.take(j as int),
        decreases b.len() - j,
    {
        r.push(b[j]);
        assert(a@ + b@.take(j + 1) =~= (a@ + b@.take(j as int)).push(b@[j as int]));
        j += 1;
    }
    assert(b@.take(b.len() as int) =~= b@);
    r
}

/// The value of digits `ds` scaled by `10^(x - fp_len + 9)`, where the
/// exponent `x` is `x_val` (negated with `x_neg`) unless `x_huge`, in which
/// case only its sign is known and its size exceeds `cap`.
fn scaled_digits(
    ds: &Vec<char>,
    fp_len: usize,
    x_neg: bool,
    x_val: u128,
    x_huge: bool,
    cap: u128,
    Ghost(xv): Ghost<int>,
) -> (r: Option<u128>)
    requires
        all_digits(ds@),
        fp_len <= ds.len(),
        cap == ds.len() as u128 + 40,
        x_huge ==> (if x_neg {
            xv < -(cap as int)
        } else {
            xv > cap
        }),
        !x_huge ==> x_val <= cap && xv == (if x_neg {
            -(x_val as int)
        } else {
            x_val as int
        }),
    ensures
        match r {
            Some(v) => v == scaled(digits_value(ds@), xv - fp_len + 9) && v <= 0x8000_0000_0000_0000,
            None => scaled(digits_value(ds@), xv - fp_len + 9) > 0x8000_0000_0000_0000,
        },
{
    let z = first_nonzero(ds);
    let len = ds.len();
    proof {
        lemma_significant(ds@, z as int);
    }
    let ghost dv = digits_value(ds@);
    let ghost kk = xv - fp_len + 9;
    if z == len {
        proof {
            assert(dv == 0);
            if kk < 0 {
                lemma_pow10_pos((-kk) as nat);
            }
        }
        return Some(0);
    }
    let l = len - z;
    if x_huge {
        if x_neg {
            proof {
                lemma_scaled_vanishes(dv, l as int, -kk);
            }
            return Some(0);
        } else {
            proof {
                lemma_scaled_too_big(dv, l as int, kk);
            }
            return None;
        }
    }
    let x: i128 = if x_neg {
        -(x_val as i128)
    } else {
        x_val as i128
    };
    let k: i128 = x - (fp_len as i128) + 9;
    assert(k == kk);
    let v: u128 = if k >= 0 {
        if (l as i128) + k > 19 {
            proof {
                lemma_scaled_too_big(dv, l as int, kk);
            }
            return None;
        }
        proof {
            lemma_pow10_mono(l as nat, 19);
            lemma_pow10_19();
            assert(ds@.subrange(z as int, len as int) =~= ds@.skip(z as int));
        }
        let sig = match digits_capped(ds, z, len, 10_000_000_000_000_000_000) {
            Some(w) => w,
            None => {
                return None;
            },
        };
        let p = pow10_exec(k as u32);
        proof {
            lemma_pow10_add(l as nat, k as nat);
            lemma_pow10_mono((l + k) as nat, 19);
            let a = pow10(l as nat);
            assert(sig * p <= a * p) by (nonlinear_arith)
                requires
                    sig < a,
            ;
        }
        sig * p
    } else {
        let m = -k;
        if m >= l as i128 {
            proof {
                lemma_scaled_vanishes(dv, l as int, -kk);
            }
            return Some(0);
        }
        let keep = l - (m as usize);
        let ghost t = ds@.skip(z as int);
        proof {
            lemma_scaled_truncates(t, keep as int, m as int);
            assert(all_digits(t.take(keep as int))) by {
                assert forall|i: int| 0 <= i < keep implies is_digit(#[trigger] t.take(keep as int)[i]) by {
                    assert(t.take(keep as int)[i] == t[i]);
                }
            }
        }
        if keep > 19 {
            proof {
                assert(t.take(keep as int)[0] == t[0]);
                assert(t[0] == ds@[z as int]);
                lemma_digits_lower(t.take(keep as int));
                lemma_pow10_mono(19, (keep - 1) as nat);
                lemma_pow10_19();
            }
            return None;
        }
        proof {
            lemma_pow10_mono(keep as nat, 19);
            lemma_pow10_19();
            lemma_digits_below(t.take(keep as int));
            assert(ds@.subrange(z as int, (z + keep) as int) =~= t.take(keep as int));
        }
        match digits_capped(ds, z, z + keep, 10_000_000_000_000_000_000) {
            Some(w) => w,
            None => {
                return None;
            },
        }
    };
    if v > 0x8000_0000_0000_0000u128 {
        return None;
    }
    Some(v)
}

/// The exponent after position `e_abs` (the exponent mark) of `cs`: its
/// sign, its value (capped) and whether it exceeds `cap`.
fn exponent_of(cs: &Vec<char>, e_abs: usize, cap: u128) -> (r: Option<(bool, u128, bool)>)
    requires
        e_abs < cs.len(),
        cap <= 0x1_0000_0000_0000_0000_0000,
    ensures
        match parse_exponent(cs@.subrange(e_abs + 1, cs.len() as int)) {
            None => r is None,
            Some(xv) => r matches Some((x_neg, x_val, x_huge)) && (x_huge ==> (if x_neg {
                xv < -(cap as int)
            } else {
                xv > cap
            })) && (!x_huge ==> x_val <= cap && xv == (if x_neg {
                -(x_val as int)
            } else {
                x_val as int
            })),
        },
{
    let n = cs.len();
    let x_lo = e_abs + 1;
    let ghost xs = cs@.subrange(x_lo as int, n as int);
    let xsigned = x_lo < n && (cs[x_lo] == '-' || cs[x_lo] == '+');
    let x_neg = x_lo < n && cs[x_lo] == '-';
    let d_lo = if xsigned {
        x_lo + 1
    } else {
        x_lo
    };
    let ghost xd = if xs.len() > 0 && (xs[0] == '-' || xs[0] == '+') {
        xs.drop_first()
    } else {
        xs
    };
    assert(xd =~= cs@.subrange(d_lo as int, n as int));
    if d_lo == n || !all_digits_in(cs, d_lo, n) {
        return None;
    }
    match digits_capped(cs, d_lo, n, cap) {
        Some(v) => Some((x_neg, v, false)),
        None => Some((x_neg, 0, true)),
    }
}

/// The digits of the mantissa `cs[b0..e_abs]` without its point, with the
/// number of digits after the point; `None` when it is not digits with at
/// most one point, or holds no digit.
fn mantissa_of(cs: &Vec<char>, b0: usize, e_abs: usize) -> (r: Option<(Vec<char>, usize)>)
    requires
        b0 <= e_abs <= cs.len(),
    ensures
        ({
            let mant = cs@.subrange(b0 as int, e_abs as int);
            let d = mark_index(mant, '.', '.', 0);
            let ip = mant.take(d);
            let fp = if d < mant.len() {
                mant.skip(d + 1)
            } else {
                Seq::<char>::empty()
            };
            match r {
                Some((ds, fp_len)) => all_digits(ip) && all_digits(fp) && ip.len() + fp.len() > 0 && ds@
                    == ip + fp && fp_len == fp.len() && all_digits(ds@),
                None => !(all_digits(ip) && all_digits(fp) && ip.len() + fp.len() > 0),
            }
        }),
{
    let ghost mant = cs@.subrange(b0 as int, e_abs as int);
    let d_rel = find_mark(cs, b0, e_abs, '.', '.');
    let ip_hi = b0 + d_rel;
    let fp_lo = if ip_hi < e_abs {
        ip_hi + 1
    } else {
        e_abs
    };
    let ghost ip = mant.take(d_rel as int);
    let ghost fp = if d_rel < mant.len() {
        mant.skip(d_rel + 1)
    } else {
        Seq::<char>::empty()
    };
    assert(ip =~= cs@.subrange(b0 as int, ip_hi as int));
    assert(fp =~= cs@.subrange(fp_lo as int, e_abs as int));
    if !all_digits_in(cs, b0, ip_hi) || !all_digits_in(cs, fp_lo, e_abs) {
        return None;
    }
    let fp_len = e_abs - fp_lo;
    if (ip_hi - b0) + fp_len == 0 {
        return None;
    }
    let ds = concat_chars(&chars_between(cs, b0, ip_hi), &chars_between(cs, fp_lo, e_abs));
    assert(all_digits(ds@)) by {
        assert forall|i: int| 0 <= i < ds@.len() implies is_digit(#[trigger] ds@[i]) by {
            if i < ip.len() {
                assert(ds@[i] == ip[i]);
            } else {
                assert(ds@[i] == fp[i - ip.len()]);
            }
        }
    }
    Some((ds, fp_len))
}

/// A number of seconds as whole nanoseconds (see [`parse_seconds`]).
pub fn parse_seconds_of(cs: &Vec<char>) -> (r: Option<i64>)
    ensures
        match r {
            Some(v) => parse_seconds(cs@) == Some(v as int),
            None => parse_seconds(cs@) is None,
        },
{
    let n = cs.len();
    let signed = n > 0 && (cs[0] == '-' || cs[0] == '+');
    let neg = n > 0 && cs[0] == '-';
    let b0: usize = if signed {
        1
    } else {
        0
    };
    let ghost body = if signed {
        cs@.drop_first()
    } else {
        cs@
    };
    assert(body =~= cs@.subrange(b0 as int, n as int));
    let e_rel = find_mark(cs, b0, n, 'e', 'E');
    let e_abs = b0 + e_rel;
    assert(body.take(e_rel as int) =~= cs@.subrange(b0 as int, e_abs as int));
    let (ds, fp_len) = match mantissa_of(cs, b0, e_abs) {
        Some(m) => m,
        None => {
            return None;
        },
    };
    let cap: u128 = (ds.len() as u128) + 40;
    let (x_neg, x_val, x_huge, xv) = if e_abs < n {
        assert(body.skip(e_rel + 1) =~= cs@.subrange(e_abs + 1, n as int));
        match exponent_of(cs, e_abs, cap) {
            None => {
                return None;
            },
            Some((a, b, c)) => (a, b, c, Ghost(parse_exponent(body.skip(e_rel + 1))->0)),
        }
    } else {
        (false, 0u128, false, Ghost(0int))
    };
    let v = match scaled_digits(&ds, fp_len, x_neg, x_val, x_huge, cap, xv) {
        Some(v) => v,
        None => {
            return None;
        },
    };
    if neg {
        if v == 0x8000_0000_0000_0000u128 {
            Some(i64::MIN)
        } else {
            Some(-(v as i64))
        }
    } else if v > 0x7fff_ffff_ffff_ffffu128 {
        None
    } else {
        Some(v as i64)
    }
}

} // verus!
