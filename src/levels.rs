//! Thresholds for a family of contours, chosen from the range of a field's samples.
use crate::contour::Field;
use vstd::prelude::*;

verus! {

/// The `i`-th of `n` evenly spaced levels from `lo` to `hi`, rounded down.
pub open spec fn level_spec(lo: int, hi: int, n: int, i: int) -> int {
    lo + (hi - lo) * i / (n - 1)
}

/// Evenly spaced levels never decrease.
pub proof fn lemma_levels_ordered(lo: int, hi: int, n: int, i: int, j: int)
    requires
        lo <= hi,
        n >= 2,
        0 <= i <= j < n,
    ensures
        lo <= level_spec(lo, hi, n, i) <= level_spec(lo, hi, n, j) <= hi,
{
    let d = hi - lo;
    let m = n - 1;
    assert(0 <= d * i <= d * j <= d * m) by (nonlinear_arith)
        requires
            0 <= d,
            0 <= i <= j <= m,
    ;
    vstd::arithmetic::div_mod::lemma_div_is_ordered(d * i, d * j, m);
    vstd::arithmetic::div_mod::lemma_div_is_ordered(d * j, d * m, m);
    vstd::arithmetic::div_mod::lemma_div_multiples_vanish(d, m);
    vstd::arithmetic::div_mod::lemma_div_pos_is_pos(d * i, m);
}

/// `n` evenly spaced thresholds spanning `[lo, hi]`, both ends included, for
/// tracing a family of contours.
pub fn levels(lo: i64, hi: i64, n: usize) -> (r: Vec<i64>)
    requires
        lo <= hi,
        n >= 2,
    ensures
        r@.len() == n,
        forall|i: int| 0 <= i < n ==> #[trigger] r@[i] == level_spec(lo as int, hi as int, n as int, i),
        r@[0] == lo,
        r@[n - 1] == hi,
{
    let span = ((hi as i128) - (lo as i128)) as u128;
    let steps = (n - 1) as u128;
    let mut r: Vec<i64> = Vec::new();
    let mut i: usize = 0;
    while i < n
        invariant
            i <= n,
            n >= 2,
            lo <= hi,
            span == hi - lo,
            steps == n - 1,
            r@.len() == i,
            forall|j: int| 0 <= j < i ==> #[trigger] r@[j] == level_spec(lo as int, hi as int, n as int, j),
        decreases n - i,
    {
        let ghost (d, k, m) = (span as int, i as int, steps as int);
        proof {
            assert(0 <= d * k <= d * m) by (nonlinear_arith)
                requires
                    0 <= d,
                    0 <= k <= m,
            ;
            assert(d * k <= u64::MAX * usize::MAX) by (nonlinear_arith)
                requires
                    0 <= d <= u64::MAX,
                    0 <= k <= usize::MAX,
            ;
            assert(d * k / m <= d) by {
                vstd::arithmetic::div_mod::lemma_div_is_ordered(d * k, d * m, m);
                vstd::arithmetic::div_mod::lemma_div_multiples_vanish(d, m);
            }
            assert(0 <= d * k / m) by {
                vstd::arithmetic::div_mod::lemma_div_pos_is_pos(d * k, m);
            }
        }
        let q = span * (i as u128) / steps;
        let v = ((lo as i128) + (q as i128)) as i64;
        r.push(v);
        i += 1;
    }
    proof {
        let (d, m) = ((hi - lo) as int, (n - 1) as int);
        assert(d * 0 / m == 0);
        assert(d * m / m == d) by {
            vstd::arithmetic::div_mod::lemma_div_multiples_vanish(d, m);
        }
    }
    r
}

/// `v` rounded down to a multiple of `unit`.
pub open spec fn floor_to(v: int, unit: int) -> int {
    v - v % unit
}

/// `v` rounded up to a multiple of `unit`.
pub open spec fn ceil_to(v: int, unit: int) -> int {
    if v % unit == 0 {
        v
    } else {
        v - v % unit + unit
    }
}

/// `v` modulo `unit`, in `[0, unit)`.
fn mod_floor(v: i64, unit: u64) -> (r: u64)
    requires
        unit > 0,
    ensures
        r == v as int % unit as int,
{
    if v >= 0 {
        (v as u64) % unit
    } else {
        let a = (-(v as i128)) as u128;
        let m = (a % (unit as u128)) as u64;
        proof {
            let (ai, u, mi) = (a as int, unit as int, m as int);
            let q = ai / u;
            vstd::arithmetic::div_mod::lemma_fundamental_div_mod(ai, u);
            assert(ai == u * q + mi);
            if mi == 0 {
                assert(v as int == (-q) * u + 0) by (nonlinear_arith)
                    requires
                        ai == u * q + mi,
                        v == -ai,
                        mi == 0,
                ;
                vstd::arithmetic::div_mod::lemma_fundamental_div_mod_converse_mod(v as int, u, -q, 0);
            } else {
                assert(v as int == (-q - 1) * u + (u - mi)) by (nonlinear_arith)
                    requires
                        ai == u * q + mi,
                        v == -ai,
                ;
                vstd::arithmetic::div_mod::lemma_fundamental_div_mod_converse_mod(
                    v as int,
                    u,
                    -q - 1,
                    u - mi,
                );
            }
        }
        if m == 0 {
            0
        } else {
            unit - m
        }
    }
}

/// `n` evenly spaced thresholds from `lo` rounded up to a multiple of `unit` to
/// `hi` rounded down to one; empty when that rounded span holds no multiple.
pub fn rounded_levels(lo: i64, hi: i64, unit: u64, n: usize) -> (r: Vec<i64>)
    requires
        unit > 0,
        n >= 2,
    ensures
        ceil_to(lo as int, unit as int) > floor_to(hi as int, unit as int) ==> r@.len() == 0,
        ceil_to(lo as int, unit as int) <= floor_to(hi as int, unit as int) ==> {
            &&& r@.len() == n
            &&& forall|i: int|
                0 <= i < n ==> #[trigger] r@[i] == level_spec(
                    ceil_to(lo as int, unit as int),
                    floor_to(hi as int, unit as int),
                    n as int,
                    i,
                )
        },
{
    let ml = mod_floor(lo, unit);
    let mh = mod_floor(hi, unit);
    let a: i128 = if ml == 0 {
        lo as i128
    } else {
        lo as i128 - ml as i128 + unit as i128
    };
    let b: i128 = hi as i128 - mh as i128;
    if a > b {
        Vec::new()
    } else {
        levels(a as i64, b as i64, n)
    }
}

/// The least and the greatest sample of a field, or `None` when it has no sample.
pub fn field_bounds<F: Field>(field: &F) -> (r: Option<(i64, i64)>)
    ensures
        r is None <==> field.width() == 0 || field.height() == 0,
        r matches Some((lo, hi)) ==> {
            &&& forall|x: int, y: int|
                0 <= x < field.width() && 0 <= y < field.height() ==> lo <= #[trigger] field.value(x, y) <= hi
            &&& exists|x: int, y: int|
                0 <= x < field.width() && 0 <= y < field.height() && #[trigger] field.value(x, y) == lo
            &&& exists|x: int, y: int|
                0 <= x < field.width() && 0 <= y < field.height() && #[trigger] field.value(x, y) == hi
        },
{
    let (w, h) = field.dimensions();
    if w == 0 || h == 0 {
        return None;
    }
    let mut lo = field.z_at(0, 0);
    let mut hi = lo;
    let ghost mut lo_at: (int, int) = (0, 0);
    let ghost mut hi_at: (int, int) = (0, 0);
    let mut y: usize = 0;
    while y < h
        invariant
            w == field.width(),
            h == field.height(),
            w > 0,
            y <= h,
            0 <= lo_at.0 < w && 0 <= lo_at.1 < h && field.value(lo_at.0, lo_at.1) == lo,
            0 <= hi_at.0 < w && 0 <= hi_at.1 < h && field.value(hi_at.0, hi_at.1) == hi,
            forall|a: int, b: int| 0 <= a < w && 0 <= b < y ==> lo <= #[trigger] field.value(a, b) <= hi,
        decreases h - y,
    {
        let mut x: usize = 0;
        while x < w
            invariant
                w == field.width(),
                h == field.height(),
                y < h,
                x <= w,
                0 <= lo_at.0 < w && 0 <= lo_at.1 < h && field.value(lo_at.0, lo_at.1) == lo,
                0 <= hi_at.0 < w && 0 <= hi_at.1 < h && field.value(hi_at.0, hi_at.1) == hi,
                forall|a: int, b: int| 0 <= a < w && 0 <= b < y ==> lo <= #[trigger] field.value(a, b) <= hi,
                forall|a: int| 0 <= a < x ==> lo <= #[trigger] field.value(a, y as int) <= hi,
            decreases w - x,
        {
            let v = field.z_at(x, y);
            if v < lo {
                lo = v;
                proof {
                    lo_at = (x as int, y as int);
                }
            }
            if v > hi {
                hi = v;
                proof {
                    hi_at = (x as int, y as int);
                }
            }
            x += 1;
        }
        y += 1;
    }
    Some((lo, hi))
}

} // verus!
