//! Choice of a rows-by-columns layout for placing points on a regular grid.
use vstd::prelude::*;

verus! {

pub open spec fn abs_int(v: int) -> int {
    if v < 0 {
        -v
    } else {
        v
    }
}

/// With `r` rows and `n / r` columns, `|cols / rows - x / y| * rows * y`:
/// the distance of the layout's aspect ratio to the target `x / y`, scaled.
pub open spec fn deviation(n: nat, x: nat, y: nat, r: nat) -> int {
    abs_int((n / r) * y - x * r)
}

/// The layout with `r` rows is strictly closer to the target ratio than the
/// one with `s` rows (both deviations divided by `rows * y`).
pub open spec fn closer(n: nat, x: nat, y: nat, r: nat, s: nat) -> bool {
    deviation(n, x, y, r) * s < deviation(n, x, y, s) * r
}

/// The row count, among the divisors of `n` in `1..=m`, whose layout is
/// closest to the target ratio, the smallest on ties; `0` when there is none.
pub open spec fn best_rows_upto(n: nat, x: nat, y: nat, m: nat) -> nat
    decreases m,
{
    if m == 0 {
        0
    } else {
        let b = best_rows_upto(n, x, y, (m - 1) as nat);
        if n % m == 0 && (b == 0 || closer(n, x, y, m, b)) {
            m
        } else {
            b
        }
    }
}

/// `(columns, rows)` of the layout of `n` points whose aspect ratio
/// `columns / rows` is closest to `x / y`. With no usable target (`y == 0`)
/// or no point, the single row `(n, 1)`.
pub open spec fn grid_dimensions(n: nat, x: nat, y: nat) -> (nat, nat) {
    let b = best_rows_upto(n, x, y, n);
    if y == 0 || b == 0 {
        (n, 1)
    } else {
        (n / b, b)
    }
}

proof fn lemma_best_rows_bound(n: nat, x: nat, y: nat, m: nat)
    ensures
        best_rows_upto(n, x, y, m) <= m,
        best_rows_upto(n, x, y, m) != 0 ==> n % best_rows_upto(n, x, y, m) == 0,
    decreases m,
{
    if m > 0 {
        lemma_best_rows_bound(n, x, y, (m - 1) as nat);
    }
}

fn deviation_exec(n: usize, x: usize, y: usize, r: usize) -> (d: u128)
    requires
        1 <= r <= n,
        n <= 0xffff_ffff,
        x <= 0xffff_ffff,
        y <= 0xffff_ffff,
    ensures
        d == deviation(n as nat, x as nat, y as nat, r as nat),
        d <= 0xffff_ffff * 0xffff_ffff,
{
    let c = n / r;
    assert(c <= n) by (nonlinear_arith)
        requires
            c == n / r,
            r >= 1,
    ;
    assert((c as u128) * (y as u128) <= 0xffff_ffff * 0xffff_ffff) by (nonlinear_arith)
        requires
            c <= 0xffff_ffff,
            y <= 0xffff_ffff,
    ;
    assert((x as u128) * (r as u128) <= 0xffff_ffff * 0xffff_ffff) by (nonlinear_arith)
        requires
            x <= 0xffff_ffff,
            r <= 0xffff_ffff,
    ;
    let a = (c as u128) * (y as u128);
    let b = (x as u128) * (r as u128);
    if a >= b {
        a - b
    } else {
        b - a
    }
}

/// `(columns, rows)` for `n` points whose aspect ratio is closest to the
/// box `x` by `y`, among the layouts whose row count divides `n`.
pub fn best_grid_dimensions(n: usize, x: usize, y: usize) -> (r: (usize, usize))
    requires
        n < 0xffff_ffff,
        x <= 0xffff_ffff,
        y <= 0xffff_ffff,
    ensures
        (r.0 as nat, r.1 as nat) == grid_dimensions(n as nat, x as nat, y as nat),
{
    let mut best_r: usize = 0;
    let mut best_dev: u128 = 0;
    let mut r: usize = 1;
    while r <= n
        invariant
            1 <= r <= n + 1,
            n < 0xffff_ffff,
            x <= 0xffff_ffff,
            y <= 0xffff_ffff,
            best_r as nat == best_rows_upto(n as nat, x as nat, y as nat, (r - 1) as nat),
            best_r != 0 ==> best_dev == deviation(n as nat, x as nat, y as nat, best_r as nat),
            best_r <= n,
            best_dev <= 0xffff_ffff * 0xffff_ffff,
        decreases n + 1 - r,
    {
        proof {
            lemma_best_rows_bound(n as nat, x as nat, y as nat, (r - 1) as nat);
        }
        if n % r == 0 {
            let d = deviation_exec(n, x, y, r);
            assert(d * best_r <= 0xffff_ffff * 0xffff_ffff * 0xffff_ffff) by (nonlinear_arith)
                requires
                    d <= 0xffff_ffff * 0xffff_ffff,
                    best_r <= 0xffff_ffff,
            ;
            assert(best_dev * r <= 0xffff_ffff * 0xffff_ffff * 0xffff_ffff) by (nonlinear_arith)
                requires
                    best_dev <= 0xffff_ffff * 0xffff_ffff,
                    r <= 0xffff_ffff,
            ;
            if best_r == 0 || d * (best_r as u128) < best_dev * (r as u128) {
                best_r = r;
                best_dev = d;
            }
        }
        r += 1;
    }
    if y == 0 || best_r == 0 {
        (n, 1)
    } else {
        (n / best_r, best_r)
    }
}

} // verus!
