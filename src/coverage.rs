//! What the flood guarantees: owned cells stay owned, and on a grid whose
//! resolution is a power of two every cell ends up owned.
use vstd::arithmetic::div_mod::{
    lemma_fundamental_div_mod,
    lemma_fundamental_div_mod_converse,
    lemma_mod_bound,
    lemma_mod_multiples_basic,
};
use vstd::prelude::*;

use crate::jfa::{
    dir_x, dir_y, dist2, flood, homes, in_grid, jfa_grid, neighbor_of, owners_valid, pass, pass_upto, relax,
    seeded, seeded_upto, seeds_in_grid, visit_upto,
};

verus! {

/// `h` is `g` after some in-place work: same size, only ids of `n` seeds, and
/// every cell owned in `g` still owned.
pub open spec fn grows(g: Seq<usize>, h: Seq<usize>, n: nat) -> bool {
    &&& h.len() == g.len()
    &&& owners_valid(h, n)
    &&& forall|i: int| 0 <= i < g.len() && g[i] != 0 ==> h[i] != 0
}

pub open spec fn is_pow2(n: nat) -> bool
    decreases n,
{
    if n <= 1 {
        n == 1
    } else {
        n % 2 == 0 && is_pow2(n / 2)
    }
}

/// Every cell whose offsets from `s` are both multiples of `q` is owned.
pub open spec fn owned_on_lattice(g: Seq<usize>, s: (usize, usize), res: int, q: int) -> bool {
    forall|x: int, y: int|
        #![trigger g[x + y * res]]
        in_grid(x, y, res) && (x - s.0) % q == 0 && (y - s.1) % q == 0 ==> g[x + y * res] != 0
}

pub proof fn lemma_cell_of(c: int, res: int)
    requires
        res > 0,
        0 <= c < res * res,
    ensures
        in_grid(c % res, c / res, res),
        c % res + (c / res) * res == c,
{
    lemma_fundamental_div_mod(c, res);
    lemma_mod_bound(c, res);
    let q = c / res;
    let r = c % res;
    assert(q < res) by (nonlinear_arith)
        requires
            c == res * q + r,
            0 <= r < res,
            c < res * res,
    ;
    assert(q >= 0) by (nonlinear_arith)
        requires
            c == res * q + r,
            0 <= r < res,
            c >= 0,
    ;
    assert(r + q * res == c) by (nonlinear_arith)
        requires
            c == res * q + r,
    ;
}

proof fn lemma_index_in(x: int, y: int, res: int)
    requires
        in_grid(x, y, res),
    ensures
        0 <= x + y * res < res * res,
{
    assert(0 <= x + y * res < res * res) by (nonlinear_arith)
        requires
            0 <= x < res,
            0 <= y < res,
    ;
}

proof fn lemma_relax_grows(
    g: Seq<usize>,
    seeds: Seq<(usize, usize)>,
    res: int,
    k: int,
    x: int,
    y: int,
    d: int,
)
    requires
        in_grid(x, y, res),
        g.len() == res * res,
        owners_valid(g, seeds.len()),
    ensures
        grows(g, relax(g, seeds, res, k, x, y, d), seeds.len()),
{
    lemma_index_in(x, y, res);
    if neighbor_of(x, y, res, k, d) is Some {
        lemma_index_in(x + dir_x(d) * k, y + dir_y(d) * k, res);
    }
}

proof fn lemma_visit_grows(
    g: Seq<usize>,
    seeds: Seq<(usize, usize)>,
    res: int,
    k: int,
    x: int,
    y: int,
    d1: nat,
    d2: nat,
)
    requires
        d1 <= d2,
        in_grid(x, y, res),
        g.len() == res * res,
        owners_valid(g, seeds.len()),
    ensures
        grows(g, visit_upto(g, seeds, res, k, x, y, d2), seeds.len()),
        grows(
            visit_upto(g, seeds, res, k, x, y, d1),
            visit_upto(g, seeds, res, k, x, y, d2),
            seeds.len(),
        ),
    decreases d2,
{
    if d2 > 0 {
        lemma_visit_grows(g, seeds, res, k, x, y, 0, (d2 - 1) as nat);
        let v = visit_upto(g, seeds, res, k, x, y, (d2 - 1) as nat);
        lemma_relax_grows(v, seeds, res, k, x, y, d2 - 1);
        if d1 < d2 {
            lemma_visit_grows(g, seeds, res, k, x, y, d1, (d2 - 1) as nat);
        }
    }
}

proof fn lemma_pass_upto_grows(
    g: Seq<usize>,
    seeds: Seq<(usize, usize)>,
    res: int,
    k: int,
    t1: nat,
    t2: nat,
)
    requires
        res > 0,
        t1 <= t2 <= res * res,
        g.len() == res * res,
        owners_valid(g, seeds.len()),
    ensures
        grows(g, pass_upto(g, seeds, res, k, t2), seeds.len()),
        grows(pass_upto(g, seeds, res, k, t1), pass_upto(g, seeds, res, k, t2), seeds.len()),
    decreases t2,
{
    if t2 > 0 {
        let c = t2 - 1;
        lemma_pass_upto_grows(g, seeds, res, k, 0, (t2 - 1) as nat);
        let p = pass_upto(g, seeds, res, k, (t2 - 1) as nat);
        lemma_cell_of(c, res);
        lemma_visit_grows(p, seeds, res, k, c % res, c / res, 0, 9);
        if t1 < t2 {
            lemma_pass_upto_grows(g, seeds, res, k, t1, (t2 - 1) as nat);
        }
    }
}

/// A pass keeps every owned cell owned and only writes seed ids.
pub proof fn lemma_pass_grows(g: Seq<usize>, seeds: Seq<(usize, usize)>, res: int, k: int)
    requires
        res >= 0,
        g.len() == res * res,
        owners_valid(g, seeds.len()),
    ensures
        grows(g, pass(g, seeds, res, k), seeds.len()),
{
    if res > 0 {
        assert(res * res > 0) by (nonlinear_arith)
            requires
                res > 0,
        ;
        lemma_pass_upto_grows(g, seeds, res, k, 0, (res * res) as nat);
    }
}

pub proof fn lemma_flood_grows(g: Seq<usize>, seeds: Seq<(usize, usize)>, res: int, k: nat)
    requires
        res >= 0,
        g.len() == res * res,
        owners_valid(g, seeds.len()),
    ensures
        grows(g, flood(g, seeds, res, k), seeds.len()),
    decreases k,
{
    if k > 0 {
        lemma_pass_grows(g, seeds, res, k as int);
        lemma_flood_grows(pass(g, seeds, res, k as int), seeds, res, k / 2);
    }
}

/// A cell whose neighbour at jump `k` is owned when a pass starts is owned
/// when the pass ends.
proof fn lemma_pass_fills_from_neighbor(
    g: Seq<usize>,
    seeds: Seq<(usize, usize)>,
    res: int,
    k: int,
    x: int,
    y: int,
    d: int,
)
    requires
        in_grid(x, y, res),
        0 <= d < 9,
        g.len() == res * res,
        owners_valid(g, seeds.len()),
        neighbor_of(x, y, res, k, d) is Some,
        g[neighbor_of(x, y, res, k, d)->Some_0] != 0,
    ensures
        pass(g, seeds, res, k)[x + y * res] != 0,
{
    let c = x + y * res;
    let j = neighbor_of(x, y, res, k, d)->Some_0;
    lemma_index_in(x, y, res);
    lemma_index_in(x + dir_x(d) * k, y + dir_y(d) * k, res);
    lemma_fundamental_div_mod_converse(c, res, y, x);
    lemma_pass_upto_grows(g, seeds, res, k, 0, c as nat);
    let h = pass_upto(g, seeds, res, k, c as nat);
    lemma_visit_grows(h, seeds, res, k, x, y, 0, d as nat);
    let v = visit_upto(h, seeds, res, k, x, y, d as nat);
    assert(v[j] != 0);
    let w = visit_upto(h, seeds, res, k, x, y, (d + 1) as nat);
    assert(w[c] != 0);
    lemma_visit_grows(h, seeds, res, k, x, y, (d + 1) as nat, 9);
    assert(pass_upto(g, seeds, res, k, (c + 1) as nat)[c] != 0);
    lemma_pass_upto_grows(g, seeds, res, k, (c + 1) as nat, (res * res) as nat);
}

/// An odd multiple of `k` lies `k` away from an even one on either side.
proof fn lemma_odd_multiple(a: int, k: int)
    requires
        k > 0,
        a % k == 0,
        a % (2 * k) != 0,
    ensures
        (a - k) % (2 * k) == 0,
        (a + k) % (2 * k) == 0,
        a > 0 ==> a >= k,
        a < 0 ==> a <= -k,
        a != 0,
{
    lemma_fundamental_div_mod(a, k);
    lemma_fundamental_div_mod(a, 2 * k);
    lemma_mod_bound(a, 2 * k);
    let q = a / k;
    let m = a / (2 * k);
    let r = a % (2 * k);
    let t = q - 2 * m;
    assert(r == k * t) by (nonlinear_arith)
        requires
            a == k * q + 0,
            a == (2 * k) * m + r,
            t == q - 2 * m,
    ;
    assert(t > 0) by (nonlinear_arith)
        requires
            k > 0,
            k * t > 0,
    ;
    assert(t < 2) by (nonlinear_arith)
        requires
            k > 0,
            k * t < 2 * k,
    ;
    assert(r == k) by (nonlinear_arith)
        requires
            r == k * t,
            t == 1,
    ;
    assert(a - k == m * (2 * k)) by (nonlinear_arith)
        requires
            a == (2 * k) * m + k,
    ;
    assert(a + k == (m + 1) * (2 * k)) by (nonlinear_arith)
        requires
            a == (2 * k) * m + k,
    ;
    lemma_mod_multiples_basic(m, 2 * k);
    lemma_mod_multiples_basic(m + 1, 2 * k);
    assert(a > 0 ==> a >= k) by (nonlinear_arith)
        requires
            a == (2 * k) * m + k,
            k > 0,
    ;
    assert(a < 0 ==> a <= -k) by (nonlinear_arith)
        requires
            a == (2 * k) * m + k,
            k > 0,
    ;
}

/// The unit step, in `-1..=1`, that takes offset `a` (a multiple of `k`) to
/// a multiple of `2 * k` while moving toward zero.
spec fn toward(a: int, k: int) -> int {
    if a % (2 * k) == 0 {
        0
    } else if a > 0 {
        -1
    } else {
        1
    }
}

proof fn lemma_toward(a: int, k: int, c: int, res: int)
    requires
        k > 0,
        a % k == 0,
        0 <= c < res,
        0 <= c - a < res,
    ensures
        (a + toward(a, k) * k) % (2 * k) == 0,
        0 <= c + toward(a, k) * k < res,
{
    if a % (2 * k) != 0 {
        lemma_odd_multiple(a, k);
    }
}

/// A pass at jump `k` takes the owned lattice of step `2 * k` round a cell to
/// the lattice of step `k`.
proof fn lemma_pass_halves_lattice(
    g: Seq<usize>,
    seeds: Seq<(usize, usize)>,
    res: int,
    k: int,
    s: (usize, usize),
)
    requires
        k > 0,
        res > 0,
        in_grid(s.0 as int, s.1 as int, res),
        g.len() == res * res,
        owners_valid(g, seeds.len()),
        owned_on_lattice(g, s, res, 2 * k),
    ensures
        owned_on_lattice(pass(g, seeds, res, k), s, res, k),
{
    let p = pass(g, seeds, res, k);
    lemma_pass_grows(g, seeds, res, k);
    assert forall|x: int, y: int|
        #![trigger p[x + y * res]]
        in_grid(x, y, res) && (x - s.0) % k == 0 && (y - s.1) % k == 0 implies p[x + y * res]
        != 0 by {
        let a = x - s.0;
        let b = y - s.1;
        let ex = toward(a, k);
        let ey = toward(b, k);
        lemma_toward(a, k, x, res);
        lemma_toward(b, k, y, res);
        lemma_index_in(x, y, res);
        if ex == 0 && ey == 0 {
            assert(g[x + y * res] != 0);
        } else {
            let d = (ex + 1) * 3 + (ey + 1);
            assert(dir_x(d) == ex);
            assert(dir_y(d) == ey);
            let nx = x + ex * k;
            let ny = y + ey * k;
            assert((nx - s.0) % (2 * k) == 0);
            assert((ny - s.1) % (2 * k) == 0);
            assert(g[nx + ny * res] != 0);
            lemma_pass_fills_from_neighbor(g, seeds, res, k, x, y, d);
        }
    }
}

/// Passes at jumps `k`, `k / 2`, ..., `1` take the owned lattice of step
/// `2 * k` to the whole grid.
proof fn lemma_flood_fills(
    g: Seq<usize>,
    seeds: Seq<(usize, usize)>,
    res: int,
    k: nat,
    s: (usize, usize),
)
    requires
        is_pow2(k),
        res > 0,
        in_grid(s.0 as int, s.1 as int, res),
        g.len() == res * res,
        owners_valid(g, seeds.len()),
        owned_on_lattice(g, s, res, 2 * k as int),
    ensures
        owned_on_lattice(flood(g, seeds, res, k), s, res, 1),
    decreases k,
{
    lemma_pass_halves_lattice(g, seeds, res, k as int, s);
    lemma_pass_grows(g, seeds, res, k as int);
    assert(flood(g, seeds, res, k) == flood(pass(g, seeds, res, k as int), seeds, res, k / 2));
    if k == 1 {
        assert(flood(pass(g, seeds, res, 1), seeds, res, 0) == pass(g, seeds, res, 1));
    } else {
        assert(2 * (k / 2) == k);
        lemma_flood_fills(pass(g, seeds, res, k as int), seeds, res, k / 2, s);
    }
}

proof fn lemma_seeded_upto(seeds: Seq<(usize, usize)>, res: int, i: nat)
    requires
        res > 0,
        i <= seeds.len(),
        seeds.len() <= usize::MAX,
        seeds_in_grid(seeds, res),
    ensures
        seeded_upto(seeds, res, i).len() == res * res,
        owners_valid(seeded_upto(seeds, res, i), seeds.len()),
        forall|j: int|
            0 <= j < i ==> seeded_upto(seeds, res, i)[seeds[j].0 + seeds[j].1 * res] != 0,
    decreases i,
{
    assert(res * res > 0) by (nonlinear_arith)
        requires
            res > 0,
    ;
    if i > 0 {
        lemma_seeded_upto(seeds, res, (i - 1) as nat);
        let h = seeds[i - 1];
        lemma_index_in(h.0 as int, h.1 as int, res);
        assert forall|j: int| 0 <= j < i implies seeded_upto(seeds, res, i)[seeds[j].0 + seeds[j].1
            * res] != 0 by {
            lemma_index_in(seeds[j].0 as int, seeds[j].1 as int, res);
            if j < i - 1 {
                assert(seeded_upto(seeds, res, (i - 1) as nat)[seeds[j].0 + seeds[j].1 * res] != 0);
            }
        }
    }
}

/// Only the cell itself lies at a multiple of `res` from a cell of the grid.
proof fn lemma_single_lattice_point(a: int, res: int)
    requires
        res > 0,
        -res < a < res,
        a % res == 0,
    ensures
        a == 0,
{
    lemma_fundamental_div_mod(a, res);
    let q = a / res;
    assert(q == 0) by (nonlinear_arith)
        requires
            a == res * q + 0,
            -res < a < res,
            res > 0,
    ;
}

/// With at least one seed, on a grid whose resolution is a power of two,
/// the finished grid has every cell owned, and only by seed ids.
pub proof fn lemma_jfa_covers(points: Seq<(usize, usize)>, res: int)
    requires
        1 <= points.len() <= usize::MAX,
        is_pow2(res as nat),
        res >= 1,
    ensures
        jfa_grid(points, res).len() == res * res,
        owners_valid(jfa_grid(points, res), points.len()),
        forall|i: int| 0 <= i < res * res ==> jfa_grid(points, res)[i] != 0,
{
    let s = homes(points, res);
    let h = s[0];
    let g0 = seeded(s, res);
    lemma_seeded_upto(s, res, s.len());
    lemma_index_in(h.0 as int, h.1 as int, res);
    assert forall|x: int, y: int|
        #![trigger g0[x + y * res]]
        in_grid(x, y, res) && (x - h.0) % res == 0 && (y - h.1) % res == 0 implies g0[x + y
        * res] != 0 by {
        lemma_single_lattice_point(x - h.0, res);
        lemma_single_lattice_point(y - h.1, res);
    }
    let g1 = pass(g0, s, res, 1);
    lemma_pass_grows(g0, s, res, 1);
    assert(owned_on_lattice(g1, h, res, res)) by {
        assert forall|x: int, y: int|
            #![trigger g1[x + y * res]]
            in_grid(x, y, res) && (x - h.0) % res == 0 && (y - h.1) % res == 0 implies g1[x + y
            * res] != 0 by {
            lemma_index_in(x, y, res);
            assert(g0[x + y * res] != 0);
        }
    }
    let g = jfa_grid(points, res);
    if res == 1 {
        assert(g == g1);
    } else {
        assert(2 * (res / 2) == res);
        lemma_flood_fills(g1, s, res, (res / 2) as nat, h);
    }
    lemma_flood_grows(g1, s, res, (res / 2) as nat);
    assert forall|i: int| 0 <= i < res * res implies g[i] != 0 by {
        lemma_cell_of(i, res);
        let x = i % res;
        let y = i / res;
        lemma_mod_bound(x - h.0, 1);
        lemma_mod_bound(y - h.1, 1);
        assert(g[x + y * res] != 0);
    }
}

/// With a single seed, on a grid whose resolution is a power of two, every
/// cell of the finished grid is owned by that seed.
pub proof fn lemma_single_seed_owns_all(points: Seq<(usize, usize)>, res: int)
    requires
        points.len() == 1,
        is_pow2(res as nat),
        res >= 1,
    ensures
        jfa_grid(points, res).len() == res * res,
        forall|i: int| 0 <= i < res * res ==> jfa_grid(points, res)[i] == 1,
{
    lemma_jfa_covers(points, res);
}

/// Cell `h` is owned by a seed whose cell is `h`.
pub open spec fn held_by_own_seed(
    g: Seq<usize>,
    seeds: Seq<(usize, usize)>,
    res: int,
    h: (usize, usize),
) -> bool {
    let o = g[h.0 + h.1 * res];
    1 <= o <= seeds.len() && seeds[o - 1] == h
}

proof fn lemma_index_injective(x1: int, y1: int, x2: int, y2: int, res: int)
    requires
        in_grid(x1, y1, res),
        in_grid(x2, y2, res),
        x1 + y1 * res == x2 + y2 * res,
    ensures
        x1 == x2,
        y1 == y2,
{
    lemma_fundamental_div_mod_converse(x1 + y1 * res, res, y1, x1);
    lemma_fundamental_div_mod_converse(x2 + y2 * res, res, y2, x2);
}

proof fn lemma_relax_holds(
    g: Seq<usize>,
    seeds: Seq<(usize, usize)>,
    res: int,
    k: int,
    x: int,
    y: int,
    d: int,
    h: (usize, usize),
)
    requires
        in_grid(x, y, res),
        in_grid(h.0 as int, h.1 as int, res),
        g.len() == res * res,
        held_by_own_seed(g, seeds, res, h),
    ensures
        held_by_own_seed(relax(g, seeds, res, k, x, y, d), seeds, res, h),
{
    lemma_index_in(x, y, res);
    lemma_index_in(h.0 as int, h.1 as int, res);
    if x + y * res == h.0 + h.1 * res {
        lemma_index_injective(x, y, h.0 as int, h.1 as int, res);
        let cur = g[x + y * res];
        let sc = seeds[cur - 1];
        assert(dist2(x, y, sc) == 0) by (nonlinear_arith)
            requires
                x == sc.0,
                y == sc.1,
        ;
        if let Some(j) = neighbor_of(x, y, res, k, d) {
            let found = g[j];
            if found != 0 {
                let f = seeds[found - 1];
                assert(dist2(x, y, f) >= 0) by (nonlinear_arith);
            }
        }
    }
}

proof fn lemma_visit_holds(
    g: Seq<usize>,
    seeds: Seq<(usize, usize)>,
    res: int,
    k: int,
    x: int,
    y: int,
    d: nat,
    h: (usize, usize),
)
    requires
        in_grid(x, y, res),
        in_grid(h.0 as int, h.1 as int, res),
        g.len() == res * res,
        owners_valid(g, seeds.len()),
        held_by_own_seed(g, seeds, res, h),
    ensures
        held_by_own_seed(visit_upto(g, seeds, res, k, x, y, d), seeds, res, h),
    decreases d,
{
    if d > 0 {
        lemma_visit_holds(g, seeds, res, k, x, y, (d - 1) as nat, h);
        lemma_visit_grows(g, seeds, res, k, x, y, 0, (d - 1) as nat);
        lemma_relax_holds(
            visit_upto(g, seeds, res, k, x, y, (d - 1) as nat),
            seeds,
            res,
            k,
            x,
            y,
            d - 1,
            h,
        );
    }
}

proof fn lemma_pass_upto_holds(
    g: Seq<usize>,
    seeds: Seq<(usize, usize)>,
    res: int,
    k: int,
    t: nat,
    h: (usize, usize),
)
    requires
        res > 0,
        t <= res * res,
        in_grid(h.0 as int, h.1 as int, res),
        g.len() == res * res,
        owners_valid(g, seeds.len()),
        held_by_own_seed(g, seeds, res, h),
    ensures
        held_by_own_seed(pass_upto(g, seeds, res, k, t), seeds, res, h),
    decreases t,
{
    if t > 0 {
        let c = t - 1;
        lemma_pass_upto_holds(g, seeds, res, k, (t - 1) as nat, h);
        lemma_pass_upto_grows(g, seeds, res, k, 0, (t - 1) as nat);
        lemma_cell_of(c, res);
        lemma_visit_holds(
            pass_upto(g, seeds, res, k, (t - 1) as nat),
            seeds,
            res,
            k,
            c % res,
            c / res,
            9,
            h,
        );
    }
}

proof fn lemma_flood_holds(
    g: Seq<usize>,
    seeds: Seq<(usize, usize)>,
    res: int,
    k: nat,
    h: (usize, usize),
)
    requires
        res > 0,
        in_grid(h.0 as int, h.1 as int, res),
        g.len() == res * res,
        owners_valid(g, seeds.len()),
        held_by_own_seed(g, seeds, res, h),
    ensures
        held_by_own_seed(flood(g, seeds, res, k), seeds, res, h),
    decreases k,
{
    if k > 0 {
        assert(res * res > 0) by (nonlinear_arith)
            requires
                res > 0,
        ;
        lemma_pass_upto_holds(g, seeds, res, k as int, (res * res) as nat, h);
        lemma_pass_grows(g, seeds, res, k as int);
        lemma_flood_holds(pass(g, seeds, res, k as int), seeds, res, k / 2, h);
    }
}

proof fn lemma_seeded_holds(seeds: Seq<(usize, usize)>, res: int, i: nat)
    requires
        res > 0,
        i <= seeds.len(),
        seeds.len() <= usize::MAX,
        seeds_in_grid(seeds, res),
    ensures
        forall|j: int|
            0 <= j < i ==> held_by_own_seed(#[trigger] seeded_upto(seeds, res, i), seeds, res, seeds[j]),
    decreases i,
{
    lemma_seeded_upto(seeds, res, i);
    if i > 0 {
        lemma_seeded_holds(seeds, res, (i - 1) as nat);
        lemma_seeded_upto(seeds, res, (i - 1) as nat);
        let h = seeds[i - 1];
        let prev = seeded_upto(seeds, res, (i - 1) as nat);
        lemma_index_in(h.0 as int, h.1 as int, res);
        assert(seeded_upto(seeds, res, i) == prev.update(h.0 + h.1 * res, i as usize));
        assert forall|j: int| 0 <= j < i implies held_by_own_seed(
            #[trigger] seeded_upto(seeds, res, i),
            seeds,
            res,
            seeds[j],
        ) by {
            let sj = seeds[j];
            lemma_index_in(sj.0 as int, sj.1 as int, res);
            lemma_index_in(h.0 as int, h.1 as int, res);
            if sj.0 + sj.1 * res == h.0 + h.1 * res {
                lemma_index_injective(sj.0 as int, sj.1 as int, h.0 as int, h.1 as int, res);
                assert(sj == h);
                assert(seeded_upto(seeds, res, i)[h.0 + h.1 * res] == i as usize);
            } else {
                assert(held_by_own_seed(seeded_upto(seeds, res, (i - 1) as nat), seeds, res, sj));
            }
        }
    }
}

/// A seed's own cell ends owned by a seed placed on that same cell (itself,
/// or a later seed on the same cell): no flood pass moves a seed cell to
/// another seed, since none is closer than distance zero.
pub proof fn lemma_seed_cells_keep_their_seed(points: Seq<(usize, usize)>, res: int, i: int)
    requires
        res >= 1,
        0 <= i < points.len(),
        points.len() <= usize::MAX,
    ensures
        held_by_own_seed(jfa_grid(points, res), homes(points, res), res, homes(points, res)[i]),
{
    let s = homes(points, res);
    let h = s[i];
    let g0 = seeded(s, res);
    lemma_seeded_upto(s, res, s.len());
    lemma_seeded_holds(s, res, s.len());
    assert(held_by_own_seed(g0, s, res, h));
    assert(res * res > 0) by (nonlinear_arith)
        requires
            res >= 1,
    ;
    lemma_pass_upto_holds(g0, s, res, 1, (res * res) as nat, h);
    lemma_pass_grows(g0, s, res, 1);
    lemma_flood_holds(pass(g0, s, res, 1), s, res, (res / 2) as nat, h);
}

} // verus!
