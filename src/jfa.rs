//! Sequential jump flooding over a square ownership grid.
//!
//! A grid of resolution `res` is a flat row-major sequence of `res * res`
//! owner ids: cell `(x, y)` sits at index `x + y * res`, `0` means unowned and
//! `i >= 1` means owned by seed `i - 1`.
use vstd::arithmetic::div_mod::lemma_fundamental_div_mod_converse;
use vstd::prelude::*;

use crate::clamp_coord;

verus! {

/// Squared Euclidean distance between cell `(x, y)` and the cell `s`.
pub open spec fn dist2(x: int, y: int, s: (usize, usize)) -> int {
    (x - s.0) * (x - s.0) + (y - s.1) * (y - s.1)
}

/// Horizontal unit of direction `d` (`0 <= d < 9`, the x offset varies slowest).
pub open spec fn dir_x(d: int) -> int {
    d / 3 - 1
}

/// Vertical unit of direction `d`.
pub open spec fn dir_y(d: int) -> int {
    d % 3 - 1
}

pub open spec fn in_grid(x: int, y: int, res: int) -> bool {
    0 <= x < res && 0 <= y < res
}

/// Flat index of the neighbour of `(x, y)` in direction `d` at jump `k`, when
/// that neighbour is a distinct cell of the grid.
pub open spec fn neighbor_of(x: int, y: int, res: int, k: int, d: int) -> Option<int> {
    let nx = x + dir_x(d) * k;
    let ny = y + dir_y(d) * k;
    if d == 4 || !in_grid(nx, ny, res) {
        None
    } else {
        Some(nx + ny * res)
    }
}

/// The owner that cell `(x, y)`, owned by `cur`, keeps after looking at a
/// neighbour owned by `found`: an unowned cell adopts any owner, an owned one
/// switches only to a strictly closer seed.
pub open spec fn pick_owner(
    seeds: Seq<(usize, usize)>,
    x: int,
    y: int,
    cur: usize,
    found: usize,
) -> usize {
    if found == 0 {
        cur
    } else if cur == 0 {
        found
    } else if dist2(x, y, seeds[found - 1]) < dist2(x, y, seeds[cur - 1]) {
        found
    } else {
        cur
    }
}

/// Cell `(x, y)` looks at its neighbour in direction `d`.
pub open spec fn relax(
    g: Seq<usize>,
    seeds: Seq<(usize, usize)>,
    res: int,
    k: int,
    x: int,
    y: int,
    d: int,
) -> Seq<usize> {
    match neighbor_of(x, y, res, k, d) {
        Some(j) => g.update(x + y * res, pick_owner(seeds, x, y, g[x + y * res], g[j])),
        None => g,
    }
}

/// Cell `(x, y)` after looking at its first `d` directions in order.
pub open spec fn visit_upto(
    g: Seq<usize>,
    seeds: Seq<(usize, usize)>,
    res: int,
    k: int,
    x: int,
    y: int,
    d: nat,
) -> Seq<usize>
    decreases d,
{
    if d == 0 {
        g
    } else {
        relax(visit_upto(g, seeds, res, k, x, y, (d - 1) as nat), seeds, res, k, x, y, d - 1)
    }
}

/// The grid after the first `t` cells, in increasing flat index, have been
/// visited in place at jump `k`.
pub open spec fn pass_upto(
    g: Seq<usize>,
    seeds: Seq<(usize, usize)>,
    res: int,
    k: int,
    t: nat,
) -> Seq<usize>
    decreases t,
{
    if t == 0 {
        g
    } else {
        let c = t - 1;
        visit_upto(pass_upto(g, seeds, res, k, (t - 1) as nat), seeds, res, k, c % res, c / res, 9)
    }
}

/// One full in-place pass at jump `k`.
pub open spec fn pass(g: Seq<usize>, seeds: Seq<(usize, usize)>, res: int, k: int) -> Seq<usize> {
    pass_upto(g, seeds, res, k, (res * res) as nat)
}

/// Passes at jumps `k`, `k / 2`, ..., `1`.
pub open spec fn flood(g: Seq<usize>, seeds: Seq<(usize, usize)>, res: int, k: nat) -> Seq<usize>
    decreases k,
{
    if k == 0 {
        g
    } else {
        flood(pass(g, seeds, res, k as int), seeds, res, k / 2)
    }
}

/// The grid cell of a point whose coordinates were already scaled to the
/// grid: each coordinate clamped to `res - 1`.
pub open spec fn home(p: (usize, usize), res: int) -> (usize, usize) {
    (
        if p.0 < res { p.0 } else { (res - 1) as usize },
        if p.1 < res { p.1 } else { (res - 1) as usize },
    )
}

pub open spec fn homes(points: Seq<(usize, usize)>, res: int) -> Seq<(usize, usize)> {
    Seq::new(points.len(), |i: int| home(points[i], res))
}

/// The empty grid with the first `i` seeds written at their cells, a later
/// seed overwriting an earlier one.
pub open spec fn seeded_upto(seeds: Seq<(usize, usize)>, res: int, i: nat) -> Seq<usize>
    decreases i,
{
    if i == 0 {
        Seq::new((res * res) as nat, |j: int| 0usize)
    } else {
        let h = seeds[i - 1];
        seeded_upto(seeds, res, (i - 1) as nat).update(h.0 + h.1 * res, i as usize)
    }
}

pub open spec fn seeded(seeds: Seq<(usize, usize)>, res: int) -> Seq<usize> {
    seeded_upto(seeds, res, seeds.len())
}

/// The finished grid: a refinement pass at jump 1, then passes at jumps
/// `res / 2`, `res / 4`, ..., `1`.
pub open spec fn jfa_grid(points: Seq<(usize, usize)>, res: int) -> Seq<usize> {
    let s = homes(points, res);
    flood(pass(seeded(s, res), s, res, 1), s, res, (res / 2) as nat)
}

/// Every cell holds `0` or the id of one of `n` seeds.
pub open spec fn owners_valid(g: Seq<usize>, n: nat) -> bool {
    forall|i: int| 0 <= i < g.len() ==> g[i] <= n
}

pub open spec fn seeds_in_grid(seeds: Seq<(usize, usize)>, res: int) -> bool {
    forall|i: int| 0 <= i < seeds.len() ==> seeds[i].0 < res && seeds[i].1 < res
}

#[derive(Debug, Clone, Copy, PartialEq, Eq, Structural)]
pub enum JfaError {
    /// A grid of resolution zero has no cells.
    ZeroResolution,
}

proof fn lemma_cell_index(x: int, y: int, res: int)
    requires
        0 <= x < res,
        0 <= y < res,
    ensures
        0 <= x + y * res < res * res,
{
    assert(0 <= x + y * res < res * res) by (nonlinear_arith)
        requires
            0 <= x < res,
            0 <= y < res,
    ;
}

pub proof fn lemma_res_small(res: int)
    requires
        0 <= res,
        res * res <= usize::MAX,
    ensures
        res <= 0xffff_ffff,
{
    if res > 0xffff_ffff {
        assert(res * res > usize::MAX) by (nonlinear_arith)
            requires
                res > 0xffff_ffff,
        ;
    }
}

/// `c + (s - 1) * k` for `s` in `0..3`, when it lies in `0..res`.
fn shift(c: usize, s: usize, k: usize, res: usize) -> (r: Option<usize>)
    requires
        c < res,
        s < 3,
    ensures
        0 <= c + (s - 1) * k < res ==> r == Some((c + (s - 1) * k) as usize),
        !(0 <= c + (s - 1) * k < res) ==> r is None,
{
    assert(s == 0 ==> (s - 1) * k == -k) by (nonlinear_arith);
    assert(s == 1 ==> (s - 1) * k == 0) by (nonlinear_arith);
    assert(s == 2 ==> (s - 1) * k == k) by (nonlinear_arith);
    if s == 0 {
        if c >= k {
            Some(c - k)
        } else {
            None
        }
    } else if s == 1 {
        Some(c)
    } else {
        if k < res - c {
            Some(c + k)
        } else {
            None
        }
    }
}

fn neighbor(x: usize, y: usize, res: usize, k: usize, d: usize) -> (r: Option<usize>)
    requires
        x < res,
        y < res,
        d < 9,
        res * res <= usize::MAX,
    ensures
        r is Some <==> neighbor_of(x as int, y as int, res as int, k as int, d as int) is Some,
        r is Some ==> r->Some_0 as int == neighbor_of(
            x as int,
            y as int,
            res as int,
            k as int,
            d as int,
        )->Some_0,
        r is Some ==> r->Some_0 < res * res,
{
    if d == 4 {
        return None;
    }
    match shift(x, d / 3, k, res) {
        None => None,
        Some(nx) => match shift(y, d % 3, k, res) {
            None => None,
            Some(ny) => {
                proof {
                    lemma_cell_index(nx as int, ny as int, res as int);
                }
                Some(nx + ny * res)
            },
        },
    }
}

fn sq_dist(x: usize, y: usize, s: (usize, usize)) -> (r: u128)
    requires
        x <= 0xffff_ffff,
        y <= 0xffff_ffff,
        s.0 <= 0xffff_ffff,
        s.1 <= 0xffff_ffff,
    ensures
        r == dist2(x as int, y as int, s),
{
    let dx: u128 = if x >= s.0 {
        (x - s.0) as u128
    } else {
        (s.0 - x) as u128
    };
    let dy: u128 = if y >= s.1 {
        (y - s.1) as u128
    } else {
        (s.1 - y) as u128
    };
    proof {
        assert(dx * dx == (x - s.0) * (x - s.0)) by (nonlinear_arith)
            requires
                dx == x - s.0 || dx == s.0 - x,
        ;
        assert(dy * dy == (y - s.1) * (y - s.1)) by (nonlinear_arith)
            requires
                dy == y - s.1 || dy == s.1 - y,
        ;
        assert(dx * dx <= 0xffff_ffff * 0xffff_ffff) by (nonlinear_arith)
            requires
                dx <= 0xffff_ffff,
        ;
        assert(dy * dy <= 0xffff_ffff * 0xffff_ffff) by (nonlinear_arith)
            requires
                dy <= 0xffff_ffff,
        ;
    }
    dx * dx + dy * dy
}

fn pick(seeds: &Vec<(usize, usize)>, x: usize, y: usize, cur: usize, found: usize) -> (r: usize)
    requires
        cur <= seeds@.len(),
        found <= seeds@.len(),
        x <= 0xffff_ffff,
        y <= 0xffff_ffff,
        forall|i: int|
            0 <= i < seeds@.len() ==> seeds@[i].0 <= 0xffff_ffff && seeds@[i].1 <= 0xffff_ffff,
    ensures
        r == pick_owner(seeds@, x as int, y as int, cur, found),
{
    if found == 0 {
        cur
    } else if cur == 0 {
        found
    } else {
        let d_found = sq_dist(x, y, seeds[found - 1]);
        let d_cur = sq_dist(x, y, seeds[cur - 1]);
        if d_found < d_cur {
            found
        } else {
            cur
        }
    }
}

/// Cell `(x, y)` looks at its eight neighbours at jump `k`, updating the grid
/// in place.
fn visit_cell(
    pixel_grid: &mut Vec<usize>,
    seeds: &Vec<(usize, usize)>,
    res: usize,
    k: usize,
    x: usize,
    y: usize,
)
    requires
        x < res,
        y < res,
        res * res <= usize::MAX,
        old(pixel_grid)@.len() == res * res,
        owners_valid(old(pixel_grid)@, seeds@.len()),
        seeds_in_grid(seeds@, res as int),
    ensures
        final(pixel_grid)@ == visit_upto(
            old(pixel_grid)@,
            seeds@,
            res as int,
            k as int,
            x as int,
            y as int,
            9,
        ),
        final(pixel_grid)@.len() == res * res,
        owners_valid(final(pixel_grid)@, seeds@.len()),
{
    proof {
        lemma_cell_index(x as int, y as int, res as int);
        lemma_res_small(res as int);
    }
    let ghost g0 = pixel_grid@;
    let idx = x + y * res;
    let mut d: usize = 0;
    while d < 9
        invariant
            d <= 9,
            idx == x + y * res,
            idx < res * res,
            x < res,
            y < res,
            res <= 0xffff_ffff,
            res * res <= usize::MAX,
            seeds_in_grid(seeds@, res as int),
            pixel_grid@.len() == res * res,
            owners_valid(pixel_grid@, seeds@.len()),
            pixel_grid@ == visit_upto(g0, seeds@, res as int, k as int, x as int, y as int, d as nat),
        decreases 9 - d,
    {
        match neighbor(x, y, res, k, d) {
            Some(j) => {
                let cur = pixel_grid[idx];
                let found = pixel_grid[j];
                let w = pick(seeds, x, y, cur, found);
                pixel_grid.set(idx, w);
            },
            None => {},
        }
        d += 1;
    }
}

/// One in-place pass at jump `k`: every cell, in increasing flat index, looks
/// at its eight neighbours at distance `k`.
pub fn jfa_step(pixel_grid: &mut Vec<usize>, normal_points: &Vec<(usize, usize)>, res: usize, k: usize)
    requires
        res * res <= usize::MAX,
        old(pixel_grid)@.len() == res * res,
        owners_valid(old(pixel_grid)@, normal_points@.len()),
        seeds_in_grid(normal_points@, res as int),
    ensures
        final(pixel_grid)@ == pass(old(pixel_grid)@, normal_points@, res as int, k as int),
        final(pixel_grid)@.len() == res * res,
        owners_valid(final(pixel_grid)@, normal_points@.len()),
{
    let ghost g0 = pixel_grid@;
    let mut y: usize = 0;
    while y < res
        invariant
            y <= res,
            res * res <= usize::MAX,
            seeds_in_grid(normal_points@, res as int),
            pixel_grid@.len() == res * res,
            owners_valid(pixel_grid@, normal_points@.len()),
            pixel_grid@ == pass_upto(g0, normal_points@, res as int, k as int, (y * res) as nat),
        decreases res - y,
    {
        let mut x: usize = 0;
        while x < res
            invariant
                x <= res,
                y < res,
                res * res <= usize::MAX,
                seeds_in_grid(normal_points@, res as int),
                pixel_grid@.len() == res * res,
                owners_valid(pixel_grid@, normal_points@.len()),
                pixel_grid@ == pass_upto(
                    g0,
                    normal_points@,
                    res as int,
                    k as int,
                    (y * res + x) as nat,
                ),
            decreases res - x,
        {
            proof {
                lemma_fundamental_div_mod_converse((y * res + x) as int, res as int, y as int, x as int);
            }
            visit_cell(pixel_grid, normal_points, res, k, x, y);
            x += 1;
        }
        assert(y * res + res == (y + 1) * res) by (nonlinear_arith);
        y += 1;
    }
}

/// The grid cells of points whose coordinates were already scaled to the grid
/// (`floor(x * res / width)`, `floor(y * res / height)`), clamped into it.
pub fn home_cells(points: &Vec<(usize, usize)>, res: usize) -> (r: Vec<(usize, usize)>)
    requires
        res >= 1,
    ensures
        r@ == homes(points@, res as int),
        seeds_in_grid(r@, res as int),
{
    let mut r: Vec<(usize, usize)> = Vec::new();
    let mut i: usize = 0;
    while i < points.len()
        invariant
            i <= points@.len(),
            res >= 1,
            r@ == homes(points@, res as int).subrange(0, i as int),
        decreases points@.len() - i,
    {
        let p = points[i];
        r.push((clamp_coord(p.0, res), clamp_coord(p.1, res)));
        assert(r@ =~= homes(points@, res as int).subrange(0, i + 1));
        i += 1;
    }
    assert(r@ =~= homes(points@, res as int));
    r
}

/// The empty grid with each seed written at its cell, seed `i` as owner
/// `i + 1`; a later seed on the same cell overwrites an earlier one.
pub fn seed_grid(seeds: &Vec<(usize, usize)>, res: usize) -> (r: Vec<usize>)
    requires
        res * res <= usize::MAX,
        seeds_in_grid(seeds@, res as int),
    ensures
        r@ == seeded(seeds@, res as int),
        r@.len() == res * res,
        owners_valid(r@, seeds@.len()),
{
    let n = res * res;
    let mut grid: Vec<usize> = Vec::new();
    while grid.len() < n
        invariant
            grid@.len() <= n,
            forall|j: int| 0 <= j < grid@.len() ==> grid@[j] == 0,
        decreases n - grid@.len(),
    {
        grid.push(0);
    }
    assert(grid@ =~= seeded_upto(seeds@, res as int, 0));
    let mut i: usize = 0;
    while i < seeds.len()
        invariant
            i <= seeds@.len(),
            res * res <= usize::MAX,
            seeds_in_grid(seeds@, res as int),
            grid@ == seeded_upto(seeds@, res as int, i as nat),
            grid@.len() == res * res,
            owners_valid(grid@, i as nat),
        decreases seeds@.len() - i,
    {
        let h = seeds[i];
        proof {
            lemma_cell_index(h.0 as int, h.1 as int, res as int);
        }
        grid.set(h.0 + h.1 * res, i + 1);
        i += 1;
    }
    grid
}

/// Jump flooding of the points (already scaled to the grid, see
/// [`home_cells`]) over a grid of resolution `res`: seeding, one pass at jump
/// 1, then passes at jumps `res / 2`, `res / 4`, ..., `1`.
pub fn jfa(points: &Vec<(usize, usize)>, res: usize) -> (r: Result<Vec<usize>, JfaError>)
    requires
        res * res <= usize::MAX,
    ensures
        r is Err <==> res == 0,
        r is Ok ==> r->Ok_0@ == jfa_grid(points@, res as int),
        r is Ok ==> r->Ok_0@.len() == res * res,
        r is Ok ==> owners_valid(r->Ok_0@, points@.len()),
{
    if res == 0 {
        return Err(JfaError::ZeroResolution);
    }
    let normal_points = home_cells(points, res);
    let mut pixel_grid = seed_grid(&normal_points, res);
    let ghost s = normal_points@;
    jfa_step(&mut pixel_grid, &normal_points, res, 1);
    let mut k: usize = res / 2;
    while k >= 1
        invariant
            res * res <= usize::MAX,
            seeds_in_grid(normal_points@, res as int),
            normal_points@ == homes(points@, res as int),
            s == normal_points@,
            pixel_grid@.len() == res * res,
            owners_valid(pixel_grid@, points@.len()),
            flood(pixel_grid@, s, res as int, k as nat) == jfa_grid(points@, res as int),
        decreases k,
    {
        let ghost before = pixel_grid@;
        jfa_step(&mut pixel_grid, &normal_points, res, k);
        assert(flood(before, s, res as int, k as nat) == flood(
            pixel_grid@,
            s,
            res as int,
            (k / 2) as nat,
        ));
        k = k / 2;
    }
    Ok(pixel_grid)
}

/// The sequential engine is deterministic: two runs on the same points and
/// resolution give the same grid, cell for cell.
pub proof fn lemma_jfa_deterministic(
    points1: Seq<(usize, usize)>,
    points2: Seq<(usize, usize)>,
    res: int,
)
    requires
        points1 == points2,
    ensures
        jfa_grid(points1, res) == jfa_grid(points2, res),
{
}

/// The jumps `k`, `k / 2`, ..., `1`.
pub open spec fn halvings(k: nat) -> Seq<usize>
    decreases k,
{
    if k == 0 {
        Seq::empty()
    } else {
        seq![k as usize] + halvings(k / 2)
    }
}

/// The jump of each pass of a run at resolution `res`, in order: the
/// refinement pass at 1, then `res / 2`, `res / 4`, ..., `1`. Both engines
/// follow it; a pass starts only once the previous one is complete.
pub fn jump_schedule(res: usize) -> (r: Vec<usize>)
    ensures
        r@ == seq![1usize] + halvings((res / 2) as nat),
{
    let mut r: Vec<usize> = Vec::new();
    r.push(1);
    let mut k: usize = res / 2;
    while k >= 1
        invariant
            r@ + halvings(k as nat) == seq![1usize] + halvings((res / 2) as nat),
        decreases k,
    {
        let ghost before = r@;
        r.push(k);
        assert(halvings(k as nat) == seq![k] + halvings((k / 2) as nat));
        assert(before + halvings(k as nat) =~= r@ + halvings((k / 2) as nat));
        k = k / 2;
    }
    assert(r@ + halvings(0) =~= r@);
    r
}

/// Passes at each jump of `steps`, in order.
pub open spec fn run_schedule(
    g: Seq<usize>,
    seeds: Seq<(usize, usize)>,
    res: int,
    steps: Seq<usize>,
) -> Seq<usize>
    decreases steps.len(),
{
    if steps.len() == 0 {
        g
    } else {
        run_schedule(pass(g, seeds, res, steps[0] as int), seeds, res, steps.drop_first())
    }
}

proof fn lemma_flood_is_schedule(g: Seq<usize>, seeds: Seq<(usize, usize)>, res: int, k: nat)
    requires
        k <= usize::MAX,
    ensures
        flood(g, seeds, res, k) == run_schedule(g, seeds, res, halvings(k)),
    decreases k,
{
    if k > 0 {
        let h = halvings(k);
        assert(h[0] == k as usize);
        assert(h.drop_first() =~= halvings(k / 2));
        lemma_flood_is_schedule(pass(g, seeds, res, k as int), seeds, res, k / 2);
    }
}

/// The finished grid is the seeded grid after one pass at each jump of
/// [`jump_schedule`], in order: the schedule that the parallel engine
/// follows too.
pub proof fn lemma_jfa_follows_schedule(points: Seq<(usize, usize)>, res: int)
    requires
        0 <= res <= usize::MAX,
    ensures
        jfa_grid(points, res) == run_schedule(
            seeded(homes(points, res), res),
            homes(points, res),
            res,
            seq![1usize] + halvings((res / 2) as nat),
        ),
{
    let s = homes(points, res);
    let g0 = seeded(s, res);
    let steps = seq![1usize] + halvings((res / 2) as nat);
    assert(steps[0] == 1);
    assert(steps.drop_first() =~= halvings((res / 2) as nat));
    lemma_flood_is_schedule(pass(g0, s, res, 1), s, res, (res / 2) as nat);
}

} // verus!
