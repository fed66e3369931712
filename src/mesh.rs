//! From a finished ownership grid to cell polygons: junction cells give
//! vertex keys (the sorted set of owners around them), and each owner's keys
//! are walked into one closed loop.
use vstd::arithmetic::div_mod::{lemma_mod_self_0, lemma_small_mod};
use vstd::prelude::*;

use crate::coverage::{lemma_cell_of, lemma_flood_grows, lemma_pass_grows};
use crate::jfa::{homes, jfa_grid, lemma_res_small, owners_valid, pass, seeded};

verus! {

pub open spec fn strictly_sorted(k: Seq<usize>) -> bool {
    forall|i: int, j: int| 0 <= i < j < k.len() ==> k[i] < k[j]
}

/// Horizontal offset of the `d`-th neighbour (`0 <= d < 8`), in the order
/// (-1,-1), (0,-1), (1,-1), (-1,0), (1,0), (-1,1), (0,1), (1,1).
pub open spec fn ring_dx(d: int) -> int {
    if d == 0 || d == 3 || d == 5 {
        -1
    } else if d == 1 || d == 6 {
        0
    } else {
        1
    }
}

pub open spec fn ring_dy(d: int) -> int {
    if d < 3 {
        -1
    } else if d < 5 {
        0
    } else {
        1
    }
}

/// Owner seen by cell `(x, y)` in its `d`-th neighbour during the boundary
/// scan. The boundary frame is row 0, column 0 and everything beyond the
/// grid: a neighbour there reads as the boundary owner `0`.
pub open spec fn ring_owner(grid: Seq<usize>, res: int, x: int, y: int, d: int) -> usize {
    let nx = x + ring_dx(d);
    let ny = y + ring_dy(d);
    if 0 < nx < res && 0 < ny < res {
        grid[nx + ny * res]
    } else {
        0
    }
}

pub open spec fn is_ring_owner(grid: Seq<usize>, res: int, x: int, y: int, v: usize) -> bool {
    exists|d: int| 0 <= d < 8 && #[trigger] ring_owner(grid, res, x, y, d) == v
}

/// `k` lists, in increasing order and once each, the owners around `(x, y)`.
pub open spec fn is_key_of(k: Seq<usize>, grid: Seq<usize>, res: int, x: int, y: int) -> bool {
    &&& strictly_sorted(k)
    &&& forall|v: usize| k.contains(v) <==> is_ring_owner(grid, res, x, y, v)
}

/// The vertex key of cell `(x, y)`: the sorted, duplicate-free owners of its
/// eight neighbours.
pub open spec fn vertex_key(grid: Seq<usize>, res: int, x: int, y: int) -> Seq<usize> {
    choose|k: Seq<usize>| is_key_of(k, grid, res, x, y)
}

/// Two strictly increasing sequences with the same elements are equal.
pub proof fn lemma_sorted_unique(a: Seq<usize>, b: Seq<usize>)
    requires
        strictly_sorted(a),
        strictly_sorted(b),
        forall|v: usize| a.contains(v) <==> b.contains(v),
    ensures
        a == b,
    decreases a.len(),
{
    if a.len() == 0 {
        if b.len() > 0 {
            assert(b.contains(b[0]));
        }
    } else {
        assert(a.contains(a[0]));
        assert(b.len() > 0);
        assert(b.contains(b[0]));
        let i = choose|i: int| 0 <= i < a.len() && a[i] == b[0];
        let j = choose|j: int| 0 <= j < b.len() && b[j] == a[0];
        if j > 0 {
            assert(b[0] < b[j]);
            assert(a[0] <= a[i]);
        }
        assert(a[0] == b[0]);
        let a1 = a.drop_first();
        let b1 = b.drop_first();
        assert forall|v: usize| a1.contains(v) <==> b1.contains(v) by {
            if a1.contains(v) {
                let p = choose|p: int| 0 <= p < a1.len() && a1[p] == v;
                assert(a.contains(v));
                let q = choose|q: int| 0 <= q < b.len() && b[q] == v;
                assert(a[0] < a[p + 1]);
                assert(q > 0);
                assert(b1[q - 1] == v);
            }
            if b1.contains(v) {
                let p = choose|p: int| 0 <= p < b1.len() && b1[p] == v;
                assert(b.contains(v));
                let q = choose|q: int| 0 <= q < a.len() && a[q] == v;
                assert(b[0] < b[p + 1]);
                assert(q > 0);
                assert(a1[q - 1] == v);
            }
        }
        lemma_sorted_unique(a1, b1);
        assert(a == seq![a[0]] + a1);
        assert(b == seq![b[0]] + b1);
    }
}

/// `after` holds the elements of `before` and `v`, and nothing else.
pub open spec fn adds(after: Seq<usize>, before: Seq<usize>, v: usize) -> bool {
    forall|w: usize| after.contains(w) <==> (before.contains(w) || w == v)
}

proof fn lemma_insert_contains(before: Seq<usize>, i: int, v: usize)
    requires
        0 <= i <= before.len(),
    ensures
        adds(before.insert(i, v), before, v),
{
    let after = before.insert(i, v);
    assert forall|w: usize| after.contains(w) <==> (before.contains(w) || w == v) by {
        if after.contains(w) {
            let p = choose|p: int| 0 <= p < after.len() && after[p] == w;
            if p < i {
                assert(before[p] == w);
            } else if p > i {
                assert(before[p - 1] == w);
            }
        }
        if before.contains(w) {
            let p = choose|p: int| 0 <= p < before.len() && before[p] == w;
            if p < i {
                assert(after[p] == w);
            } else {
                assert(after[p + 1] == w);
            }
        }
        if w == v {
            assert(after[i] == v);
        }
    }
}

/// Adds `v` to a strictly increasing vector, keeping it strictly increasing.
#[verifier::rlimit(30)]
fn insert_sorted(k: &mut Vec<usize>, v: usize)
    requires
        strictly_sorted(old(k)@),
    ensures
        strictly_sorted(final(k)@),
        adds(final(k)@, old(k)@, v),
{
    let mut i: usize = 0;
    while i < k.len() && k[i] < v
        invariant
            i <= k@.len(),
            k@ == old(k)@,
            strictly_sorted(k@),
            forall|p: int| 0 <= p < i ==> k@[p] < v,
        decreases k@.len() - i,
    {
        i += 1;
    }
    if i < k.len() && k[i] == v {
        assert(k@[i as int] == v);
        assert forall|w: usize| k@.contains(w) <==> (old(k)@.contains(w) || w == v) by {
            if w == v {
                assert(k@[i as int] == w);
            }
        }
        assert(adds(k@, old(k)@, v));
    } else {
        let ghost before = k@;
        proof {
            lemma_insert_contains(before, i as int, v);
        }
        k.insert(i, v);
        assert(k@ == before.insert(i as int, v));
    }
}

/// Owner seen by cell `(x, y)` in its `d`-th neighbour (see [`ring_owner`]).
fn ring_owner_at(grid: &Vec<usize>, res: usize, x: usize, y: usize, d: usize) -> (r: usize)
    requires
        grid@.len() == res * res,
        x < res,
        y < res,
        d < 8,
    ensures
        r == ring_owner(grid@, res as int, x as int, y as int, d as int),
{
    let n = grid.len();
    let nx: usize = if d == 0 || d == 3 || d == 5 {
        if x == 0 {
            0
        } else {
            x - 1
        }
    } else if d == 1 || d == 6 {
        x
    } else {
        x + 1
    };
    let ny: usize = if d < 3 {
        if y == 0 {
            0
        } else {
            y - 1
        }
    } else if d < 5 {
        y
    } else {
        y + 1
    };
    if 0 < nx && nx < res && 0 < ny && ny < res {
        assert(0 <= nx + ny * res < res * res) by (nonlinear_arith)
            requires
                0 <= nx < res,
                0 <= ny < res,
        ;
        grid[nx + ny * res]
    } else {
        0
    }
}

/// The vertex key of cell `(x, y)`.
fn cell_key(grid: &Vec<usize>, res: usize, x: usize, y: usize) -> (r: Vec<usize>)
    requires
        grid@.len() == res * res,
        x < res,
        y < res,
    ensures
        r@ == vertex_key(grid@, res as int, x as int, y as int),
        strictly_sorted(r@),
{
    let mut k: Vec<usize> = Vec::new();
    let mut d: usize = 0;
    while d < 8
        invariant
            d <= 8,
            grid@.len() == res * res,
            x < res,
            y < res,
            strictly_sorted(k@),
            forall|v: usize|
                k@.contains(v) <==> exists|e: int|
                    0 <= e < d && #[trigger] ring_owner(grid@, res as int, x as int, y as int, e)
                        == v,
        decreases 8 - d,
    {
        let v = ring_owner_at(grid, res, x, y, d);
        let ghost before = k@;
        insert_sorted(&mut k, v);
        assert(adds(k@, before, v));
        assert forall|w: usize|
            k@.contains(w) <==> exists|e: int|
                0 <= e < d + 1 && #[trigger] ring_owner(grid@, res as int, x as int, y as int, e)
                    == w by {
            if w == v {
                assert(ring_owner(grid@, res as int, x as int, y as int, d as int) == w);
            }
            if exists|e: int|
                0 <= e < d + 1 && #[trigger] ring_owner(grid@, res as int, x as int, y as int, e)
                    == w {
                let e = choose|e: int|
                    0 <= e < d + 1 && #[trigger] ring_owner(
                        grid@,
                        res as int,
                        x as int,
                        y as int,
                        e,
                    ) == w;
                if e < d {
                    assert(before.contains(w));
                }
            }
        }
        d += 1;
    }
    assert(is_key_of(k@, grid@, res as int, x as int, y as int));
    let ghost c = vertex_key(grid@, res as int, x as int, y as int);
    proof {
        lemma_sorted_unique(k@, c);
    }
    k
}

/// Number of elements of `a` that also occur in `b`.
pub open spec fn common_count(a: Seq<usize>, b: Seq<usize>) -> nat
    decreases a.len(),
{
    if a.len() == 0 {
        0
    } else {
        common_count(a.drop_last(), b) + if b.contains(a.last()) {
            1nat
        } else {
            0nat
        }
    }
}

/// Number of elements shared by two strictly increasing vectors, found by a
/// single merge walk.
pub fn count_common_elements(a: &Vec<usize>, b: &Vec<usize>) -> (r: usize)
    requires
        strictly_sorted(a@),
        strictly_sorted(b@),
    ensures
        r == common_count(a@, b@),
{
    let mut count: usize = 0;
    let mut i: usize = 0;
    let mut j: usize = 0;
    while i < a.len()
        invariant
            i <= a@.len(),
            j <= b@.len(),
            strictly_sorted(a@),
            strictly_sorted(b@),
            count <= i,
            count == common_count(a@.subrange(0, i as int), b@),
            forall|p: int, q: int| 0 <= p < i && j <= q < b@.len() ==> a@[p] < b@[q],
            forall|p: int, q: int| 0 <= q < j && i <= p < a@.len() ==> b@[q] < a@[p],
        decreases a@.len() - i + b@.len() - j,
    {
        assert(a@.subrange(0, i + 1).drop_last() =~= a@.subrange(0, i as int));
        if j < b.len() && a[i] == b[j] {
            assert(b@.contains(a@[i as int]));
            count += 1;
            i += 1;
            j += 1;
        } else if j == b.len() || a[i] < b[j] {
            assert(!b@.contains(a@[i as int])) by {
                if b@.contains(a@[i as int]) {
                    let q = choose|q: int| 0 <= q < b@.len() && b@[q] == a@[i as int];
                    if q < j {
                        assert(b@[q] < a@[i as int]);
                    } else {
                        assert(b@[j as int] <= b@[q]);
                    }
                }
            }
            i += 1;
        } else {
            j += 1;
        }
    }
    assert(a@.subrange(0, a@.len() as int) =~= a@);
    count
}

/// Every element of `sub` occurs in `sup`.
pub fn is_subset(sub: &Vec<usize>, sup: &Vec<usize>) -> (r: bool)
    ensures
        r == forall|i: int| 0 <= i < sub@.len() ==> sup@.contains(#[trigger] sub@[i]),
{
    let mut i: usize = 0;
    while i < sub.len()
        invariant
            i <= sub@.len(),
            forall|p: int| 0 <= p < i ==> sup@.contains(#[trigger] sub@[p]),
        decreases sub@.len() - i,
    {
        let mut found = false;
        let mut j: usize = 0;
        while j < sup.len()
            invariant
                j <= sup@.len(),
                i < sub@.len(),
                found == exists|q: int| 0 <= q < j && sup@[q] == sub@[i as int],
            decreases sup@.len() - j,
        {
            if sup[j] == sub[i] {
                found = true;
            }
            j += 1;
        }
        if !found {
            assert(!sup@.contains(sub@[i as int]));
            return false;
        }
        i += 1;
    }
    true
}

pub open spec fn has_key(entries: Seq<(Seq<usize>, (u32, u32))>, k: Seq<usize>) -> bool {
    exists|i: int| 0 <= i < entries.len() && #[trigger] entries[i].0 == k
}

pub open spec fn keys_unique(entries: Seq<(Seq<usize>, (u32, u32))>) -> bool {
    forall|i: int, j: int|
        0 <= i < entries.len() && 0 <= j < entries.len() && i != j ==> entries[i].0 != entries[j].0
}

/// The cell recorded for key `k`, if any.
pub open spec fn lookup(entries: Seq<(Seq<usize>, (u32, u32))>, k: Seq<usize>) -> Option<(u32, u32)> {
    if has_key(entries, k) {
        Some(entries[choose|i: int| 0 <= i < entries.len() && #[trigger] entries[i].0 == k].1)
    } else {
        None
    }
}

/// Vertex keys with the grid cell that first showed each, in order of
/// discovery; no key occurs twice.
pub struct VertexMap {
    entries: Vec<(Vec<usize>, (u32, u32))>,
}

impl View for VertexMap {
    type V = Seq<(Seq<usize>, (u32, u32))>;

    closed spec fn view(&self) -> Self::V {
        Seq::new(self.entries@.len(), |i: int| (self.entries@[i].0@, self.entries@[i].1))
    }
}

fn same_key(a: &Vec<usize>, b: &Vec<usize>) -> (r: bool)
    ensures
        r == (a@ == b@),
{
    if a.len() != b.len() {
        return false;
    }
    let mut i: usize = 0;
    while i < a.len()
        invariant
            a@.len() == b@.len(),
            i <= a@.len(),
            forall|p: int| 0 <= p < i ==> a@[p] == b@[p],
        decreases a@.len() - i,
    {
        if a[i] != b[i] {
            return false;
        }
        i += 1;
    }
    assert(a@ =~= b@);
    true
}

fn copy_key(a: &Vec<usize>) -> (r: Vec<usize>)
    ensures
        r@ == a@,
{
    let mut r: Vec<usize> = Vec::new();
    let mut i: usize = 0;
    while i < a.len()
        invariant
            i <= a@.len(),
            r@ == a@.subrange(0, i as int),
        decreases a@.len() - i,
    {
        r.push(a[i]);
        assert(r@ =~= a@.subrange(0, i + 1));
        i += 1;
    }
    assert(a@.subrange(0, a@.len() as int) =~= a@);
    r
}

/// The keys of a list, as sequences.
pub open spec fn keys_view(l: Seq<Vec<usize>>) -> Seq<Seq<usize>> {
    Seq::new(l.len(), |i: int| l[i]@)
}

fn contains_key(l: &Vec<Vec<usize>>, k: &Vec<usize>) -> (r: bool)
    ensures
        r == keys_view(l@).contains(k@),
{
    let mut i: usize = 0;
    while i < l.len()
        invariant
            i <= l@.len(),
            forall|p: int| 0 <= p < i ==> l@[p]@ != k@,
        decreases l@.len() - i,
    {
        if same_key(&l[i], k) {
            assert(keys_view(l@)[i as int] == k@);
            return true;
        }
        i += 1;
    }
    assert(!keys_view(l@).contains(k@)) by {
        if keys_view(l@).contains(k@) {
            let p = choose|p: int| 0 <= p < keys_view(l@).len() && keys_view(l@)[p] == k@;
            assert(l@[p]@ == k@);
        }
    }
    false
}

fn copy_keys(l: &Vec<Vec<usize>>) -> (r: Vec<Vec<usize>>)
    ensures
        keys_view(r@) == keys_view(l@),
{
    let mut r: Vec<Vec<usize>> = Vec::new();
    let mut i: usize = 0;
    while i < l.len()
        invariant
            i <= l@.len(),
            r@.len() == i,
            forall|j: int| 0 <= j < i ==> #[trigger] r@[j]@ == l@[j]@,
        decreases l@.len() - i,
    {
        let c = copy_key(&l[i]);
        r.push(c);
        i += 1;
    }
    assert(keys_view(r@) =~= keys_view(l@));
    r
}

impl VertexMap {
    pub closed spec fn wf(&self) -> bool {
        keys_unique(self@)
    }

    pub fn new() -> (r: VertexMap)
        ensures
            r@ == Seq::<(Seq<usize>, (u32, u32))>::empty(),
            r.wf(),
    {
        let r = VertexMap { entries: Vec::new() };
        assert(r@ =~= Seq::<(Seq<usize>, (u32, u32))>::empty());
        r
    }

    pub fn len(&self) -> (r: usize)
        ensures
            r == self@.len(),
    {
        self.entries.len()
    }

    fn find(&self, key: &Vec<usize>) -> (r: Option<usize>)
        ensures
            r is Some ==> r->Some_0 < self@.len() && self@[r->Some_0 as int].0 == key@,
            r is None ==> !has_key(self@, key@),
    {
        let mut i: usize = 0;
        while i < self.entries.len()
            invariant
                i <= self@.len(),
                forall|p: int| 0 <= p < i ==> self@[p].0 != key@,
            decreases self@.len() - i,
        {
            if same_key(&self.entries[i].0, key) {
                return Some(i);
            }
            i += 1;
        }
        None
    }

    /// The cell recorded for `key`, if any.
    pub fn get(&self, key: &Vec<usize>) -> (r: Option<(u32, u32)>)
        requires
            self.wf(),
        ensures
            r == lookup(self@, key@),
    {
        match self.find(key) {
            Some(i) => {
                let ghost c = choose|j: int| 0 <= j < self@.len() && #[trigger] self@[j].0 == key@;
                assert(c == i);
                Some(self.entries[i].1)
            },
            None => None,
        }
    }

    /// The key and cell of the `i`-th entry, in order of discovery.
    pub fn entry(&self, i: usize) -> (r: (Vec<usize>, (u32, u32)))
        requires
            i < self@.len(),
        ensures
            r.0@ == self@[i as int].0,
            r.1 == self@[i as int].1,
    {
        (copy_key(&self.entries[i].0), self.entries[i].1)
    }

    /// Records `pos` for `key` unless the key is already present.
    pub fn insert_first(&mut self, key: Vec<usize>, pos: (u32, u32))
        requires
            old(self).wf(),
        ensures
            final(self).wf(),
            has_key(old(self)@, key@) ==> final(self)@ == old(self)@,
            !has_key(old(self)@, key@) ==> final(self)@ == old(self)@.push((key@, pos)),
    {
        match self.find(&key) {
            Some(_) => {},
            None => {
                let ghost before = self@;
                let ghost kv = key@;
                self.entries.push((key, pos));
                assert(self@ =~= before.push((kv, pos)));
            },
        }
    }
}

/// Vertex map after the scan of the first `t` cells: each junction key
/// (three or more owners around the cell) not yet present is recorded with
/// that cell.
pub open spec fn map_scan(
    grid: Seq<usize>,
    res: int,
    vm: Seq<(Seq<usize>, (u32, u32))>,
    t: nat,
) -> Seq<(Seq<usize>, (u32, u32))>
    decreases t,
{
    if t == 0 {
        vm
    } else {
        let prev = map_scan(grid, res, vm, (t - 1) as nat);
        let c = t - 1;
        let k = vertex_key(grid, res, c % res, c / res);
        if k.len() >= 3 && !has_key(prev, k) {
            prev.push((k, ((c % res) as u32, (c / res) as u32)))
        } else {
            prev
        }
    }
}

/// Key collection of owner `o` after the scan of the first `t` cells: each
/// junction key of a cell owned by `o` is appended unless already listed.
pub open spec fn owner_scan(
    grid: Seq<usize>,
    res: int,
    o: usize,
    keys: Seq<Seq<usize>>,
    t: nat,
) -> Seq<Seq<usize>>
    decreases t,
{
    if t == 0 {
        keys
    } else {
        let prev = owner_scan(grid, res, o, keys, (t - 1) as nat);
        let c = t - 1;
        let k = vertex_key(grid, res, c % res, c / res);
        if grid[c] == o && k.len() >= 3 && !prev.contains(k) {
            prev.push(k)
        } else {
            prev
        }
    }
}

/// Pushing a key onto a list pushes its view onto the list's view.
proof fn lemma_keys_view_push(l: Seq<Vec<usize>>, k: Vec<usize>)
    ensures
        keys_view(l.push(k)) == keys_view(l).push(k@),
{
    assert(keys_view(l.push(k)) =~= keys_view(l).push(k@));
}

/// Scans the finished grid for junction cells, those whose eight
/// neighbours show three or more distinct owners (the boundary frame counting
/// as owner `0`, see [`ring_owner`]). Each junction key is recorded in
/// `vertex_map` with the first cell that showed it, and appended to the
/// collection of the cell's owner (owner `o` at index `o - 1`) unless that
/// collection already lists it.
pub fn extract_voronoi_cell_vertices(
    grid: &Vec<usize>,
    res: usize,
    color_vertices: &mut Vec<Vec<Vec<usize>>>,
    vertex_map: &mut VertexMap,
)
    requires
        grid@.len() == res * res,
        old(vertex_map).wf(),
    ensures
        final(vertex_map).wf(),
        final(vertex_map)@ == map_scan(grid@, res as int, old(vertex_map)@, (res * res) as nat),
        final(color_vertices)@.len() == old(color_vertices)@.len(),
        forall|o: int|
            0 <= o < old(color_vertices)@.len() ==> #[trigger] keys_view(final(color_vertices)@[o]@)
                == owner_scan(
                grid@,
                res as int,
                (o + 1) as usize,
                keys_view(old(color_vertices)@[o]@),
                (res * res) as nat,
            ),
        forall|o: int|
            0 <= o < old(color_vertices)@.len() && all_sorted(keys_view(old(color_vertices)@[o]@))
                ==> all_sorted(#[trigger] keys_view(final(color_vertices)@[o]@)),
{
    let n = grid.len();
    proof {
        lemma_res_small(res as int);
    }
    let ghost vm0 = vertex_map@;
    let ghost cv0 = color_vertices@;
    let mut cell_keys: Vec<Vec<usize>> = Vec::new();
    let mut t: usize = 0;
    while t < n
        invariant
            t <= n,
            n == res * res,
            grid@.len() == n,
            res <= 0xffff_ffff,
            cell_keys@.len() == t,
            forall|c: int|
                0 <= c < t ==> #[trigger] cell_keys@[c]@ == vertex_key(
                    grid@,
                    res as int,
                    c % (res as int),
                    c / (res as int),
                ),
            forall|c: int| 0 <= c < t ==> strictly_sorted(#[trigger] cell_keys@[c]@),
            vertex_map.wf(),
            vertex_map@ == map_scan(grid@, res as int, vm0, t as nat),
        decreases n - t,
    {
        assert(res > 0) by {
            if res == 0 {
                assert(res * res == 0);
            }
        }
        proof {
            lemma_cell_of(t as int, res as int);
        }
        let x = t % res;
        let y = t / res;
        let key = cell_key(grid, res, x, y);
        if key.len() >= 3 {
            let k2 = copy_key(&key);
            vertex_map.insert_first(k2, (x as u32, y as u32));
        }
        cell_keys.push(key);
        t += 1;
    }
    let m = color_vertices.len();
    let mut o: usize = 0;
    while o < m
        invariant
            o <= m,
            n == res * res,
            grid@.len() == n,
            m == cv0.len(),
            color_vertices@.len() == m,
            cell_keys@.len() == n,
            forall|c: int|
                0 <= c < n ==> #[trigger] cell_keys@[c]@ == vertex_key(
                    grid@,
                    res as int,
                    c % (res as int),
                    c / (res as int),
                ),
            forall|j: int|
                0 <= j < o ==> #[trigger] keys_view(color_vertices@[j]@) == owner_scan(
                    grid@,
                    res as int,
                    (j + 1) as usize,
                    keys_view(cv0[j]@),
                    n as nat,
                ),
            forall|c: int| 0 <= c < n ==> strictly_sorted(#[trigger] cell_keys@[c]@),
            forall|j: int|
                0 <= j < o && all_sorted(keys_view(cv0[j]@)) ==> all_sorted(
                    #[trigger] keys_view(color_vertices@[j]@),
                ),
            forall|j: int| o <= j < m ==> #[trigger] color_vertices@[j] == cv0[j],
        decreases m - o,
    {
        let mut list = copy_keys(&color_vertices[o]);
        let mut t: usize = 0;
        while t < n
            invariant
                t <= n,
                o < m,
                grid@.len() == n,
                m == cv0.len(),
                cell_keys@.len() == n,
                forall|c: int|
                    0 <= c < n ==> #[trigger] cell_keys@[c]@ == vertex_key(
                        grid@,
                        res as int,
                        c % (res as int),
                        c / (res as int),
                    ),
                keys_view(list@) == owner_scan(
                    grid@,
                    res as int,
                    (o + 1) as usize,
                    keys_view(cv0[o as int]@),
                    t as nat,
                ),
                forall|c: int| 0 <= c < n ==> strictly_sorted(#[trigger] cell_keys@[c]@),
                all_sorted(keys_view(cv0[o as int]@)) ==> all_sorted(keys_view(list@)),
            decreases n - t,
        {
            if grid[t] == o + 1 && cell_keys[t].len() >= 3 && !contains_key(&list, &cell_keys[t]) {
                let k = copy_key(&cell_keys[t]);
                proof {
                    lemma_keys_view_push(list@, k);
                }
                list.push(k);
            }
            t += 1;
        }
        color_vertices.set(o, list);
        o += 1;
    }
}

/// Every element of `a` occurs in `b`.
pub open spec fn subset_of(a: Seq<usize>, b: Seq<usize>) -> bool {
    forall|i: int| 0 <= i < a.len() ==> b.contains(#[trigger] a[i])
}

pub open spec fn strict_subset_of(a: Seq<usize>, b: Seq<usize>) -> bool {
    subset_of(a, b) && !subset_of(b, a)
}

/// Some key of `all` has `k` as a strict subset.
pub open spec fn dominated(all: Seq<Seq<usize>>, k: Seq<usize>) -> bool {
    exists|j: int| 0 <= j < all.len() && strict_subset_of(k, #[trigger] all[j])
}

/// The keys among the first `i` of `all` that are not dominated, in order.
pub open spec fn undominated_upto(all: Seq<Seq<usize>>, i: nat) -> Seq<Seq<usize>>
    decreases i,
{
    if i == 0 {
        Seq::empty()
    } else {
        let prev = undominated_upto(all, (i - 1) as nat);
        if dominated(all, all[i - 1]) {
            prev
        } else {
            prev.push(all[i - 1])
        }
    }
}

pub open spec fn undominated(all: Seq<Seq<usize>>) -> Seq<Seq<usize>> {
    undominated_upto(all, all.len())
}

/// Drops every key that is a strict subset of another key of the same
/// collection; the others keep their order.
pub fn remove_subsets(vertices: &mut Vec<Vec<usize>>)
    ensures
        keys_view(final(vertices)@) == undominated(keys_view(old(vertices)@)),
        all_sorted(keys_view(old(vertices)@)) ==> all_sorted(keys_view(final(vertices)@)),
{
    let ghost all = keys_view(vertices@);
    let mut kept: Vec<Vec<usize>> = Vec::new();
    let n = vertices.len();
    let mut i: usize = 0;
    while i < n
        invariant
            i <= n,
            n == vertices@.len(),
            all == keys_view(vertices@),
            keys_view(kept@) == undominated_upto(all, i as nat),
            all_sorted(all) ==> all_sorted(keys_view(kept@)),
        decreases n - i,
    {
        let mut dom = false;
        let mut j: usize = 0;
        while j < n
            invariant
                j <= n,
                i < n,
                n == vertices@.len(),
                all == keys_view(vertices@),
                dom == exists|q: int| 0 <= q < j && strict_subset_of(all[i as int], #[trigger] all[q]),
            decreases n - j,
        {
            if is_subset(&vertices[i], &vertices[j]) && !is_subset(&vertices[j], &vertices[i]) {
                assert(strict_subset_of(all[i as int], all[j as int]));
                dom = true;
            }
            j += 1;
        }
        if !dom {
            let k = copy_key(&vertices[i]);
            proof {
                lemma_keys_view_push(kept@, k);
            }
            kept.push(k);
        }
        i += 1;
    }
    *vertices = kept;
}

/// Turn of the path `prev -> cur -> next`: the cross product of the incoming
/// and outgoing edge vectors, positive for a counterclockwise turn.
pub open spec fn turn(prev: (u32, u32), cur: (u32, u32), next: (u32, u32)) -> int {
    (cur.0 - prev.0) * (next.1 - cur.1) - (cur.1 - prev.1) * (next.0 - cur.0)
}

fn turn_exec(prev: (u32, u32), cur: (u32, u32), next: (u32, u32)) -> (r: i128)
    ensures
        r == turn(prev, cur, next),
{
    let dx1 = cur.0 as i128 - prev.0 as i128;
    let dy1 = cur.1 as i128 - prev.1 as i128;
    let dx2 = next.0 as i128 - cur.0 as i128;
    let dy2 = next.1 as i128 - cur.1 as i128;
    assert(dx1 * dy2 <= 0x1_0000_0000 * 0x1_0000_0000) by (nonlinear_arith)
        requires
            -0x1_0000_0000 < dx1 < 0x1_0000_0000,
            -0x1_0000_0000 < dy2 < 0x1_0000_0000,
    ;
    assert(-0x1_0000_0000 * 0x1_0000_0000 <= dy1 * dx2 <= 0x1_0000_0000 * 0x1_0000_0000)
        by (nonlinear_arith)
        requires
            -0x1_0000_0000 < dy1 < 0x1_0000_0000,
            -0x1_0000_0000 < dx2 < 0x1_0000_0000,
    ;
    assert(-0x1_0000_0000 * 0x1_0000_0000 <= dx1 * dy2) by (nonlinear_arith)
        requires
            -0x1_0000_0000 < dx1 < 0x1_0000_0000,
            -0x1_0000_0000 < dy2 < 0x1_0000_0000,
    ;
    dx1 * dy2 - dy1 * dx2
}

/// The key whose cell comes before the current one on the path: the
/// next-to-last key of `sorted`, or, at the start of a walk, the second
/// candidate.
pub open spec fn prev_key(
    sorted: Seq<Seq<usize>>,
    vertices: Seq<Seq<usize>>,
    candidates: Seq<usize>,
) -> Seq<usize> {
    if sorted.len() > 1 {
        sorted[sorted.len() - 2]
    } else {
        vertices[candidates[1] as int]
    }
}

/// Every key that the choice of a turn reads has a recorded cell.
pub open spec fn turn_positions_known(
    current: Seq<usize>,
    candidates: Seq<usize>,
    vertices: Seq<Seq<usize>>,
    vm: Seq<(Seq<usize>, (u32, u32))>,
    sorted: Seq<Seq<usize>>,
) -> bool {
    &&& has_key(vm, current)
    &&& has_key(vm, prev_key(sorted, vertices, candidates))
    &&& forall|c: int|
        0 <= c < candidates.len() ==> has_key(vm, #[trigger] vertices[candidates[c] as int])
}

/// Turn taken toward candidate `c`.
pub open spec fn candidate_turn(
    current: Seq<usize>,
    candidates: Seq<usize>,
    vertices: Seq<Seq<usize>>,
    vm: Seq<(Seq<usize>, (u32, u32))>,
    sorted: Seq<Seq<usize>>,
    c: int,
) -> int {
    turn(
        lookup(vm, prev_key(sorted, vertices, candidates))->Some_0,
        lookup(vm, current)->Some_0,
        lookup(vm, vertices[candidates[c] as int])->Some_0,
    )
}

/// Among the candidate keys (indices into `vertices`), the one whose cell
/// makes the most counterclockwise turn after the path so far; of equal
/// turns the last candidate wins. `None` when a cell that the choice reads
/// is missing from the vertex map.
pub fn choose_next_vertex(
    current: &Vec<usize>,
    candidates: &Vec<usize>,
    vertices: &Vec<Vec<usize>>,
    vertex_map: &VertexMap,
    sorted: &Vec<Vec<usize>>,
) -> (r: Option<usize>)
    requires
        candidates@.len() >= 2,
        forall|c: int| 0 <= c < candidates@.len() ==> #[trigger] candidates@[c] < vertices@.len(),
        vertex_map.wf(),
    ensures
        r is None <==> !turn_positions_known(
            current@,
            candidates@,
            keys_view(vertices@),
            vertex_map@,
            keys_view(sorted@),
        ),
        r is Some ==> exists|b: int|
            0 <= b < candidates@.len() && candidates@[b] == r->Some_0 && (forall|c: int|
                0 <= c < candidates@.len() ==> candidate_turn(
                    current@,
                    candidates@,
                    keys_view(vertices@),
                    vertex_map@,
                    keys_view(sorted@),
                    c,
                ) <= candidate_turn(
                    current@,
                    candidates@,
                    keys_view(vertices@),
                    vertex_map@,
                    keys_view(sorted@),
                    b,
                )) && (forall|c: int|
                b < c < candidates@.len() ==> candidate_turn(
                    current@,
                    candidates@,
                    keys_view(vertices@),
                    vertex_map@,
                    keys_view(sorted@),
                    c,
                ) < candidate_turn(
                    current@,
                    candidates@,
                    keys_view(vertices@),
                    vertex_map@,
                    keys_view(sorted@),
                    b,
                )),
{
    let ghost vs = keys_view(vertices@);
    let ghost ss = keys_view(sorted@);
    let ghost cs = candidates@;
    let ghost vm = vertex_map@;
    let pos_current = match vertex_map.get(current) {
        Some(p) => p,
        None => return None,
    };
    let prev = if sorted.len() > 1 {
        &sorted[sorted.len() - 2]
    } else {
        &vertices[candidates[1]]
    };
    assert(prev@ == prev_key(ss, vs, cs));
    let pos_prev = match vertex_map.get(prev) {
        Some(p) => p,
        None => return None,
    };
    let mut best: usize = 0;
    let mut best_turn: i128 = 0;
    let mut i: usize = 0;
    while i < candidates.len()
        invariant
            i <= cs.len(),
            cs == candidates@,
            vs == keys_view(vertices@),
            ss == keys_view(sorted@),
            vm == vertex_map@,
            vertex_map.wf(),
            cs.len() >= 2,
            forall|c: int| 0 <= c < cs.len() ==> #[trigger] cs[c] < vertices@.len(),
            has_key(vm, current@),
            has_key(vm, prev_key(ss, vs, cs)),
            lookup(vm, current@) == Some(pos_current),
            lookup(vm, prev_key(ss, vs, cs)) == Some(pos_prev),
            forall|c: int| 0 <= c < i ==> has_key(vm, #[trigger] vs[cs[c] as int]),
            i > 0 ==> best < i,
            i > 0 ==> best_turn == candidate_turn(current@, cs, vs, vm, ss, best as int),
            forall|c: int|
                0 <= c < i ==> candidate_turn(current@, cs, vs, vm, ss, c) <= best_turn,
            forall|c: int|
                best < c < i ==> candidate_turn(current@, cs, vs, vm, ss, c) < best_turn,
        decreases cs.len() - i,
    {
        let v = &vertices[candidates[i]];
        let pos = match vertex_map.get(v) {
            Some(p) => p,
            None => {
                assert(!has_key(vm, vs[cs[i as int] as int]));
                return None;
            },
        };
        let t = turn_exec(pos_prev, pos_current, pos);
        if i == 0 || t >= best_turn {
            best = i;
            best_turn = t;
        }
        i += 1;
    }
    Some(candidates[best])
}

/// Why a collection of vertex keys could not be walked into a closed loop.
#[derive(Debug, Clone, Copy, PartialEq, Eq, Structural)]
pub enum OrderError {
    /// Keys remain, but none unused shares exactly two ids with the current one.
    Stuck,
    /// A key that the choice of direction reads has no recorded cell.
    MissingVertex,
    /// All keys were visited, but the last does not share exactly two ids
    /// with the first.
    Unclosed,
}

/// `ord` lists each index of `0..n` exactly once.
pub open spec fn is_permutation(ord: Seq<usize>, n: nat) -> bool {
    &&& ord.len() == n
    &&& forall|i: int| 0 <= i < ord.len() ==> #[trigger] ord[i] < n
    &&& forall|i: int, j: int| 0 <= i < j < ord.len() ==> ord[i] != ord[j]
}

/// Consecutive keys of the loop, the last and the first included, share
/// exactly two ids.
pub open spec fn is_closed_loop(p: Seq<Seq<usize>>) -> bool {
    forall|i: int| 0 <= i < p.len() ==> common_count(#[trigger] p[i], p[(i + 1) % (p.len() as int)]) == 2
}

pub open spec fn all_sorted(vs: Seq<Seq<usize>>) -> bool {
    forall|i: int| 0 <= i < vs.len() ==> strictly_sorted(#[trigger] vs[i])
}

/// Indices among the first `j` of `vs` that the walk may take next after the
/// last index of `ord`: unused, and sharing exactly two ids with that key.
pub open spec fn candidates_upto(vs: Seq<Seq<usize>>, ord: Seq<usize>, j: nat) -> Seq<usize>
    decreases j,
{
    if j == 0 {
        Seq::empty()
    } else {
        let prev = candidates_upto(vs, ord, (j - 1) as nat);
        let i = j - 1;
        if !ord.contains(i as usize) && common_count(vs[ord.last() as int], vs[i]) == 2 {
            prev.push(i as usize)
        } else {
            prev
        }
    }
}

/// The keys visited by the walk `ord`.
pub open spec fn walk_keys(vs: Seq<Seq<usize>>, ord: Seq<usize>) -> Seq<Seq<usize>> {
    Seq::new(ord.len(), |i: int| vs[ord[i] as int])
}

/// Candidate `b` makes the largest turn, and no later candidate makes as
/// large a one.
pub open spec fn is_best_turn(
    current: Seq<usize>,
    cs: Seq<usize>,
    vs: Seq<Seq<usize>>,
    vm: Seq<(Seq<usize>, (u32, u32))>,
    ss: Seq<Seq<usize>>,
    b: int,
) -> bool {
    &&& 0 <= b < cs.len()
    &&& forall|c: int|
        0 <= c < cs.len() ==> candidate_turn(current, cs, vs, vm, ss, c) <= candidate_turn(
            current,
            cs,
            vs,
            vm,
            ss,
            b,
        )
    &&& forall|c: int|
        b < c < cs.len() ==> candidate_turn(current, cs, vs, vm, ss, c) < candidate_turn(
            current,
            cs,
            vs,
            vm,
            ss,
            b,
        )
}

/// The next index of the walk `ord`, or why there is none.
pub open spec fn walk_step(
    vs: Seq<Seq<usize>>,
    vm: Seq<(Seq<usize>, (u32, u32))>,
    ord: Seq<usize>,
) -> Result<usize, OrderError> {
    let cs = candidates_upto(vs, ord, vs.len());
    let cur = vs[ord.last() as int];
    let ss = walk_keys(vs, ord);
    if cs.len() == 0 {
        Err(OrderError::Stuck)
    } else if cs.len() == 1 {
        Ok(cs[0])
    } else if !turn_positions_known(cur, cs, vs, vm, ss) {
        Err(OrderError::MissingVertex)
    } else {
        Ok(cs[choose|b: int| is_best_turn(cur, cs, vs, vm, ss, b)])
    }
}

/// The walk `ord` extended by `fuel` more steps.
pub open spec fn walk(
    vs: Seq<Seq<usize>>,
    vm: Seq<(Seq<usize>, (u32, u32))>,
    ord: Seq<usize>,
    fuel: nat,
) -> Result<Seq<usize>, OrderError>
    decreases fuel,
{
    if fuel == 0 {
        Ok(ord)
    } else {
        match walk_step(vs, vm, ord) {
            Err(e) => Err(e),
            Ok(i) => walk(vs, vm, ord.push(i), (fuel - 1) as nat),
        }
    }
}

/// The order in which the walk from the first key visits all keys, once it
/// closes back on the first key.
pub open spec fn walk_order(
    vs: Seq<Seq<usize>>,
    vm: Seq<(Seq<usize>, (u32, u32))>,
) -> Result<Seq<usize>, OrderError> {
    match walk(vs, vm, seq![0usize], (vs.len() - 1) as nat) {
        Err(e) => Err(e),
        Ok(ord) => if common_count(vs[ord.last() as int], vs[0]) == 2 {
            Ok(ord)
        } else {
            Err(OrderError::Unclosed)
        },
    }
}

proof fn lemma_best_turn_unique(
    current: Seq<usize>,
    cs: Seq<usize>,
    vs: Seq<Seq<usize>>,
    vm: Seq<(Seq<usize>, (u32, u32))>,
    ss: Seq<Seq<usize>>,
    b1: int,
    b2: int,
)
    requires
        is_best_turn(current, cs, vs, vm, ss, b1),
        is_best_turn(current, cs, vs, vm, ss, b2),
    ensures
        b1 == b2,
{
    let t1 = candidate_turn(current, cs, vs, vm, ss, b1);
    let t2 = candidate_turn(current, cs, vs, vm, ss, b2);
    assert(t1 <= t2 && t2 <= t1);
    if b1 < b2 {
        assert(t2 < t1);
    } else if b2 < b1 {
        assert(t1 < t2);
    }
}

/// Orders the keys of one cell into a closed loop: from the first key, each
/// step goes to the unused key that shares exactly two ids with the current
/// one; where several do, to the one of most counterclockwise turn (see
/// [`choose_next_vertex`]). On success the keys are replaced by the loop; on
/// failure they are left as they were.
pub fn sort_vertices_topologically(
    vertices: &mut Vec<Vec<usize>>,
    vertex_map: &VertexMap,
) -> (r: Result<(), OrderError>)
    requires
        old(vertices)@.len() >= 3,
        all_sorted(keys_view(old(vertices)@)),
        vertex_map.wf(),
    ensures
        r is Err ==> final(vertices)@ == old(vertices)@,
        r is Ok ==> exists|ord: Seq<usize>|
            #![trigger is_permutation(ord, old(vertices)@.len())]
            is_permutation(ord, old(vertices)@.len()) && ord[0] == 0 && forall|i: int|
                0 <= i < ord.len() ==> #[trigger] keys_view(final(vertices)@)[i] == keys_view(
                    old(vertices)@,
                )[ord[i] as int],
        r is Ok ==> is_closed_loop(keys_view(final(vertices)@)),
        match walk_order(keys_view(old(vertices)@), vertex_map@) {
            Ok(ord) => r is Ok && keys_view(final(vertices)@) == walk_keys(
                keys_view(old(vertices)@),
                ord,
            ),
            Err(e) => r == Err::<(), OrderError>(e),
        },
{
    let ghost vs = keys_view(vertices@);
    let n = vertices.len();
    let mut ord: Vec<usize> = Vec::new();
    let mut used: Vec<bool> = Vec::new();
    while used.len() < n
        invariant
            used@.len() <= n,
            forall|i: int| 0 <= i < used@.len() ==> !used@[i],
        decreases n - used@.len(),
    {
        used.push(false);
    }
    let mut sorted: Vec<Vec<usize>> = Vec::new();
    ord.push(0);
    used.set(0, true);
    let first = copy_key(&vertices[0]);
    sorted.push(first);
    assert(keys_view(sorted@)[0] == vs[0]);
    assert forall|i: int| 0 <= i < n implies (used@[i] <==> ord@.contains(i as usize)) by {
        if i == 0 {
            assert(ord@[0] == 0);
        }
    }
    while ord.len() < n
        invariant
            n == vertices@.len(),
            n >= 3,
            vs == keys_view(vertices@),
            all_sorted(vs),
            vertex_map.wf(),
            1 <= ord@.len() <= n,
            ord@[0] == 0,
            used@.len() == n,
            forall|i: int| 0 <= i < ord@.len() ==> #[trigger] ord@[i] < n,
            forall|i: int, j: int| 0 <= i < j < ord@.len() ==> ord@[i] != ord@[j],
            forall|i: int| 0 <= i < n ==> (used@[i] <==> ord@.contains(i as usize)),
            sorted@.len() == ord@.len(),
            forall|i: int|
                0 <= i < ord@.len() ==> #[trigger] keys_view(sorted@)[i] == vs[ord@[i] as int],
            forall|i: int|
                0 <= i < ord@.len() - 1 ==> common_count(
                    #[trigger] vs[ord@[i] as int],
                    vs[ord@[i + 1] as int],
                ) == 2,
            walk(vs, vertex_map@, ord@, (n - ord@.len()) as nat) == walk(
                vs,
                vertex_map@,
                seq![0usize],
                (n - 1) as nat,
            ),
        decreases n - ord@.len(),
    {
        let cur = ord[ord.len() - 1];
        assert(keys_view(sorted@) =~= walk_keys(vs, ord@));
        let mut candidates: Vec<usize> = Vec::new();
        let mut i: usize = 0;
        while i < n
            invariant
                i <= n,
                n == vertices@.len(),
                vs == keys_view(vertices@),
                all_sorted(vs),
                cur < n,
                cur == ord@.last(),
                used@.len() == n,
                forall|q: int| 0 <= q < n ==> (used@[q] <==> ord@.contains(q as usize)),
                candidates@ == candidates_upto(vs, ord@, i as nat),
                forall|c: int|
                    0 <= c < candidates@.len() ==> #[trigger] candidates@[c] < i && !used@[
                        candidates@[c] as int
                    ] && common_count(vs[cur as int], vs[candidates@[c] as int]) == 2,
            decreases n - i,
        {
            assert(vertices@[cur as int]@ == vs[cur as int]);
            assert(vertices@[i as int]@ == vs[i as int]);
            if !used[i] && count_common_elements(&vertices[cur], &vertices[i]) == 2 {
                candidates.push(i);
            }
            i += 1;
        }
        let next: usize;
        assert(walk(vs, vertex_map@, ord@, (n - ord@.len()) as nat) == match walk_step(
            vs,
            vertex_map@,
            ord@,
        ) {
            Err(e) => Err(e),
            Ok(i) => walk(vs, vertex_map@, ord@.push(i), (n - ord@.len() - 1) as nat),
        });
        if candidates.len() == 0 {
            return Err(OrderError::Stuck);
        } else if candidates.len() == 1 {
            next = candidates[0];
        } else {
            match choose_next_vertex(&vertices[cur], &candidates, vertices, vertex_map, &sorted) {
                None => {
                    return Err(OrderError::MissingVertex);
                },
                Some(c) => {
                    proof {
                        let cs = candidates@;
                        let ss = keys_view(sorted@);
                        let cur_key = vs[cur as int];
                        let b = choose|b: int|
                            0 <= b < cs.len() && cs[b] == c && (forall|q: int|
                                0 <= q < cs.len() ==> candidate_turn(cur_key, cs, vs, vertex_map@, ss, q)
                                    <= candidate_turn(cur_key, cs, vs, vertex_map@, ss, b)) && (forall|q: int|
                                b < q < cs.len() ==> candidate_turn(cur_key, cs, vs, vertex_map@, ss, q)
                                    < candidate_turn(cur_key, cs, vs, vertex_map@, ss, b));
                        assert(is_best_turn(cur_key, cs, vs, vertex_map@, ss, b));
                        let b2 = choose|b2: int| is_best_turn(cur_key, cs, vs, vertex_map@, ss, b2);
                        lemma_best_turn_unique(cur_key, cs, vs, vertex_map@, ss, b, b2);
                    }
                    next = c;
                },
            }
        }
        assert(!used@[next as int] && common_count(vs[cur as int], vs[next as int]) == 2);
        let ghost before = ord@;
        ord.push(next);
        used.set(next, true);
        let k = copy_key(&vertices[next]);
        proof {
            lemma_keys_view_push(sorted@, k);
        }
        sorted.push(k);
        assert forall|i: int| 0 <= i < n implies (used@[i] <==> ord@.contains(i as usize)) by {
            if ord@.contains(i as usize) && i != next {
                let p = choose|p: int| 0 <= p < ord@.len() && ord@[p] == i as usize;
                assert(before[p] == i as usize);
            }
            if i == next {
                assert(ord@[ord@.len() - 1] == next);
            } else if before.contains(i as usize) {
                let p = choose|p: int| 0 <= p < before.len() && before[p] == i as usize;
                assert(ord@[p] == i as usize);
            }
        }
        assert forall|i: int, j: int| 0 <= i < j < ord@.len() implies ord@[i] != ord@[j] by {
            if j == ord@.len() - 1 {
                assert(used@[before[i] as int] || !before.contains(before[i]));
            }
        }
    }
    assert(keys_view(sorted@)[n - 1] == vs[ord@[n - 1] as int]);
    assert(keys_view(sorted@)[0] == vs[ord@[0] as int]);
    assert(sorted@[n - 1]@ == keys_view(sorted@)[n - 1]);
    assert(sorted@[0]@ == keys_view(sorted@)[0]);
    assert(walk(vs, vertex_map@, ord@, 0) == Ok::<Seq<usize>, OrderError>(ord@));
    if count_common_elements(&sorted[n - 1], &sorted[0]) != 2 {
        return Err(OrderError::Unclosed);
    }
    let ghost p = keys_view(sorted@);
    assert forall|i: int| 0 <= i < p.len() implies common_count(
        #[trigger] p[i],
        p[(i + 1) % (p.len() as int)],
    ) == 2 by {
        if i < p.len() - 1 {
            lemma_small_mod((i + 1) as nat, p.len());
        } else {
            lemma_mod_self_0(p.len() as int);
        }
    }
    assert(is_permutation(ord@, n as nat));
    *vertices = sorted;
    Ok(())
}

/// The loop of one owner whose junction keys are `keys`: none when fewer
/// than three keys remain after subset removal, else the walk's loop.
pub open spec fn polygon_of(
    keys: Seq<Seq<usize>>,
    vm: Seq<(Seq<usize>, (u32, u32))>,
) -> Result<Seq<Seq<usize>>, OrderError> {
    let u = undominated(keys);
    if keys.len() < 3 || u.len() < 3 {
        Ok(Seq::empty())
    } else {
        match walk_order(u, vm) {
            Ok(ord) => Ok(walk_keys(u, ord)),
            Err(e) => Err(e),
        }
    }
}

/// Junction keys that the scan of a finished grid lists for owner `o`.
pub open spec fn owner_keys(grid: Seq<usize>, res: int, o: usize) -> Seq<Seq<usize>> {
    owner_scan(grid, res, o, Seq::empty(), (res * res) as nat)
}

/// Vertex map that the scan of a finished grid builds.
pub open spec fn grid_vertex_map(grid: Seq<usize>, res: int) -> Seq<(Seq<usize>, (u32, u32))> {
    map_scan(grid, res, Seq::empty(), (res * res) as nat)
}

fn owner_polygon(keys: &Vec<Vec<usize>>, vertex_map: &VertexMap) -> (r: Result<
    Vec<Vec<usize>>,
    OrderError,
>)
    requires
        all_sorted(keys_view(keys@)),
        vertex_map.wf(),
    ensures
        match polygon_of(keys_view(keys@), vertex_map@) {
            Ok(p) => r is Ok && keys_view(r->Ok_0@) == p,
            Err(e) => r == Err::<Vec<Vec<usize>>, OrderError>(e),
        },
{
    let ghost ks = keys_view(keys@);
    let mut work = copy_keys(keys);
    if work.len() >= 3 {
        remove_subsets(&mut work);
        if work.len() >= 3 {
            match sort_vertices_topologically(&mut work, vertex_map) {
                Err(e) => {
                    return Err(e);
                },
                Ok(()) => {},
            }
            return Ok(work);
        }
    }
    let empty: Vec<Vec<usize>> = Vec::new();
    assert(keys_view(empty@) =~= Seq::<Seq<usize>>::empty());
    Ok(empty)
}

/// The cell loops of a finished grid owned by `num_colors` seeds, polygon
/// `o - 1` for owner `o` (empty where the owner has too few junctions), with
/// the vertex map that places their keys. The first owner whose keys cannot
/// be walked into a closed loop stops the work with that error.
#[verifier::rlimit(60)]
pub fn generate_mesh(pixels: &Vec<usize>, res: usize, num_colors: usize) -> (r: Result<
    (Vec<Vec<Vec<usize>>>, VertexMap),
    OrderError,
>)
    requires
        pixels@.len() == res * res,
    ensures
        match r {
            Ok((polygons, vm)) => {
                &&& vm.wf()
                &&& vm@ == grid_vertex_map(pixels@, res as int)
                &&& polygons@.len() == num_colors
                &&& forall|o: int|
                    0 <= o < num_colors ==> polygon_of(
                        owner_keys(pixels@, res as int, (o + 1) as usize),
                        vm@,
                    ) == Ok::<Seq<Seq<usize>>, OrderError>(keys_view(#[trigger] polygons@[o]@))
            },
            Err(e) => exists|o: int|
                0 <= o < num_colors && polygon_of(
                    #[trigger] owner_keys(pixels@, res as int, (o + 1) as usize),
                    grid_vertex_map(pixels@, res as int),
                ) == Err::<Seq<Seq<usize>>, OrderError>(e) && forall|q: int|
                    0 <= q < o ==> polygon_of(
                        #[trigger] owner_keys(pixels@, res as int, (q + 1) as usize),
                        grid_vertex_map(pixels@, res as int),
                    ) is Ok,
        },
{
    let mut color_vertices: Vec<Vec<Vec<usize>>> = Vec::new();
    while color_vertices.len() < num_colors
        invariant
            color_vertices@.len() <= num_colors,
            forall|o: int| 0 <= o < color_vertices@.len() ==> #[trigger] color_vertices@[o]@.len() == 0,
        decreases num_colors - color_vertices@.len(),
    {
        color_vertices.push(Vec::new());
    }
    let ghost cv0 = color_vertices@;
    assert forall|o: int| 0 <= o < num_colors implies #[trigger] keys_view(cv0[o]@) == Seq::<
        Seq<usize>,
    >::empty() by {
        assert(keys_view(cv0[o]@) =~= Seq::<Seq<usize>>::empty());
    }
    let mut vertex_map = VertexMap::new();
    extract_voronoi_cell_vertices(pixels, res, &mut color_vertices, &mut vertex_map);
    let ghost vm = vertex_map@;
    let mut polygons: Vec<Vec<Vec<usize>>> = Vec::new();
    let mut o: usize = 0;
    while o < num_colors
        invariant
            o <= num_colors,
            color_vertices@.len() == num_colors,
            vertex_map.wf(),
            vertex_map@ == vm,
            vm == grid_vertex_map(pixels@, res as int),
            forall|q: int|
                0 <= q < num_colors ==> #[trigger] keys_view(color_vertices@[q]@) == owner_keys(
                    pixels@,
                    res as int,
                    (q + 1) as usize,
                ),
            forall|q: int|
                0 <= q < num_colors ==> all_sorted(#[trigger] keys_view(color_vertices@[q]@)),
            polygons@.len() == o,
            forall|q: int|
                0 <= q < o ==> polygon_of(
                    owner_keys(pixels@, res as int, (q + 1) as usize),
                    vm,
                ) == Ok::<Seq<Seq<usize>>, OrderError>(keys_view(#[trigger] polygons@[q]@)),
        decreases num_colors - o,
    {
        let ghost ks = keys_view(color_vertices@[o as int]@);
        assert(ks == owner_keys(pixels@, res as int, (o + 1) as usize));
        let polygon = match owner_polygon(&color_vertices[o], &vertex_map) {
            Err(e) => {
                assert(polygon_of(ks, vm) == Err::<Seq<Seq<usize>>, OrderError>(e));
                assert forall|q: int| 0 <= q < o implies polygon_of(
                    #[trigger] owner_keys(pixels@, res as int, (q + 1) as usize),
                    grid_vertex_map(pixels@, res as int),
                ) is Ok by {
                    assert(polygon_of(
                        owner_keys(pixels@, res as int, (q + 1) as usize),
                        vm,
                    ) == Ok::<Seq<Seq<usize>>, OrderError>(keys_view(polygons@[q]@)));
                }
                return Err(e);
            },
            Ok(p) => p,
        };
        polygons.push(polygon);
        o += 1;
    }
    Ok((polygons, vertex_map))
}

proof fn lemma_unowned_key(grid: Seq<usize>, res: int, x: int, y: int)
    requires
        grid.len() == res * res,
        forall|i: int| 0 <= i < grid.len() ==> grid[i] == 0,
    ensures
        vertex_key(grid, res, x, y) == seq![0usize],
{
    let z = seq![0usize];
    assert forall|d: int| 0 <= d < 8 implies #[trigger] ring_owner(grid, res, x, y, d) == 0 by {
        let nx = x + ring_dx(d);
        let ny = y + ring_dy(d);
        if 0 < nx < res && 0 < ny < res {
            assert(0 <= nx + ny * res < res * res) by (nonlinear_arith)
                requires
                    0 < nx < res,
                    0 < ny < res,
            ;
        }
    }
    assert forall|v: usize| z.contains(v) <==> is_ring_owner(grid, res, x, y, v) by {
        if v == 0 {
            assert(z[0] == v);
            assert(ring_owner(grid, res, x, y, 0) == 0);
        }
    }
    assert(is_key_of(z, grid, res, x, y));
    let k = vertex_key(grid, res, x, y);
    assert(is_key_of(k, grid, res, x, y));
    lemma_sorted_unique(k, z);
}

proof fn lemma_unowned_scans(grid: Seq<usize>, res: int, o: usize, t: nat)
    requires
        res >= 1,
        t <= res * res,
        grid.len() == res * res,
        forall|i: int| 0 <= i < grid.len() ==> grid[i] == 0,
    ensures
        map_scan(grid, res, Seq::empty(), t) == Seq::<(Seq<usize>, (u32, u32))>::empty(),
        owner_scan(grid, res, o, Seq::empty(), t) == Seq::<Seq<usize>>::empty(),
    decreases t,
{
    if t > 0 {
        lemma_unowned_scans(grid, res, o, (t - 1) as nat);
        let c = t - 1;
        lemma_unowned_key(grid, res, c % res, c / res);
    }
}

/// Without seeds the finished grid is all unowned, the boundary scan finds
/// no junction and gives no owner any key, so no polygon is walked.
pub proof fn lemma_no_seeds_no_vertices(res: int, o: usize)
    requires
        res >= 1,
    ensures
        forall|i: int|
            0 <= i < res * res ==> #[trigger] jfa_grid(Seq::empty(), res)[i] == 0,
        grid_vertex_map(jfa_grid(Seq::empty(), res), res) == Seq::<
            (Seq<usize>, (u32, u32)),
        >::empty(),
        owner_keys(jfa_grid(Seq::empty(), res), res, o) == Seq::<Seq<usize>>::empty(),
        polygon_of(
            owner_keys(jfa_grid(Seq::empty(), res), res, o),
            grid_vertex_map(jfa_grid(Seq::empty(), res), res),
        ) == Ok::<Seq<Seq<usize>>, OrderError>(Seq::empty()),
{
    let s = homes(Seq::<(usize, usize)>::empty(), res);
    assert(s =~= Seq::<(usize, usize)>::empty());
    let g0 = seeded(s, res);
    assert(res * res >= 1) by (nonlinear_arith)
        requires
            res >= 1,
    ;
    lemma_pass_grows(g0, s, res, 1);
    let g1 = pass(g0, s, res, 1);
    lemma_flood_grows(g1, s, res, (res / 2) as nat);
    let g = jfa_grid(Seq::empty(), res);
    assert(owners_valid(g, 0));
    lemma_unowned_scans(g, res, o, (res * res) as nat);
}

} // verus!
