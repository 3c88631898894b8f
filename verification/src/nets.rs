//! Surface nets over a cleaned lattice: a vertex for each loop of crossings in a cell, and a
//! quad about each lattice edge the surface crosses, joining the vertices of the four cells
//! around it.
//!
//! Here is the mesh's shape, as vertex numbers; where each vertex sits is the caller's to work
//! out from the samples' distances.

use vstd::prelude::*;
use std::collections::HashMap;
use crate::grid::{
    across, alternates, block_of, sample_lt, boundary, boundary_outside, corner, has_square, in_block, in_grid,
    inside_at, lin, marked, next_to, pt, settled, shift, touches, Point, SignGrid, BLOCK,
};
use crate::surface_nets::{
    clean_cell, crosses, crossings_on, edge_ends, face_edge, faces_of, labels_loops, lemma_mate_pub, mate, on_face,
    reach, law_a_cell_is_labelled_one_way, NO_LOOP,
};

verus! {

/// Corner `k` of the cell based at `base`: `k`'s bits are its offsets along `x`, `y` and `z`.
pub open spec fn cell_corner(base: Point, k: int) -> Point {
    (base.0 + k % 2, base.1 + (k / 2) % 2, base.2 + k / 4)
}

/// A cell based at `c` lies in the lattice.
pub open spec fn is_base(n: [usize; 3], c: Point) -> bool {
    0 <= c.0 && c.0 + 1 < n[0] && 0 <= c.1 && c.1 + 1 < n[1] && 0 <= c.2 && c.2 + 1 < n[2]
}

/// `signs` are the insides of the corners of the cell at `base`.
pub open spec fn signs_of(n: [usize; 3], keys: Seq<i32>, base: Point, signs: [bool; 8]) -> bool {
    forall|k: int| 0 <= k < 8 ==> #[trigger] signs[k] == inside_at(n, keys, cell_corner(base, k))
}

/// The cell at `base` has corners on both sides of the surface.
pub open spec fn mixed(n: [usize; 3], keys: Seq<i32>, base: Point) -> bool {
    exists|j: int, k: int| 0 <= j < 8 && 0 <= k < 8
        && inside_at(n, keys, #[trigger] cell_corner(base, j)) && !inside_at(n, keys, #[trigger] cell_corner(base, k))
}

/// The lattice edge from `c` one sample along `axis` crosses the surface.
pub open spec fn edge_crosses(n: [usize; 3], keys: Seq<i32>, c: Point, axis: int) -> bool {
    &&& in_grid(n, c)
    &&& in_grid(n, shift(c, axis, 1))
    &&& inside_at(n, keys, c) != inside_at(n, keys, shift(c, axis, 1))
}

/// No square of the lattice alternates, once it has been cleaned.
pub open spec fn all_settled(n: [usize; 3], keys: Seq<i32>) -> bool {
    forall|axis: int, b: [usize; 3]| 0 <= axis < 3 && in_grid(n, pt(b)) ==> #[trigger] settled(n, keys, axis, pt(b))
}

/// Every lattice edge the surface crosses has an end in a near block.
pub open spec fn crossings_near(n: [usize; 3], keys: Seq<i32>, near: Seq<[usize; 3]>) -> bool {
    forall|c: [usize; 3], axis: int| 0 <= axis < 3 && #[trigger] edge_crosses(n, keys, pt(c), axis) ==> {
        ||| near.contains(block_of(c))
        ||| exists|d: [usize; 3]| pt(d) == shift(pt(c), axis, 1) && near.contains(block_of(d))
    }
}

/// The cell around lattice edge (`c`, `axis`) at offsets `du`, `dv` back across it.
pub open spec fn around_edge(c: Point, axis: int, du: int, dv: int) -> Point {
    shift(shift(c, across(axis).0, -du), across(axis).1, -dv)
}

/// That cell's number for the edge.
pub open spec fn edge_in_cell(axis: int, du: int, dv: int) -> int {
    4 * axis + du + 2 * dv
}

/// Edge `4 axis + du + 2 dv` of the cell at `around_edge(c, axis, du, dv)` is the lattice edge
/// from `c` along `axis`.
proof fn lemma_edge_in_cell(c: Point, axis: int, du: int, dv: int)
    requires
        0 <= axis < 3,
        0 <= du < 2,
        0 <= dv < 2,
    ensures
        cell_corner(around_edge(c, axis, du, dv), edge_ends(edge_in_cell(axis, du, dv)).0) == c,
        cell_corner(around_edge(c, axis, du, dv), edge_ends(edge_in_cell(axis, du, dv)).1) == shift(c, axis, 1),
{
}

/// Face `f` of the cell at `base` is a lattice square: its four edges all cross exactly when
/// that square alternates.
pub open spec fn face_square(base: Point, f: int) -> (int, Point) {
    if f == 0 { (0, base) } else if f == 1 { (0, shift(base, 0, 1)) }
    else if f == 2 { (1, base) } else if f == 3 { (1, shift(base, 1, 1)) }
    else if f == 4 { (2, base) } else { (2, shift(base, 2, 1)) }
}

proof fn lemma_face_square(n: [usize; 3], keys: Seq<i32>, base: Point, signs: [bool; 8], f: int)
    requires
        0 <= f < 6,
        signs_of(n, keys, base, signs),
        crossings_on(signs, f) == 4,
    ensures
        alternates(n, keys, face_square(base, f).0, face_square(base, f).1),
{
    let (axis, b) = face_square(base, f);
    assert(signs[0] == inside_at(n, keys, cell_corner(base, 0)));
    assert(signs[1] == inside_at(n, keys, cell_corner(base, 1)));
    assert(signs[2] == inside_at(n, keys, cell_corner(base, 2)));
    assert(signs[3] == inside_at(n, keys, cell_corner(base, 3)));
    assert(signs[4] == inside_at(n, keys, cell_corner(base, 4)));
    assert(signs[5] == inside_at(n, keys, cell_corner(base, 5)));
    assert(signs[6] == inside_at(n, keys, cell_corner(base, 6)));
    assert(signs[7] == inside_at(n, keys, cell_corner(base, 7)));
}


/// The lattice point `c`, as an index.
pub open spec fn at(c: Point) -> [usize; 3] {
    [c.0 as usize, c.1 as usize, c.2 as usize]
}

/// Every cell of a settled lattice whose outermost layer is outside is clean.
proof fn lemma_cell_clean(n: [usize; 3], keys: Seq<i32>, base: Point, signs: [bool; 8])
    requires
        is_base(n, base),
        keys.len() == n[0] * n[1] * n[2],
        boundary_outside(n, keys),
        all_settled(n, keys),
        signs_of(n, keys, base, signs),
    ensures
        clean_cell(signs),
{
    assert forall|f: int| 0 <= f < 6 implies #[trigger] crossings_on(signs, f) != 4 by {
        if crossings_on(signs, f) == 4 {
            lemma_face_square(n, keys, base, signs, f);
            let (axis, b) = face_square(base, f);
            let bb = at(b);
            assert(pt(bb) == b);
            assert(in_grid(n, pt(bb)));
            assert(settled(n, keys, axis, pt(bb)));
            crate::grid::law_settled_squares_do_not_alternate(n, keys, axis, bb);
            assert(has_square(n, axis, b));
        }
    }
}

/// The four cells around a lattice edge that crosses are cells of the lattice, each with
/// corners on both sides, and each in a block extraction looks in.
proof fn lemma_around_crossing(n: [usize; 3], keys: Seq<i32>, near: Seq<[usize; 3]>, c: [usize; 3], axis: int, du: int, dv: int)
    requires
        0 <= axis < 3,
        0 <= du < 2,
        0 <= dv < 2,
        keys.len() == n[0] * n[1] * n[2],
        boundary_outside(n, keys),
        crossings_near(n, keys, near),
        forall|k: int| 0 <= k < near.len() ==> #[trigger] SignGrid::block_in(n, near[k]),
        edge_crosses(n, keys, pt(c), axis),
    ensures
        is_base(n, around_edge(pt(c), axis, du, dv)),
        mixed(n, keys, around_edge(pt(c), axis, du, dv)),
        marked(n, near, block_of(at(around_edge(pt(c), axis, du, dv)))),
        pt(at(around_edge(pt(c), axis, du, dv))) == around_edge(pt(c), axis, du, dv),
{
    let e = shift(pt(c), axis, 1);
    let cell = around_edge(pt(c), axis, du, dv);
    // The inside end is off the boundary.
    let ins = if inside_at(n, keys, pt(c)) { pt(c) } else { e };
    assert(inside_at(n, keys, ins));
    assert(!boundary(n, ins)) by {
        let bi = at(ins);
        assert(pt(bi) == ins);
        if boundary(n, ins) {
            assert(keys[lin(n, pt(bi))] > 0);
        }
    }
    assert(is_base(n, cell));
    lemma_edge_in_cell(pt(c), axis, du, dv);
    let (a, b) = edge_ends(edge_in_cell(axis, du, dv));
    assert(0 <= a < 8 && 0 <= b < 8);
    if inside_at(n, keys, pt(c)) {
        assert(inside_at(n, keys, cell_corner(cell, a)) && !inside_at(n, keys, cell_corner(cell, b)));
    } else {
        assert(inside_at(n, keys, cell_corner(cell, b)) && !inside_at(n, keys, cell_corner(cell, a)));
    }
    // A near block is next to the cell's block.
    let m: [usize; 3] = if near.contains(block_of(c)) {
        block_of(c)
    } else {
        let d = choose|d: [usize; 3]| pt(d) == shift(pt(c), axis, 1) && near.contains(block_of(d));
        block_of(d)
    };
    assert(near.contains(m));
    let j = choose|j: int| 0 <= j < near.len() && near[j] == m;
    let cb = at(cell);
    assert forall|q: int| 0 <= q < 3 implies #[trigger] cb[q] / 8 <= m[q] + 1 && m[q] <= cb[q] / 8 + 1 by {
        // Each coordinate of the cell is within one of the end whose block is near.
        lemma_div_close(cb[q] as int, if near.contains(block_of(c)) { c[q] as int } else { c[q] as int + if q == axis { 1int } else { 0int } });
    }
    assert(next_to(block_of(cb), near[j]));
    assert(SignGrid::block_in(n, block_of(cb))) by {
        assert(block_of(cb)[0] * 8 <= cb[0]) by (nonlinear_arith) requires block_of(cb)[0] == cb[0] / 8;
        assert(block_of(cb)[1] * 8 <= cb[1]) by (nonlinear_arith) requires block_of(cb)[1] == cb[1] / 8;
        assert(block_of(cb)[2] * 8 <= cb[2]) by (nonlinear_arith) requires block_of(cb)[2] == cb[2] / 8;
        assert(cb[0] < n[0] && cb[1] < n[1] && cb[2] < n[2]);
    }
    assert(exists|j2: int| 0 <= j2 < near.len() && next_to(block_of(cb), #[trigger] near[j2]));
}

/// Numbers within one of each other are in blocks within one of each other.
proof fn lemma_div_close(x: int, y: int)
    requires
        0 <= x,
        0 <= y,
        x <= y + 1,
        y <= x + 1,
    ensures
        x / 8 <= y / 8 + 1,
        y / 8 <= x / 8 + 1,
{
    assert(x / 8 <= y / 8 + 1 && y / 8 <= x / 8 + 1) by (nonlinear_arith)
        requires 0 <= x, 0 <= y, x <= y + 1, y <= x + 1;
}

/// A cell the surface crosses.
#[derive(Clone, Copy, Debug)]
pub struct Crossed {
    /// Its base sample.
    pub base: [usize; 3],
    /// Its corners' insides, corner `k` at offsets `(k & 1, k >> 1 & 1, k >> 2)`.
    pub inside: [bool; 8],
    /// Each edge's loop of crossings, or [`NO_LOOP`] for an edge that does not cross.
    pub loops: [u8; 12],
    /// How many loops: the cell's vertices.
    pub count: u8,
    /// Its first vertex: loop `l` is vertex `first + l`.
    pub first: u32,
}

/// How many vertices `cells` number: one for each loop of each.
pub open spec fn counted(cells: Seq<Crossed>) -> nat
    decreases cells.len(),
{
    if cells.len() == 0 { 0 } else { counted(cells.drop_last()) + cells.last().count as nat }
}

/// What a crossed cell holds of the lattice.
pub open spec fn cell_ok(n: [usize; 3], keys: Seq<i32>, c: Crossed) -> bool {
    &&& is_base(n, pt(c.base))
    &&& signs_of(n, keys, pt(c.base), c.inside)
    &&& mixed(n, keys, pt(c.base))
    &&& labels_loops(c.inside, c.loops, c.count)
    &&& c.count <= 12
}

/// Crossed cells, each once, numbering their vertices in order from zero.
pub open spec fn cells_ok(n: [usize; 3], keys: Seq<i32>, cells: Seq<Crossed>) -> bool {
    &&& forall|i: int| 0 <= i < cells.len() ==> cell_ok(n, keys, #[trigger] cells[i])
    &&& forall|i: int| 0 <= i < cells.len() ==> (#[trigger] cells[i]).first == counted(cells.take(i))
    &&& forall|i: int, j: int| 0 <= i < j < cells.len() ==> (#[trigger] cells[i]).base != (#[trigger] cells[j]).base
}

proof fn lemma_counted_push(cells: Seq<Crossed>, c: Crossed)
    ensures
        counted(cells.push(c)) == counted(cells) + c.count,
{
    assert(cells.push(c).drop_last() =~= cells);
}

/// Each cell's loops come before the next cell's, and all before the count.
proof fn lemma_counted_prefix(cells: Seq<Crossed>, i: int)
    requires
        0 <= i < cells.len(),
    ensures
        counted(cells.take(i)) + cells[i].count <= counted(cells),
    decreases cells.len() - i,
{
    if i == cells.len() - 1 {
        assert(cells.take(i) =~= cells.drop_last());
    } else {
        lemma_counted_prefix(cells.drop_last(), i);
        assert(cells.drop_last().take(i) =~= cells.take(i));
        assert(cells.drop_last()[i] == cells[i]);
    }
}

/// No more distinct numbers below `hi` than `hi`.
proof fn lemma_distinct_below(s: Seq<int>, hi: int)
    requires
        hi >= 0,
        s.no_duplicates(),
        forall|i: int| 0 <= i < s.len() ==> 0 <= #[trigger] s[i] < hi,
    ensures
        s.len() <= hi,
{
    s.unique_seq_to_set();
    vstd::set_lib::lemma_int_range(0, hi);
    assert(s.to_set().subset_of(vstd::set_lib::set_int_range(0, hi)));
    vstd::set_lib::lemma_len_subset(s.to_set(), vstd::set_lib::set_int_range(0, hi));
}

/// The insides of the corners of the cell at `base`.
fn cell_signs(grid: &SignGrid, base: [usize; 3]) -> (r: [bool; 8])
    requires
        grid.wf(),
        is_base(grid.n, pt(base)),
    ensures
        signs_of(grid.n, grid.keys@, pt(base), r),
{
    let mut r = [false; 8];
    let mut k: usize = 0;
    while k < 8
        invariant
            grid.wf(),
            is_base(grid.n, pt(base)),
            k <= 8,
            forall|j: int| 0 <= j < k ==> #[trigger] r[j] == inside_at(grid.n, grid.keys@, cell_corner(pt(base), j)),
        decreases 8 - k,
    {
        let c: [usize; 3] = [base[0] + k % 2, base[1] + (k / 2) % 2, base[2] + k / 4];
        assert(pt(c) == cell_corner(pt(base), k as int));
        r[k] = grid.inside(c);
        k += 1;
    }
    r
}

/// Whether some corner is inside and some outside.
fn is_mixed(signs: &[bool; 8], Ghost(n): Ghost<[usize; 3]>, Ghost(keys): Ghost<Seq<i32>>, Ghost(base): Ghost<Point>) -> (r: bool)
    requires
        signs_of(n, keys, base, *signs),
    ensures
        r == mixed(n, keys, base),
{
    let mut some_in = false;
    let mut some_out = false;
    let mut k: usize = 0;
    while k < 8
        invariant
            signs_of(n, keys, base, *signs),
            k <= 8,
            some_in <==> exists|j: int| 0 <= j < k && #[trigger] signs[j],
            some_out <==> exists|j: int| 0 <= j < k && !#[trigger] signs[j],
        decreases 8 - k,
    {
        if signs[k] {
            some_in = true;
        } else {
            some_out = true;
        }
        k += 1;
    }
    proof {
        if some_in && some_out {
            let j = choose|j: int| 0 <= j < 8 && #[trigger] signs[j];
            let l = choose|l: int| 0 <= l < 8 && !#[trigger] signs[l];
            assert(inside_at(n, keys, cell_corner(base, j)) && !inside_at(n, keys, cell_corner(base, l)));
        }
        if mixed(n, keys, base) {
            let (j, l) = choose|j: int, l: int| 0 <= j < 8 && 0 <= l < 8
                && inside_at(n, keys, #[trigger] cell_corner(base, j)) && !inside_at(n, keys, #[trigger] cell_corner(base, l));
            assert(signs[j] && !signs[l]);
        }
    }
    some_in && some_out
}

/// What the cell table holds while it is built: the cells, the places of their bases (each
/// once, in the lattice), where each is found, and how many vertices they number.
pub open spec fn table_ok(n: [usize; 3], keys: Seq<i32>, cells: Seq<Crossed>, lins: Seq<int>,
    map: Map<usize, usize>, vertices: nat) -> bool {
    &&& cells_ok(n, keys, cells)
    &&& vertices == counted(cells)
    &&& vertices <= 12 * cells.len()
    &&& lins.len() == cells.len()
    &&& lins.no_duplicates()
    &&& forall|i: int| 0 <= i < lins.len() ==> #[trigger] lins[i] == lin(n, pt(cells[i].base)) && 0 <= lins[i] < keys.len()
    &&& forall|i: int| 0 <= i < cells.len() ==> map.contains_key(lin(n, pt((#[trigger] cells[i]).base)) as usize)
        && map[lin(n, pt(cells[i].base)) as usize] == i
    &&& forall|key: usize| #[trigger] map.contains_key(key) ==> exists|i: int| 0 <= i < cells.len() && lins[i] == key
}

/// Some cell of `cells` is based at `b`.
pub open spec fn holds_cell(cells: Seq<Crossed>, b: [usize; 3]) -> bool {
    exists|i: int| 0 <= i < cells.len() && (#[trigger] cells[i]).base == b
}

/// `b` is among the first `k` of `cand`.
pub open spec fn among(cand: Seq<[usize; 3]>, k: int, b: [usize; 3]) -> bool {
    exists|j: int| 0 <= j < k && #[trigger] cand[j] == b
}

/// The cells are the crossed bases among the first `k` candidates.
pub open spec fn covers(n: [usize; 3], keys: Seq<i32>, cells: Seq<Crossed>, cand: Seq<[usize; 3]>, k: int) -> bool {
    forall|b: [usize; 3]| #[trigger] holds_cell(cells, b)
        <==> (is_base(n, pt(b)) && mixed(n, keys, pt(b)) && among(cand, k, b))
}

/// A candidate that adds no cell keeps the table covering one more candidate.
proof fn lemma_covers_skip(n: [usize; 3], keys: Seq<i32>, cells: Seq<Crossed>, cand: Seq<[usize; 3]>, k: int)
    requires
        0 <= k < cand.len(),
        covers(n, keys, cells, cand, k),
        holds_cell(cells, cand[k]) || !(is_base(n, pt(cand[k])) && mixed(n, keys, pt(cand[k]))),
    ensures
        covers(n, keys, cells, cand, k + 1),
{
    assert forall|bb: [usize; 3]| #[trigger] holds_cell(cells, bb)
        <==> (is_base(n, pt(bb)) && mixed(n, keys, pt(bb)) && among(cand, k + 1, bb)) by {
        if among(cand, k + 1, bb) {
            let j = choose|j: int| 0 <= j < k + 1 && #[trigger] cand[j] == bb;
            if j < k {
                assert(among(cand, k, bb));
            }
        }
        if holds_cell(cells, bb) {
            assert(among(cand, k, bb));
            let j = choose|j: int| 0 <= j < k && #[trigger] cand[j] == bb;
            assert(cand[j] == bb);
        }
    }
}

/// A new crossed cell, pushed, keeps the table.
#[verifier::spinoff_prover]
#[verifier::rlimit(40)]
proof fn lemma_table_push(n: [usize; 3], keys: Seq<i32>, cells: Seq<Crossed>, lins: Seq<int>,
    map: Map<usize, usize>, vertices: nat, cell: Crossed, key: usize, at: usize)
    requires
        at == cells.len(),
        table_ok(n, keys, cells, lins, map, vertices),
        cell_ok(n, keys, cell),
        cell.first == vertices,
        key as int == lin(n, pt(cell.base)),
        0 <= key < keys.len(),
        !map.contains_key(key),
    ensures
        table_ok(n, keys, cells.push(cell), lins.push(key as int), map.insert(key, at),
            vertices + cell.count as nat),
{
    let cells1 = cells.push(cell);
    let lins1 = lins.push(key as int);
    let map1 = map.insert(key, at);
    lemma_counted_push(cells, cell);
    assert(cells1.take(cells.len() as int) =~= cells);
    assert forall|i: int| 0 <= i < lins.len() implies lins[i] != key as int by {
        if lins[i] == key as int {
            assert(map.contains_key(lin(n, pt(cells[i].base)) as usize));
        }
    }
    assert forall|i: int| 0 <= i < cells1.len() implies (#[trigger] cells1[i]).first == counted(cells1.take(i)) by {
        if i < cells.len() {
            assert(cells1.take(i) =~= cells.take(i));
        }
    }
    assert forall|i: int, j: int| 0 <= i < j < cells1.len() implies (#[trigger] cells1[i]).base != (#[trigger] cells1[j]).base by {
        if j == cells.len() {
            if cells1[i].base == cells1[j].base {
                assert(lins[i] == key as int);
            }
        }
    }
    assert(cells_ok(n, keys, cells1));
    assert forall|i: int| 0 <= i < cells1.len() implies map1.contains_key(lin(n, pt((#[trigger] cells1[i]).base)) as usize)
        && map1[lin(n, pt(cells1[i].base)) as usize] == i by {
        if i < cells.len() {
            assert(lins[i] != key as int);
            assert(cells1[i] == cells[i]);
            assert(lin(n, pt(cells[i].base)) == lins[i]);
            assert(0 <= lins[i] < keys.len());
            assert(lins[i] as usize != key);
        } else {
            assert(cells1[i] == cell);
            assert(lin(n, pt(cell.base)) as usize == key);
        }
    }
    assert forall|key2: usize| #[trigger] map1.contains_key(key2) implies exists|i: int| 0 <= i < cells1.len() && lins1[i] == key2 by {
        if key2 == key {
            assert(lins1[cells.len() as int] == key2);
        } else {
            let i = choose|i: int| 0 <= i < cells.len() && lins[i] == key2;
            assert(lins1[i] == key2);
        }
    }
    assert(lins1.no_duplicates());
    assert forall|i: int| 0 <= i < lins1.len() implies #[trigger] lins1[i] == lin(n, pt(cells1[i].base)) && 0 <= lins1[i] < keys.len() by {
        if i < lins.len() { assert(lins1[i] == lins[i]); }
    }
    assert(table_ok(n, keys, cells1, lins1, map1, vertices + cell.count as nat));
}

/// A candidate that is a new crossed cell, pushed, keeps the table covering the candidates.
proof fn lemma_covers_push(n: [usize; 3], keys: Seq<i32>, cells: Seq<Crossed>, cand: Seq<[usize; 3]>, k: int, cell: Crossed)
    requires
        covers(n, keys, cells, cand, k),
        0 <= k < cand.len(),
        cell.base == cand[k],
        is_base(n, pt(cell.base)),
        mixed(n, keys, pt(cell.base)),
    ensures
        covers(n, keys, cells.push(cell), cand, k + 1),
{
    let cells1 = cells.push(cell);
    assert forall|bb: [usize; 3]| #[trigger] holds_cell(cells1, bb)
        <==> (is_base(n, pt(bb)) && mixed(n, keys, pt(bb)) && among(cand, k + 1, bb)) by {
        if holds_cell(cells1, bb) {
            let i = choose|i: int| 0 <= i < cells1.len() && (#[trigger] cells1[i]).base == bb;
            if i < cells.len() {
                assert(cells[i].base == bb);
                assert(holds_cell(cells, bb));
                let j = choose|j: int| 0 <= j < k && #[trigger] cand[j] == bb;
                assert(cand[j] == bb);
            } else {
                assert(cand[k] == bb);
            }
        }
        if is_base(n, pt(bb)) && mixed(n, keys, pt(bb)) && among(cand, k + 1, bb) {
            let j = choose|j: int| 0 <= j < k + 1 && #[trigger] cand[j] == bb;
            if j < k {
                assert(among(cand, k, bb));
                assert(holds_cell(cells, bb));
                let i = choose|i: int| 0 <= i < cells.len() && (#[trigger] cells[i]).base == bb;
                assert(cells1[i].base == bb);
            } else {
                assert(cells1[cells.len() as int].base == bb);
            }
        }
    }
}

/// The crossed cells among the candidates, in their order, each once; how many vertices they
/// number; and where each is found by its base's place in the lattice.
#[verifier::rlimit(30)]
fn crossed_cells(grid: &SignGrid) -> (r: (Vec<Crossed>, u32, HashMap<usize, usize>))
    requires
        grid.wf(),
        boundary_outside(grid.n, grid.keys@),
        all_settled(grid.n, grid.keys@),
        12 * grid.keys@.len() <= u32::MAX,
    ensures
        cells_ok(grid.n, grid.keys@, r.0@),
        r.1 == counted(r.0@),
        forall|b: [usize; 3]| (exists|i: int| 0 <= i < r.0@.len() && (#[trigger] r.0@[i]).base == b)
            <==> (is_base(grid.n, pt(b)) && mixed(grid.n, grid.keys@, pt(b)) && marked(grid.n, grid.near@, block_of(b))),
        forall|i: int| 0 <= i < r.0@.len() ==> r.2@.contains_key(lin(grid.n, pt((#[trigger] r.0@[i]).base)) as usize)
            && r.2@[lin(grid.n, pt(r.0@[i].base)) as usize] == i,
        forall|p: int, q: int| 0 <= p < q < r.0@.len() ==> sample_lt((#[trigger] r.0@[p]).base, (#[trigger] r.0@[q]).base),
{
    broadcast use vstd::std_specs::hash::group_hash_axioms;
    let n = grid.n;
    let ghost keys = grid.keys@;
    let cand = grid.candidates();
    let mut cells: Vec<Crossed> = Vec::new();
    let mut map: HashMap<usize, usize> = HashMap::new();
    let mut vertices: u32 = 0;
    let ghost mut lins: Seq<int> = Seq::empty();
    proof {
        assert(table_ok(n, keys, cells@, lins, map@, vertices as nat));
        assert(covers(n, keys, cells@, cand@, 0));
    }
    let mut k: usize = 0;
    while k < cand.len()
        invariant
            grid.wf(),
            n == grid.n,
            keys == grid.keys@,
            boundary_outside(n, keys),
            all_settled(n, keys),
            12 * keys.len() <= u32::MAX,
            k <= cand.len(),
            forall|c: [usize; 3]| #[trigger] cand@.contains(c) <==> (in_grid(n, pt(c)) && marked(n, grid.near@, block_of(c))),
            table_ok(n, keys, cells@, lins, map@, vertices as nat),
            covers(n, keys, cells@, cand@, k as int),
            forall|a: int, b: int| 0 <= a < b < cand@.len() ==> sample_lt(#[trigger] cand@[a], #[trigger] cand@[b]),
            forall|p: int, q: int| 0 <= p < q < cells@.len() ==> sample_lt((#[trigger] cells@[p]).base, (#[trigger] cells@[q]).base),
            forall|p: int, j: int| 0 <= p < cells@.len() && k <= j < cand@.len()
                ==> sample_lt((#[trigger] cells@[p]).base, #[trigger] cand@[j]),
        decreases cand.len() - k,
    {
        let b = cand[k];
        proof { assert(cand@.contains(b)) by { assert(cand@[k as int] == b); } }
        if b[0] + 1 < n[0] && b[1] + 1 < n[1] && b[2] + 1 < n[2] {
            let key = grid.index(b);
            if !map.contains_key(&key) {
                let signs = cell_signs(grid, b);
                if is_mixed(&signs, Ghost(n), Ghost(keys), Ghost(pt(b))) {
                    proof { lemma_cell_clean(n, keys, pt(b), signs); }
                    let (ids, count) = crate::surface_nets::loops(signs);
                    let cell = Crossed { base: b, inside: signs, loops: ids, count, first: vertices };
                    let at_index = cells.len();
                    proof {
                        lemma_table_push(n, keys, cells@, lins, map@, vertices as nat, cell, key, at_index);
                        lemma_covers_push(n, keys, cells@, cand@, k as int, cell);
                        lemma_distinct_below(lins.push(key as int), keys.len() as int);
                    }
                    let ghost c0 = cells@;
                    cells.push(cell);
                    proof {
                        assert forall|p: int, q: int| 0 <= p < q < cells@.len()
                            implies sample_lt((#[trigger] cells@[p]).base, (#[trigger] cells@[q]).base) by {
                            assert(cells@[p] == c0[p]);
                            if q < c0.len() { assert(cells@[q] == c0[q]); }
                        }
                        assert forall|p: int, j: int| 0 <= p < cells@.len() && k + 1 <= j < cand@.len()
                            implies sample_lt((#[trigger] cells@[p]).base, #[trigger] cand@[j]) by {
                            if p < c0.len() { assert(cells@[p] == c0[p]); }
                            else { assert(sample_lt(cand@[k as int], cand@[j])); }
                        }
                    }
                    map.insert(key, at_index);
                    vertices = vertices + count as u32;
                    proof { lins = lins.push(key as int); }
                } else {
                    proof { lemma_covers_skip(n, keys, cells@, cand@, k as int); }
                }
            } else {
                proof {
                    let i = choose|i: int| 0 <= i < cells@.len() && lins[i] == key;
                    crate::grid::lemma_lin_injective(n, pt(cells@[i].base), pt(b));
                    assert(cells@[i].base =~= b);
                    assert(holds_cell(cells@, b));
                    lemma_covers_skip(n, keys, cells@, cand@, k as int);
                }
            }
        } else {
            proof { lemma_covers_skip(n, keys, cells@, cand@, k as int); }
        }
        k += 1;
    }
    proof {
        assert forall|b: [usize; 3]| (exists|i: int| 0 <= i < cells@.len() && (#[trigger] cells@[i]).base == b)
            <==> (is_base(n, pt(b)) && mixed(n, keys, pt(b)) && marked(n, grid.near@, block_of(b))) by {
            if is_base(n, pt(b)) && mixed(n, keys, pt(b)) && marked(n, grid.near@, block_of(b)) {
                assert(in_grid(n, pt(b)));
                assert(cand@.contains(b));
                let j = choose|j: int| 0 <= j < cand@.len() && cand@[j] == b;
                assert(among(cand@, cand@.len() as int, b));
                assert(holds_cell(cells@, b));
            }
            if exists|i: int| 0 <= i < cells@.len() && (#[trigger] cells@[i]).base == b {
                assert(holds_cell(cells@, b));
                let j = choose|j: int| 0 <= j < cand@.len() && #[trigger] cand@[j] == b;
                assert(cand@.contains(b));
            }
        }
    }
    (cells, vertices, map)
}

/// The vertex the cell based at `p` has on its edge `e`.
pub open spec fn vertex_at(cells: Seq<Crossed>, p: Point, e: int) -> int {
    let i = choose|i: int| 0 <= i < cells.len() && pt((#[trigger] cells[i]).base) == p;
    cells[i].first + cells[i].loops[e]
}

/// The offsets back across an edge of the quad's `j`th cell, counterclockwise about `u × v`:
/// `(1, 1)`, `(0, 1)`, `(0, 0)`, `(1, 0)`.
pub open spec fn quad_du(j: int) -> int {
    if j == 0 || j == 3 { 1 } else { 0 }
}

pub open spec fn quad_dv(j: int) -> int {
    if j < 2 { 1 } else { 0 }
}

/// The `j`th vertex about the lattice edge from `c` along `axis`, before it is turned outward.
pub open spec fn quad_vertex(cells: Seq<Crossed>, c: Point, axis: int, j: int) -> int {
    vertex_at(cells, around_edge(c, axis, quad_du(j), quad_dv(j)), edge_in_cell(axis, quad_du(j), quad_dv(j)))
}

/// Which lattice points share a base, as arrays.
proof fn lemma_pt_injective(a: [usize; 3], b: [usize; 3])
    requires
        pt(a) == pt(b),
    ensures
        a == b,
{
    assert(a =~= b);
}

/// The cell table as [`crossed_cells`] leaves it.
#[verifier::opaque]
pub open spec fn built(grid: SignGrid, cells: Seq<Crossed>, map: Map<usize, usize>, vertices: nat) -> bool {
    &&& cells_ok(grid.n, grid.keys@, cells)
    &&& vertices == counted(cells)
    &&& forall|b: [usize; 3]| (exists|i2: int| 0 <= i2 < cells.len() && (#[trigger] cells[i2]).base == b)
        <==> (is_base(grid.n, pt(b)) && mixed(grid.n, grid.keys@, pt(b)) && marked(grid.n, grid.near@, block_of(b)))
    &&& forall|i2: int| 0 <= i2 < cells.len() ==> map.contains_key(lin(grid.n, pt((#[trigger] cells[i2]).base)) as usize)
        && map[lin(grid.n, pt(cells[i2].base)) as usize] == i2
}

/// The vertex of the cell `(du, dv)` back across the crossing lattice edge from `c` along
/// `axis`, on that edge.
#[verifier::spinoff_prover]
#[verifier::rlimit(30)]
fn corner_of(grid: &SignGrid, cells: &Vec<Crossed>, map: &HashMap<usize, usize>, vertices: u32,
    c: [usize; 3], axis: usize, du: usize, dv: usize) -> (r: u32)
    requires
        grid.wf(),
        boundary_outside(grid.n, grid.keys@),
        crossings_near(grid.n, grid.keys@, grid.near@),
        built(*grid, cells@, map@, vertices as nat),
        axis < 3,
        du < 2,
        dv < 2,
        edge_crosses(grid.n, grid.keys@, pt(c), axis as int),
    ensures
        r as int == vertex_at(cells@, around_edge(pt(c), axis as int, du as int, dv as int), edge_in_cell(axis as int, du as int, dv as int)),
        r < vertices,
{
    broadcast use vstd::std_specs::hash::group_hash_axioms;
    reveal(built);
    let ghost n = grid.n;
    let ghost keys = grid.keys@;
    let ghost p = around_edge(pt(c), axis as int, du as int, dv as int);
    proof {
        lemma_around_crossing(n, keys, grid.near@, c, axis as int, du as int, dv as int);
        assert(forall|k: int| 0 <= k < grid.near@.len() ==> #[trigger] SignGrid::block_in(n, grid.near@[k]));
    }
    let (u, v): (usize, usize) = if axis == 0 { (1, 2) } else if axis == 1 { (0, 2) } else { (0, 1) };
    let mut cc = c;
    cc[u] = c[u] - du;
    cc[v] = cc[v] - dv;
    assert(pt(cc) == p);
    assert(cc == at(p)) by { lemma_pt_injective(cc, at(p)); }
    let key = grid.index(cc);
    let ghost i = choose|i: int| 0 <= i < cells@.len() && (#[trigger] cells@[i]).base == cc;
    assert(map@.contains_key(key) && map@[key] == i);
    let found = map.get(&key);
    let index: usize = match found {
        Some(index) => *index,
        None => {
            assert(false);
            0
        },
    };
    assert(index == i);
    let e: usize = 4 * axis + du + 2 * dv;
    let cell = cells[index];
    proof {
        lemma_edge_in_cell(pt(c), axis as int, du as int, dv as int);
        assert(cell_ok(n, keys, cell));
        let (a, b) = edge_ends(e as int);
        assert(cell.inside[a] == inside_at(n, keys, cell_corner(p, a)));
        assert(cell.inside[b] == inside_at(n, keys, cell_corner(p, b)));
        assert(crosses(cell.inside, e as int));
        assert(cell.loops[e as int] < cell.count);
        lemma_counted_prefix(cells@, i);
        // The vertex is the cell's, whichever cell `vertex_at` names at `p`.
        let j = choose|j: int| 0 <= j < cells@.len() && pt((#[trigger] cells@[j]).base) == p;
        lemma_pt_injective(cells@[j].base, cc);
        if j != i {
            if j < i { assert(cells@[j].base != cells@[i].base); } else { assert(cells@[i].base != cells@[j].base); }
        }
    }
    cell.first + cell.loops[e] as u32
}

/// A quad about a lattice edge the surface crosses: the edge's lower end and its axis, and the
/// vertices of the four cells around it, counterclockwise seen from outside.
#[derive(Clone, Copy, Debug)]
pub struct Quad {
    pub base: [usize; 3],
    pub axis: usize,
    pub corners: [u32; 4],
}

/// What a quad about a crossing edge holds: the four cells' vertices on the edge, in turn about
/// `u × v`, reversed where that faces inward (outward is `+axis` when the inside end is the
/// lower one, `u × v` being `+axis` but for `y`).
pub open spec fn quad_ok(n: [usize; 3], keys: Seq<i32>, cells: Seq<Crossed>, vertices: nat, q: Quad) -> bool {
    &&& q.axis < 3
    &&& edge_crosses(n, keys, pt(q.base), q.axis as int)
    &&& forall|j: int| 0 <= j < 4 ==> #[trigger] q.corners[j] == (if (q.axis == 1) == inside_at(n, keys, pt(q.base)) {
            quad_vertex(cells, pt(q.base), q.axis as int, 3 - j)
        } else {
            quad_vertex(cells, pt(q.base), q.axis as int, j)
        })
    &&& forall|j: int| 0 <= j < 4 ==> #[trigger] q.corners[j] < vertices
}

/// The surface's mesh: the cells it crosses, the vertices they number, and a quad about each
/// lattice edge it crosses.
pub struct Mesh {
    pub cells: Vec<Crossed>,
    pub vertices: u32,
    pub quads: Vec<Quad>,
}

/// Some quad of `quads` is about the lattice edge from `c` along `axis`.
pub open spec fn has_quad(quads: Seq<Quad>, c: [usize; 3], axis: int) -> bool {
    exists|k: int| 0 <= k < quads.len() && (#[trigger] quads[k]).base == c && quads[k].axis == axis
}

/// The quad about the lattice edge from `base` along `axis`, if the surface crosses it.
#[verifier::rlimit(40)]
#[verifier::spinoff_prover]
fn edge_quad(grid: &SignGrid, cells: &Vec<Crossed>, map: &HashMap<usize, usize>, vertices: u32,
    base: [usize; 3], axis: usize, from: bool) -> (r: Option<Quad>)
    requires
        grid.wf(),
        boundary_outside(grid.n, grid.keys@),
        crossings_near(grid.n, grid.keys@, grid.near@),
        built(*grid, cells@, map@, vertices as nat),
        is_base(grid.n, pt(base)),
        from == inside_at(grid.n, grid.keys@, pt(base)),
        axis < 3,
    ensures
        r is Some <==> edge_crosses(grid.n, grid.keys@, pt(base), axis as int),
        r is Some ==> r->0.base == base && r->0.axis == axis
            && quad_ok(grid.n, grid.keys@, cells@, vertices as nat, r->0),
{
    let ghost n = grid.n;
    let ghost keys = grid.keys@;
    let mut end = base;
    end[axis] = base[axis] + 1;
    assert(pt(end) == shift(pt(base), axis as int, 1));
    let to = grid.inside(end);
    if to == from {
        return None;
    }
    let a = corner_of(grid, cells, map, vertices, base, axis, 1, 1);
    let b = corner_of(grid, cells, map, vertices, base, axis, 0, 1);
    let c = corner_of(grid, cells, map, vertices, base, axis, 0, 0);
    let d = corner_of(grid, cells, map, vertices, base, axis, 1, 0);
    let corners: [u32; 4] = if (axis == 1) == from { [d, c, b, a] } else { [a, b, c, d] };
    let quad = Quad { base, axis, corners };
    proof {
        let cs = cells@;
        let pb = pt(base);
        let ax = axis as int;
        assert(a as int == quad_vertex(cs, pb, ax, 0));
        assert(b as int == quad_vertex(cs, pb, ax, 1));
        assert(c as int == quad_vertex(cs, pb, ax, 2));
        assert(d as int == quad_vertex(cs, pb, ax, 3));
        assert forall|j: int| 0 <= j < 4 implies #[trigger] quad.corners[j] == (if (quad.axis == 1) == inside_at(n, keys, pt(quad.base)) {
            quad_vertex(cs, pb, ax, 3 - j)
        } else {
            quad_vertex(cs, pb, ax, j)
        }) by {
            if j == 0 {} else if j == 1 {} else if j == 2 {} else {}
        }
    }
    Some(quad)
}

/// The quads made so far: each about a crossing edge, in order of cell and then axis, and every
/// crossing edge of the first `i` cells, and of axes below `axis` of cell `i`, has one.
#[verifier::opaque]
pub open spec fn made_so_far(n: [usize; 3], keys: Seq<i32>, cells: Seq<Crossed>, vertices: nat,
    quads: Seq<Quad>, made: Seq<(int, int)>, i: int, axis: int) -> bool {
    &&& made.len() == quads.len()
    &&& forall|k: int| 0 <= k < quads.len() ==> quad_ok(n, keys, cells, vertices, #[trigger] quads[k])
    &&& forall|k: int| 0 <= k < made.len() ==> 0 <= (#[trigger] made[k]).0 <= i && made[k].0 < cells.len()
        && quads[k].base == cells[made[k].0].base && quads[k].axis == made[k].1 && (made[k].0 == i ==> made[k].1 < axis)
    &&& forall|k: int, l: int| 0 <= k < l < made.len() ==> (#[trigger] made[k]).0 < (#[trigger] made[l]).0
        || (made[k].0 == made[l].0 && made[k].1 < made[l].1)
    &&& forall|i2: int, ax: int| 0 <= i2 < i && 0 <= ax < 3 && #[trigger] edge_crosses(n, keys, pt(cells[i2].base), ax)
        ==> has_quad(quads, cells[i2].base, ax)
    &&& forall|ax: int| 0 <= ax < axis && 0 <= i < cells.len() && #[trigger] edge_crosses(n, keys, pt(cells[i].base), ax)
        ==> has_quad(quads, cells[i].base, ax)
}

/// One more axis of cell `i`: its quad, if it has one, is the next.
proof fn lemma_made_next(n: [usize; 3], keys: Seq<i32>, cells: Seq<Crossed>, vertices: nat,
    quads: Seq<Quad>, made: Seq<(int, int)>, i: int, axis: int, quad: Option<Quad>)
    requires
        0 <= i < cells.len(),
        0 <= axis < 3,
        made_so_far(n, keys, cells, vertices, quads, made, i, axis),
        quad is Some <==> edge_crosses(n, keys, pt(cells[i].base), axis),
        quad is Some ==> quad->0.base == cells[i].base && quad->0.axis == axis
            && quad_ok(n, keys, cells, vertices, quad->0),
    ensures
        match quad {
            Some(q) => made_so_far(n, keys, cells, vertices, quads.push(q), made.push((i, axis)), i, axis + 1),
            None => made_so_far(n, keys, cells, vertices, quads, made, i, axis + 1),
        },
{
    reveal(made_so_far);
    match quad {
        Some(q) => {
            let quads1 = quads.push(q);
            let made1 = made.push((i, axis));
            assert forall|k: int| 0 <= k < quads1.len() implies quad_ok(n, keys, cells, vertices, #[trigger] quads1[k]) by {
                if k < quads.len() { assert(quads1[k] == quads[k]); }
            }
            assert forall|k: int| 0 <= k < made1.len() implies 0 <= (#[trigger] made1[k]).0 <= i && made1[k].0 < cells.len()
                && quads1[k].base == cells[made1[k].0].base && quads1[k].axis == made1[k].1 && (made1[k].0 == i ==> made1[k].1 < axis + 1) by {
                if k < made.len() { assert(made1[k] == made[k]); assert(quads1[k] == quads[k]); }
            }
            assert forall|k: int, l: int| 0 <= k < l < made1.len() implies (#[trigger] made1[k]).0 < (#[trigger] made1[l]).0
                || (made1[k].0 == made1[l].0 && made1[k].1 < made1[l].1) by {
                assert(made1[k] == made[k]);
                if l < made.len() { assert(made1[l] == made[l]); }
            }
            assert forall|i2: int, ax: int| 0 <= i2 < i && 0 <= ax < 3 && #[trigger] edge_crosses(n, keys, pt(cells[i2].base), ax)
                implies has_quad(quads1, cells[i2].base, ax) by {
                let k = choose|k: int| 0 <= k < quads.len() && (#[trigger] quads[k]).base == cells[i2].base && quads[k].axis == ax;
                assert(quads1[k] == quads[k]);
            }
            assert forall|ax: int| 0 <= ax < axis + 1 && 0 <= i < cells.len() && #[trigger] edge_crosses(n, keys, pt(cells[i].base), ax)
                implies has_quad(quads1, cells[i].base, ax) by {
                if ax < axis {
                    let k = choose|k: int| 0 <= k < quads.len() && (#[trigger] quads[k]).base == cells[i].base && quads[k].axis == ax;
                    assert(quads1[k] == quads[k]);
                } else {
                    assert(quads1[quads.len() as int] == q);
                }
            }
        },
        None => {},
    }
}

/// The end of cell `i`'s axes is the start of cell `i + 1`'s.
proof fn lemma_made_cell(n: [usize; 3], keys: Seq<i32>, cells: Seq<Crossed>, vertices: nat,
    quads: Seq<Quad>, made: Seq<(int, int)>, i: int)
    requires
        0 <= i < cells.len(),
        made_so_far(n, keys, cells, vertices, quads, made, i, 3),
    ensures
        made_so_far(n, keys, cells, vertices, quads, made, i + 1, 0),
{
    reveal(made_so_far);
}

/// What `m` is, as extraction from `grid` leaves it: each crossed cell of a near block once, in
/// the order extraction meets them (block by block, `z` slowest), its vertices numbered in turn;
/// and a quad about each lattice edge the surface crosses, once, cell by cell in that order and
/// axis by axis.
pub open spec fn extracted(grid: SignGrid, m: Mesh) -> bool {
    &&& cells_ok(grid.n, grid.keys@, m.cells@)
    &&& m.vertices == counted(m.cells@)
    &&& forall|b: [usize; 3]| #[trigger] holds_cell(m.cells@, b)
        <==> (is_base(grid.n, pt(b)) && mixed(grid.n, grid.keys@, pt(b)) && marked(grid.n, grid.near@, block_of(b)))
    &&& forall|k: int| 0 <= k < m.quads@.len() ==> quad_ok(grid.n, grid.keys@, m.cells@, m.vertices as nat, #[trigger] m.quads@[k])
    &&& forall|c: [usize; 3], axis: int| 0 <= axis < 3 && #[trigger] edge_crosses(grid.n, grid.keys@, pt(c), axis)
        ==> has_quad(m.quads@, c, axis)
    &&& forall|k: int, l: int| 0 <= k < l < m.quads@.len()
        ==> !((#[trigger] m.quads@[k]).base == (#[trigger] m.quads@[l]).base && m.quads@[k].axis == m.quads@[l].axis)
    &&& forall|p: int, q: int| 0 <= p < q < m.cells@.len() ==> sample_lt((#[trigger] m.cells@[p]).base, (#[trigger] m.cells@[q]).base)
    &&& forall|k: int, l: int| 0 <= k < l < m.quads@.len() ==> sample_lt((#[trigger] m.quads@[k]).base, (#[trigger] m.quads@[l]).base)
        || (m.quads@[k].base == m.quads@[l].base && m.quads@[k].axis < m.quads@[l].axis)
}

/// Surface nets over a cleaned lattice: a vertex for each loop of crossings in a crossed cell,
/// and a quad about each lattice edge the surface crosses.
///
/// The lattice is as cleaning leaves it: its outermost layer outside, no square alternating,
/// and every crossing edge with an end in a near block.
pub fn nets(grid: &SignGrid) -> (r: Mesh)
    requires
        grid.wf(),
        boundary_outside(grid.n, grid.keys@),
        all_settled(grid.n, grid.keys@),
        crossings_near(grid.n, grid.keys@, grid.near@),
        12 * grid.keys@.len() <= u32::MAX,
    ensures
        extracted(*grid, r),
{
    let ghost n = grid.n;
    let ghost keys = grid.keys@;
    let (cells, vertices, map) = crossed_cells(grid);
    proof { reveal(built); }
    assert(built(*grid, cells@, map@, vertices as nat));
    let mut quads: Vec<Quad> = Vec::new();
    // Which cell, and which axis, each quad is about, in order.
    let ghost mut made: Seq<(int, int)> = Seq::empty();
    proof { reveal(made_so_far); }
    let mut i: usize = 0;
    while i < cells.len()
        invariant
            grid.wf(),
            n == grid.n,
            keys == grid.keys@,
            boundary_outside(n, keys),
            crossings_near(n, keys, grid.near@),
            built(*grid, cells@, map@, vertices as nat),
            i <= cells.len(),
            made_so_far(n, keys, cells@, vertices as nat, quads@, made, i as int, 0),
        decreases cells.len() - i,
    {
        let base = cells[i].base;
        proof {
            reveal(built);
            assert(cell_ok(n, keys, cells@[i as int]));
        }
        let from = grid.inside(base);
        let mut axis: usize = 0;
        while axis < 3
            invariant
                grid.wf(),
                n == grid.n,
                keys == grid.keys@,
                boundary_outside(n, keys),
                crossings_near(n, keys, grid.near@),
                built(*grid, cells@, map@, vertices as nat),
                i < cells.len(),
                base == cells@[i as int].base,
                is_base(n, pt(base)),
                from == inside_at(n, keys, pt(base)),
                axis <= 3,
                made_so_far(n, keys, cells@, vertices as nat, quads@, made, i as int, axis as int),
            decreases 3 - axis,
        {
            let quad = edge_quad(grid, &cells, &map, vertices, base, axis, from);
            proof { lemma_made_next(n, keys, cells@, vertices as nat, quads@, made, i as int, axis as int, quad); }
            match quad {
                Some(q) => {
                    quads.push(q);
                    proof { made = made.push((i as int, axis as int)); }
                },
                None => {},
            }
            axis += 1;
        }
        proof { lemma_made_cell(n, keys, cells@, vertices as nat, quads@, made, i as int); }
        i += 1;
    }
    proof {
        reveal(built);
        reveal(made_so_far);
        assert forall|b: [usize; 3]| #[trigger] holds_cell(cells@, b)
            <==> (is_base(n, pt(b)) && mixed(n, keys, pt(b)) && marked(n, grid.near@, block_of(b))) by {
        }
        assert forall|c: [usize; 3], axis: int| 0 <= axis < 3 && #[trigger] edge_crosses(n, keys, pt(c), axis)
            implies has_quad(quads@, c, axis) by {
            lemma_around_crossing(n, keys, grid.near@, c, axis, 0, 0);
            assert(around_edge(pt(c), axis, 0, 0) == pt(c));
            lemma_pt_injective(at(pt(c)), c);
            assert(exists|i2: int| 0 <= i2 < cells@.len() && (#[trigger] cells@[i2]).base == c);
            let i2 = choose|i2: int| 0 <= i2 < cells@.len() && (#[trigger] cells@[i2]).base == c;
            assert(edge_crosses(n, keys, pt(cells@[i2].base), axis));
        }
        assert forall|k: int, l: int| 0 <= k < l < quads@.len() implies sample_lt((#[trigger] quads@[k]).base, (#[trigger] quads@[l]).base)
            || (quads@[k].base == quads@[l].base && quads@[k].axis < quads@[l].axis) by {
            let (ik, ak) = made[k];
            let (il, al) = made[l];
            assert(made[k].0 < made[l].0 || (made[k].0 == made[l].0 && made[k].1 < made[l].1));
            if ik < il {
                assert(sample_lt(cells@[ik].base, cells@[il].base));
            }
        }
        assert forall|k: int, l: int| 0 <= k < l < quads@.len()
            implies !((#[trigger] quads@[k]).base == (#[trigger] quads@[l]).base && quads@[k].axis == quads@[l].axis) by {
            let (ik, ak) = made[k];
            let (il, al) = made[l];
            if ik < il {
                assert(cells@[ik].base != cells@[il].base);
            }
        }
    }
    Mesh { cells, vertices, quads }
}

/// Within two samples of each other along every axis.
pub open spec fn within_two(c: Point, d: Point) -> bool {
    c.0 - 2 <= d.0 <= c.0 + 2 && c.1 - 2 <= d.1 <= c.1 + 2 && c.2 - 2 <= d.2 <= c.2 + 2
}

/// A lattice as sampling leaves it: a block that is not near has one sign across its samples
/// and every sample within two of them, which is what a block far from the surface has.
pub open spec fn sampled(n: [usize; 3], keys: Seq<i32>, near: Seq<[usize; 3]>) -> bool {
    forall|c: [usize; 3], d: [usize; 3]| in_grid(n, pt(c)) && in_grid(n, pt(d)) && !near.contains(block_of(c))
        && within_two(pt(c), pt(d)) ==> #[trigger] inside_at(n, keys, pt(c)) == #[trigger] inside_at(n, keys, pt(d))
}

/// Cleaning a sampled lattice leaves what extraction asks of one: no square alternates, and
/// every lattice edge the surface crosses has an end in a near block.
pub proof fn law_cleaning_readies_a_sampled_lattice(n: [usize; 3], keys0: Seq<i32>, near0: Seq<[usize; 3]>,
    keys: Seq<i32>, near: Seq<[usize; 3]>, turned: Seq<[usize; 3]>, dilated: i32)
    requires
        keys0.len() == n[0] * n[1] * n[2],
        boundary_outside(n, keys0),
        sampled(n, keys0, near0),
        SignGrid::turn_facts(n, keys0, keys, turned, dilated),
        dilated <= 0,
        forall|b: [usize; 3]| #[trigger] near.contains(b)
            <==> (near0.contains(b) || exists|j: int| 0 <= j < turned.len() && b == block_of(turned[j])),
        forall|axis: int, b: [usize; 3]| 0 <= axis < 3 && in_grid(n, pt(b))
            && (exists|k: int| 0 <= k < near0.len() && in_block(n, near0[k], pt(b)))
            ==> #[trigger] settled(n, keys, axis, pt(b)),
        forall|axis: int, b: [usize; 3], j: int| 0 <= axis < 3 && 0 <= j < turned.len()
            && touches(pt(#[trigger] turned[j]), axis, pt(b))
            ==> #[trigger] settled(n, keys, axis, pt(b)),
    ensures
        boundary_outside(n, keys),
        all_settled(n, keys),
        crossings_near(n, keys, near),
{
    crate::grid::law_clean_keeps_boundary_outside(n, keys0, keys, turned, dilated);
    assert forall|axis: int, b: [usize; 3]| 0 <= axis < 3 && in_grid(n, pt(b)) implies #[trigger] settled(n, keys, axis, pt(b)) by {
        if near0.contains(block_of(b)) {
            let k = choose|k: int| 0 <= k < near0.len() && near0[k] == block_of(b);
            crate::grid::lemma_in_block(n, near0[k], b);
        } else if exists|j: int| 0 <= j < turned.len() && touches(pt(#[trigger] turned[j]), axis, pt(b)) {
            let j = choose|j: int| 0 <= j < turned.len() && touches(pt(#[trigger] turned[j]), axis, pt(b));
            assert(settled(n, keys, axis, pt(b)));
        } else if has_square(n, axis, pt(b)) {
            // No corner turned, and all are within one of a sample of a block that is not near.
            assert forall|q: int| 0 <= q < 4 implies inside_at(n, keys, #[trigger] corner(axis, pt(b), q)) == inside_at(n, keys, pt(b)) by {
                let cq = at(corner(axis, pt(b), q));
                assert(pt(cq) == corner(axis, pt(b), q));
                assert(in_grid(n, pt(cq)));
                assert(inside_at(n, keys0, pt(b)) == inside_at(n, keys0, pt(cq)));
                assert(!turned.contains(cq)) by {
                    if turned.contains(cq) {
                        let j = choose|j: int| 0 <= j < turned.len() && turned[j] == cq;
                        assert(pt(turned[j]) == corner(axis, pt(b), q));
                        assert(touches(pt(turned[j]), axis, pt(b)));
                    }
                }
                assert(keys[lin(n, pt(cq))] == keys0[lin(n, pt(cq))]);
                assert(!turned.contains(b)) by {
                    if turned.contains(b) {
                        let j = choose|j: int| 0 <= j < turned.len() && turned[j] == b;
                        assert(pt(turned[j]) == corner(axis, pt(b), 0));
                        assert(touches(pt(turned[j]), axis, pt(b)));
                    }
                }
                assert(keys[lin(n, pt(b))] == keys0[lin(n, pt(b))]);
            }
            assert(inside_at(n, keys, corner(axis, pt(b), 0)) == inside_at(n, keys, pt(b)));
            assert(inside_at(n, keys, corner(axis, pt(b), 1)) == inside_at(n, keys, pt(b)));
        }
    }
    assert forall|c: [usize; 3], axis: int| 0 <= axis < 3 && #[trigger] edge_crosses(n, keys, pt(c), axis) implies {
        ||| near.contains(block_of(c))
        ||| exists|d: [usize; 3]| pt(d) == shift(pt(c), axis, 1) && near.contains(block_of(d))
    } by {
        let d = at(shift(pt(c), axis, 1));
        assert(pt(d) == shift(pt(c), axis, 1));
        if turned.contains(c) {
            let j = choose|j: int| 0 <= j < turned.len() && turned[j] == c;
            assert(near.contains(block_of(c)));
        } else if turned.contains(d) {
            let j = choose|j: int| 0 <= j < turned.len() && turned[j] == d;
            assert(near.contains(block_of(d)));
        } else {
            assert(keys[lin(n, pt(c))] == keys0[lin(n, pt(c))]);
            assert(keys[lin(n, pt(d))] == keys0[lin(n, pt(d))]);
            if !near0.contains(block_of(c)) {
                assert(inside_at(n, keys0, pt(c)) == inside_at(n, keys0, pt(d)));
                assert(false);
            }
            assert(near.contains(block_of(c)));
        }
    }
}

/// What extraction asks of the lattice at sample `c`: outside if it is on the outermost layer,
/// and each square based there settled and each edge from there that crosses beside a near
/// block.
pub open spec fn sample_ready(n: [usize; 3], keys: Seq<i32>, near: Seq<[usize; 3]>, c: [usize; 3]) -> bool {
    &&& boundary(n, pt(c)) ==> keys[lin(n, pt(c))] > 0
    &&& forall|axis: int| 0 <= axis < 3 ==> #[trigger] settled(n, keys, axis, pt(c))
    &&& forall|axis: int| 0 <= axis < 3 && #[trigger] edge_crosses(n, keys, pt(c), axis) ==> {
        ||| near.contains(block_of(c))
        ||| exists|d: [usize; 3]| pt(d) == shift(pt(c), axis, 1) && near.contains(block_of(d))
    }
}

/// Whether `near` holds block `b`.
fn holds_block(near: &Vec<[usize; 3]>, b: [usize; 3]) -> (r: bool)
    ensures
        r == near@.contains(b),
{
    let mut i: usize = 0;
    while i < near.len()
        invariant
            i <= near.len(),
            forall|j: int| 0 <= j < i ==> near@[j] != b,
        decreases near.len() - i,
    {
        let m = near[i];
        if m[0] == b[0] && m[1] == b[1] && m[2] == b[2] {
            assert(near@[i as int] =~= b);
            return true;
        }
        i += 1;
    }
    false
}

/// Whether the square across `axis` at `c` is settled.
fn square_settled(grid: &SignGrid, axis: usize, c: [usize; 3]) -> (r: bool)
    requires
        grid.wf(),
        axis < 3,
        in_grid(grid.n, pt(c)),
    ensures
        r == settled(grid.n, grid.keys@, axis as int, pt(c)),
{
    match grid.square(axis, c) {
        None => true,
        Some(q) => {
            let a = grid.inside(q[0]);
            let b = grid.inside(q[1]);
            let cc = grid.inside(q[2]);
            let d = grid.inside(q[3]);
            if !(a == d && b == cc && a != b) {
                return true;
            }
            let (p, o) = if a { (q[1], q[2]) } else { (q[0], q[3]) };
            grid.on_boundary(p) && grid.on_boundary(o)
        },
    }
}

/// Whether the lattice at `c` is as extraction asks.
fn check_sample(grid: &SignGrid, c: [usize; 3]) -> (r: bool)
    requires
        grid.wf(),
        in_grid(grid.n, pt(c)),
    ensures
        r == sample_ready(grid.n, grid.keys@, grid.near@, c),
{
    let ghost n = grid.n;
    let ghost keys = grid.keys@;
    if grid.on_boundary(c) && grid.inside(c) {
        return false;
    }
    let mut axis: usize = 0;
    while axis < 3
        invariant
            grid.wf(),
            n == grid.n,
            keys == grid.keys@,
            in_grid(grid.n, pt(c)),
            axis <= 3,
            forall|ax: int| 0 <= ax < axis ==> #[trigger] settled(n, keys, ax, pt(c)),
            forall|ax: int| 0 <= ax < axis && #[trigger] edge_crosses(n, keys, pt(c), ax) ==> {
                ||| grid.near@.contains(block_of(c))
                ||| exists|d: [usize; 3]| pt(d) == shift(pt(c), ax, 1) && grid.near@.contains(block_of(d))
            },
        decreases 3 - axis,
    {
        if !square_settled(grid, axis, c) {
            return false;
        }
        if c[axis] + 1 < grid.n[axis] {
            let mut d = c;
            d[axis] = c[axis] + 1;
            assert(pt(d) == shift(pt(c), axis as int, 1));
            if grid.inside(c) != grid.inside(d) {
                let bc: [usize; 3] = [c[0] / BLOCK, c[1] / BLOCK, c[2] / BLOCK];
                let bd: [usize; 3] = [d[0] / BLOCK, d[1] / BLOCK, d[2] / BLOCK];
                assert(bc == block_of(c) && bd == block_of(d));
                if !holds_block(&grid.near, bc) && !holds_block(&grid.near, bd) {
                    proof {
                        assert forall|e: [usize; 3]| pt(e) == shift(pt(c), axis as int, 1) implies !grid.near@.contains(block_of(e)) by {
                            lemma_pt_injective(e, d);
                        }
                        assert(edge_crosses(n, keys, pt(c), axis as int));
                        assert(!sample_ready(n, keys, grid.near@, c));
                    }
                    return false;
                }
            }
        } else {
            assert(!in_grid(n, shift(pt(c), axis as int, 1)));
        }
        axis += 1;
    }
    true
}

/// Whether the lattice is as extraction asks: its outermost layer outside, no square
/// alternating, and every crossing edge with an end in a near block. Cleaning a sampled lattice
/// leaves it so.
pub fn extractable(grid: &SignGrid) -> (r: bool)
    requires
        grid.wf(),
    ensures
        r == (boundary_outside(grid.n, grid.keys@) && all_settled(grid.n, grid.keys@)
            && crossings_near(grid.n, grid.keys@, grid.near@)),
{
    let ghost n = grid.n;
    let ghost keys = grid.keys@;
    let ghost near = grid.near@;
    let mut z: usize = 0;
    while z < grid.n[2]
        invariant
            grid.wf(),
            n == grid.n,
            keys == grid.keys@,
            near == grid.near@,
            z <= grid.n[2],
            forall|c: [usize; 3]| in_grid(n, pt(c)) && c[2] < z ==> #[trigger] sample_ready(n, keys, near, c),
        decreases grid.n[2] - z,
    {
        let mut y: usize = 0;
        while y < grid.n[1]
            invariant
                grid.wf(),
            n == grid.n,
            keys == grid.keys@,
            near == grid.near@,
                z < grid.n[2],
                y <= grid.n[1],
                forall|c: [usize; 3]| in_grid(n, pt(c)) && (c[2] < z || (c[2] == z && c[1] < y)) ==> #[trigger] sample_ready(n, keys, near, c),
            decreases grid.n[1] - y,
        {
            let mut x: usize = 0;
            while x < grid.n[0]
                invariant
                    grid.wf(),
            n == grid.n,
            keys == grid.keys@,
            near == grid.near@,
                    z < grid.n[2],
                    y < grid.n[1],
                    x <= grid.n[0],
                    forall|c: [usize; 3]| in_grid(n, pt(c)) && (c[2] < z || (c[2] == z && (c[1] < y || (c[1] == y && c[0] < x))))
                        ==> #[trigger] sample_ready(n, keys, near, c),
                decreases grid.n[0] - x,
            {
                let c: [usize; 3] = [x, y, z];
                if !check_sample(grid, c) {
                    proof {
                        if c[0] >= 0 {
                            assert(in_grid(n, pt(c)));
                            assert(!sample_ready(n, keys, near, c));
                            if boundary(n, pt(c)) && !(keys[lin(n, pt(c))] > 0) {
                                assert(!boundary_outside(n, keys));
                            } else if exists|axis: int| 0 <= axis < 3 && !#[trigger] settled(n, keys, axis, pt(c)) {
                                assert(!all_settled(n, keys));
                            } else {
                                let axis = choose|axis: int| 0 <= axis < 3 && #[trigger] edge_crosses(n, keys, pt(c), axis) && !({
                                    ||| near.contains(block_of(c))
                                    ||| exists|d: [usize; 3]| pt(d) == shift(pt(c), axis, 1) && near.contains(block_of(d))
                                });
                                assert(!crossings_near(n, keys, near));
                            }
                        }
                    }
                    return false;
                }
                proof {
                    assert forall|e: [usize; 3]| in_grid(n, pt(e)) && (e[2] < z || (e[2] == z && (e[1] < y || (e[1] == y && e[0] < x + 1))))
                        implies #[trigger] sample_ready(n, keys, near, e) by {
                        if e[2] == z && e[1] == y && e[0] == x {
                            assert(e =~= c);
                        }
                    }
                }
                x += 1;
            }
            y += 1;
        }
        z += 1;
    }
    proof {
        assert forall|c: [usize; 3]| in_grid(n, pt(c)) && boundary(n, pt(c)) implies #[trigger] keys[lin(n, pt(c))] > 0 by {
            assert(sample_ready(n, keys, near, c));
        }
        assert forall|axis: int, b: [usize; 3]| 0 <= axis < 3 && in_grid(n, pt(b)) implies #[trigger] settled(n, keys, axis, pt(b)) by {
            assert(sample_ready(n, keys, near, b));
        }
        assert forall|c: [usize; 3], axis: int| 0 <= axis < 3 && #[trigger] edge_crosses(n, keys, pt(c), axis) implies {
            ||| near.contains(block_of(c))
            ||| exists|d: [usize; 3]| pt(d) == shift(pt(c), axis, 1) && near.contains(block_of(d))
        } by {
            assert(sample_ready(n, keys, near, c));
        }
    }
    true
}

/// The same lattice edge, seen from the cell one step further along `d`: an edge on the first
/// cell's high face across `d` is that edge of the second cell's low face.
pub open spec fn lowered(g: int, d: int) -> int {
    if d == 0 {
        if g == 5 { 4 } else if g == 11 { 10 } else if g == 7 { 6 } else { 8 }
    } else if d == 1 {
        if g == 1 { 0 } else if g == 11 { 9 } else if g == 3 { 2 } else { 8 }
    } else {
        if g == 2 { 0 } else if g == 7 { 5 } else if g == 3 { 1 } else { 4 }
    }
}

/// The corner of the first cell that is corner `k` of the cell one step further along `d`, for
/// a corner on that cell's low face.
pub open spec fn raised(k: int, d: int) -> int {
    if d == 0 { k + 1 } else if d == 1 { k + 2 } else { k + 4 }
}

/// The next cell's low face across `d` has the first cell's high face's corners.
pub open spec fn shares_face(lo: [bool; 8], up: [bool; 8], d: int) -> bool {
    forall|k: int| 0 <= k < 8 && (k / (if d == 0 { 1int } else if d == 1 { 2int } else { 4int })) % 2 == 0
        ==> #[trigger] up[k] == lo[raised(k, d)]
}

/// Across a shared face, an edge crosses in one cell as in the other, and its mate there is the
/// same edge.
proof fn lemma_shared_face(lo: [bool; 8], up: [bool; 8], d: int, g: int)
    requires
        0 <= d < 3,
        shares_face(lo, up, d),
        0 <= g < 12,
        on_face(g, 2 * d + 1),
    ensures
        on_face(lowered(g, d), 2 * d),
        crosses(up, lowered(g, d)) == crosses(lo, g),
        crosses(lo, g) && mate(lo, g, 2 * d + 1) >= 0 ==> mate(up, lowered(g, d), 2 * d) == lowered(mate(lo, g, 2 * d + 1), d),
{
    assert(up[0] == lo[raised(0, d)]) by { assert((0int / (if d == 0 { 1int } else if d == 1 { 2int } else { 4int })) % 2 == 0); }
    if d == 0 {
        assert(up[2] == lo[3]);
        assert(up[4] == lo[5]);
        assert(up[6] == lo[7]);
    } else if d == 1 {
        assert(up[1] == lo[3]);
        assert(up[4] == lo[6]);
        assert(up[5] == lo[7]);
    } else {
        assert(up[1] == lo[5]);
        assert(up[2] == lo[6]);
        assert(up[3] == lo[7]);
    }
}

/// A cell's local edge `m` is the lattice edge from its first end along `m / 4`, and the cell is
/// the one `(m % 2, m / 2 % 2)` back across it.
proof fn lemma_local_edge(p: Point, m: int)
    requires
        0 <= m < 12,
    ensures
        0 <= m / 4 < 3,
        edge_in_cell(m / 4, m % 2, (m / 2) % 2) == m,
        around_edge(cell_corner(p, edge_ends(m).0), m / 4, m % 2, (m / 2) % 2) == p,
        cell_corner(p, edge_ends(m).1) == shift(cell_corner(p, edge_ends(m).0), m / 4, 1),
{
}

/// The direction from the lower to the upper of the quad's cells `j` and `j + 1`, and which of
/// them is lower: `u` between the first two and the last two, `v` between the others.
pub open spec fn step_axis(a: int, j: int) -> int {
    if j == 0 || j == 2 { across(a).0 } else { across(a).1 }
}

/// The lower of the quad's cells `j` and `j + 1`, as a position about the edge.
pub open spec fn lower_of(j: int) -> int {
    if j == 0 { 0 } else if j == 1 { 1 } else if j == 2 { 3 } else { 0 }
}

/// The upper.
pub open spec fn upper_of(j: int) -> int {
    if j == 0 { 1 } else if j == 1 { 2 } else if j == 2 { 2 } else { 3 }
}

/// Cells `j` and `j + 1` about an edge are one step apart along `step_axis`, and the edge lies
/// on the lower cell's high face across it and on the upper's low face, as the same edge.
proof fn lemma_quad_step(c: Point, a: int, j: int)
    requires
        0 <= a < 3,
        0 <= j < 4,
    ensures
        0 <= step_axis(a, j) < 3,
        step_axis(a, j) != a,
        around_edge(c, a, quad_du(upper_of(j)), quad_dv(upper_of(j)))
            == shift(around_edge(c, a, quad_du(lower_of(j)), quad_dv(lower_of(j))), step_axis(a, j), 1),
        on_face(edge_in_cell(a, quad_du(lower_of(j)), quad_dv(lower_of(j))), 2 * step_axis(a, j) + 1),
        lowered(edge_in_cell(a, quad_du(lower_of(j)), quad_dv(lower_of(j))), step_axis(a, j))
            == edge_in_cell(a, quad_du(upper_of(j)), quad_dv(upper_of(j))),
        (lower_of(j) == j && upper_of(j) == (j + 1) % 4) || (upper_of(j) == j && lower_of(j) == (j + 1) % 4),
{
}

/// Two cells a step apart share the face between them.
proof fn lemma_shares_face(n: [usize; 3], keys: Seq<i32>, lo: Point, up: Point, d: int, slo: [bool; 8], sup: [bool; 8])
    requires
        0 <= d < 3,
        up == shift(lo, d, 1),
        signs_of(n, keys, lo, slo),
        signs_of(n, keys, up, sup),
    ensures
        shares_face(slo, sup, d),
{
    assert forall|k: int| 0 <= k < 8 && (k / (if d == 0 { 1int } else if d == 1 { 2int } else { 4int })) % 2 == 0
        implies #[trigger] sup[k] == slo[raised(k, d)] by {
        assert(cell_corner(up, k) == cell_corner(lo, raised(k, d)));
        assert(sup[k] == inside_at(n, keys, cell_corner(up, k)));
        assert(slo[raised(k, d)] == inside_at(n, keys, cell_corner(lo, raised(k, d))));
    }
}

/// The position about an edge of the cell `(du, dv)` back across it.
pub open spec fn position(du: int, dv: int) -> int {
    if du == 1 && dv == 1 { 0 } else if du == 0 && dv == 1 { 1 } else if du == 0 && dv == 0 { 2 } else { 3 }
}

/// Which step about the edge a cell's local edge `m` makes with the next cell along `d`.
pub open spec fn step_for(m: int, d: int) -> int {
    let a = m / 4;
    let lo = position(m % 2, (m / 2) % 2);
    if lo == 0 { if step_axis(a, 0) == d { 0 } else { 3 } }
    else if lo == 1 { 1 }
    else { 2 }
}

/// Seen from the edge `m` of the lower of two cells a step apart along `d`, the two cells are
/// the lower and the upper of one step about it.
proof fn lemma_step_for(m: int, d: int)
    requires
        0 <= m < 12,
        0 <= d < 3,
        on_face(m, 2 * d + 1),
    ensures
        0 <= step_for(m, d) < 4,
        step_axis(m / 4, step_for(m, d)) == d,
        position(m % 2, (m / 2) % 2) == lower_of(step_for(m, d)),
        position(lowered(m, d) % 2, (lowered(m, d) / 2) % 2) == upper_of(step_for(m, d)),
        quad_du(lower_of(step_for(m, d))) == m % 2,
        quad_dv(lower_of(step_for(m, d))) == (m / 2) % 2,
        quad_du(upper_of(step_for(m, d))) == lowered(m, d) % 2,
        quad_dv(upper_of(step_for(m, d))) == (lowered(m, d) / 2) % 2,
        lowered(m, d) / 4 == m / 4,
{
}

/// The first end of an edge on a cell's high face across `d` is that of the same edge of the
/// next cell along `d`.
proof fn lemma_lowered_corner(lo: Point, d: int, m: int)
    requires
        0 <= d < 3,
        0 <= m < 12,
        on_face(m, 2 * d + 1),
    ensures
        cell_corner(shift(lo, d, 1), edge_ends(lowered(m, d)).0) == cell_corner(lo, edge_ends(m).0),
{
}

/// The cell of `cells` based at `p`, and its vertex on its edge `e`, are those of any cell there.
proof fn lemma_vertex_at(n: [usize; 3], keys: Seq<i32>, cells: Seq<Crossed>, i: int, e: int)
    requires
        cells_ok(n, keys, cells),
        0 <= i < cells.len(),
    ensures
        vertex_at(cells, pt(cells[i].base), e) == cells[i].first + cells[i].loops[e],
{
    let p = pt(cells[i].base);
    let j = choose|j: int| 0 <= j < cells.len() && pt((#[trigger] cells[j]).base) == p;
    assert(pt(cells[j].base) == p);
    lemma_pt_injective(cells[j].base, cells[i].base);
    if j != i {
        if j < i { assert(cells[j].base != cells[i].base); } else { assert(cells[i].base != cells[j].base); }
    }
}

/// The cells `j` and `j + 1` about a crossing lattice edge, as `lower_of` and `upper_of` order
/// them.
pub open spec fn lower_cell(c: Point, a: int, j: int) -> Point {
    around_edge(c, a, quad_du(lower_of(j)), quad_dv(lower_of(j)))
}

pub open spec fn upper_cell(c: Point, a: int, j: int) -> Point {
    around_edge(c, a, quad_du(upper_of(j)), quad_dv(upper_of(j)))
}

/// In the two cells, the edge's mate on the face they share is one edge, and each cell's loop
/// through it is its loop through the edge.
#[verifier::spinoff_prover]
proof fn lemma_mate_across(n: [usize; 3], keys: Seq<i32>, cl: Crossed, cu: Crossed, c: Point, a: int, j: int) -> (ml: int)
    requires
        keys.len() == n[0] * n[1] * n[2],
        boundary_outside(n, keys),
        all_settled(n, keys),
        cell_ok(n, keys, cl),
        cell_ok(n, keys, cu),
        0 <= a < 3,
        0 <= j < 4,
        pt(cl.base) == lower_cell(c, a, j),
        pt(cu.base) == upper_cell(c, a, j),
        edge_crosses(n, keys, c, a),
    ensures
        0 <= ml < 12,
        on_face(ml, 2 * step_axis(a, j) + 1),
        crosses(cl.inside, ml),
        ml != edge_in_cell(a, quad_du(lower_of(j)), quad_dv(lower_of(j))),
        cl.loops[ml] == cl.loops[edge_in_cell(a, quad_du(lower_of(j)), quad_dv(lower_of(j)))],
        cu.loops[lowered(ml, step_axis(a, j))] == cu.loops[edge_in_cell(a, quad_du(upper_of(j)), quad_dv(upper_of(j)))],
{
    let d = step_axis(a, j);
    lemma_quad_step(c, a, j);
    let (dul, dvl) = (quad_du(lower_of(j)), quad_dv(lower_of(j)));
    let (duu, dvu) = (quad_du(upper_of(j)), quad_dv(upper_of(j)));
    let lo = lower_cell(c, a, j);
    let up = upper_cell(c, a, j);
    lemma_cell_clean(n, keys, lo, cl.inside);
    lemma_cell_clean(n, keys, up, cu.inside);
    let el = edge_in_cell(a, dul, dvl);
    let eu = edge_in_cell(a, duu, dvu);
    lemma_edge_in_cell(c, a, dul, dvl);
    assert(cl.inside[edge_ends(el).0] == inside_at(n, keys, cell_corner(lo, edge_ends(el).0)));
    assert(cl.inside[edge_ends(el).1] == inside_at(n, keys, cell_corner(lo, edge_ends(el).1)));
    assert(crosses(cl.inside, el));
    let f = 2 * d + 1;
    lemma_mate_pub(cl.inside, el, f);
    let ml = mate(cl.inside, el, f);
    lemma_shares_face(n, keys, lo, up, d, cl.inside, cu.inside);
    lemma_shared_face(cl.inside, cu.inside, d, el);
    assert(cl.loops[ml] == cl.loops[el]);
    assert(crosses(cu.inside, eu));
    assert(cu.loops[lowered(ml, d)] == cu.loops[eu]);
    ml
}

/// The mesh edge between cells `j` and `j + 1` about a crossing lattice edge is also the mesh
/// edge between the same two cells about another crossing lattice edge: the other crossing of
/// the face the two cells share, which the loops of both cells pair with the first.
#[verifier::spinoff_prover]
proof fn lemma_edge_shared(n: [usize; 3], keys: Seq<i32>, near: Seq<[usize; 3]>, cells: Seq<Crossed>,
    c: [usize; 3], a: int, j: int) -> (r: ([usize; 3], int, int))
    requires
        keys.len() == n[0] * n[1] * n[2],
        boundary_outside(n, keys),
        all_settled(n, keys),
        crossings_near(n, keys, near),
        forall|k: int| 0 <= k < near.len() ==> #[trigger] SignGrid::block_in(n, near[k]),
        cells_ok(n, keys, cells),
        forall|b: [usize; 3]| #[trigger] holds_cell(cells, b)
            <==> (is_base(n, pt(b)) && mixed(n, keys, pt(b)) && marked(n, near, block_of(b))),
        0 <= a < 3,
        0 <= j < 4,
        edge_crosses(n, keys, pt(c), a),
    ensures
        0 <= r.1 < 3,
        0 <= r.2 < 4,
        edge_crosses(n, keys, pt(r.0), r.1),
        !(r.0 == c && r.1 == a),
        quad_vertex(cells, pt(c), a, lower_of(j)) == quad_vertex(cells, pt(r.0), r.1, lower_of(r.2)),
        quad_vertex(cells, pt(c), a, upper_of(j)) == quad_vertex(cells, pt(r.0), r.1, upper_of(r.2)),
{
    let d = step_axis(a, j);
    lemma_quad_step(pt(c), a, j);
    let (dul, dvl) = (quad_du(lower_of(j)), quad_dv(lower_of(j)));
    let (duu, dvu) = (quad_du(upper_of(j)), quad_dv(upper_of(j)));
    let lo = lower_cell(pt(c), a, j);
    let up = upper_cell(pt(c), a, j);
    lemma_around_crossing(n, keys, near, c, a, dul, dvl);
    lemma_around_crossing(n, keys, near, c, a, duu, dvu);
    assert(holds_cell(cells, at(lo)));
    assert(holds_cell(cells, at(up)));
    let il = choose|i: int| 0 <= i < cells.len() && (#[trigger] cells[i]).base == at(lo);
    let iu = choose|i: int| 0 <= i < cells.len() && (#[trigger] cells[i]).base == at(up);
    let cl = cells[il];
    let cu = cells[iu];
    assert(cell_ok(n, keys, cl) && cell_ok(n, keys, cu));
    let ml = lemma_mate_across(n, keys, cl, cu, pt(c), a, j);
    let el = edge_in_cell(a, dul, dvl);
    let eu = edge_in_cell(a, duu, dvu);
    let mu = lowered(ml, d);
    // The mate as a lattice edge.
    lemma_local_edge(lo, ml);
    let cm = cell_corner(lo, edge_ends(ml).0);
    let am = ml / 4;
    lemma_step_for(ml, d);
    let jm = step_for(ml, d);
    lemma_lowered_corner(lo, d, ml);
    lemma_local_edge(up, mu);
    assert(cl.inside[edge_ends(ml).0] == inside_at(n, keys, cell_corner(lo, edge_ends(ml).0)));
    assert(cl.inside[edge_ends(ml).1] == inside_at(n, keys, cell_corner(lo, edge_ends(ml).1)));
    let r0 = at(cm);
    assert(pt(r0) == cm);
    assert(edge_crosses(n, keys, pt(r0), am));
    // Not the edge itself: a cell's two edges at one place along one axis are one.
    if r0 == c && am == a {
        assert(lo == around_edge(pt(c), a, ml % 2, (ml / 2) % 2));
        assert(ml % 2 == dul && (ml / 2) % 2 == dvl);
        lemma_edge_in_cell(pt(c), a, dul, dvl);
        assert(ml == el);
    }
    // The vertices.
    lemma_vertex_at(n, keys, cells, il, el);
    lemma_vertex_at(n, keys, cells, il, ml);
    lemma_vertex_at(n, keys, cells, iu, eu);
    lemma_vertex_at(n, keys, cells, iu, mu);
    assert(quad_vertex(cells, pt(r0), am, lower_of(jm)) == vertex_at(cells, lo, ml));
    assert(quad_vertex(cells, pt(r0), am, upper_of(jm)) == vertex_at(cells, up, mu));
    (r0, am, jm)
}

/// Corners `i` and `i + 1` of `q` are the vertices `x` and `y`, one way round or the other.
pub open spec fn joins(q: Quad, i: int, x: int, y: int) -> bool {
    (q.corners[i] == x && q.corners[(i + 1) % 4] == y) || (q.corners[i] == y && q.corners[(i + 1) % 4] == x)
}

/// The step about a quad's edge whose two cells are its corners `i` and `i + 1`, once the quad
/// has been turned outward.
pub open spec fn step_of(i: int, reversed: bool) -> int {
    if !reversed { i } else if i == 3 { 3 } else { 2 - i }
}

proof fn lemma_step_of(n: [usize; 3], keys: Seq<i32>, cells: Seq<Crossed>, vertices: nat, q: Quad, i: int)
    requires
        quad_ok(n, keys, cells, vertices, q),
        0 <= i < 4,
    ensures
        ({
            let rev = (q.axis == 1) == inside_at(n, keys, pt(q.base));
            let s = step_of(i, rev);
            &&& 0 <= s < 4
            &&& joins(q, i, quad_vertex(cells, pt(q.base), q.axis as int, lower_of(s)),
                    quad_vertex(cells, pt(q.base), q.axis as int, upper_of(s)))
        }),
{
    let rev = (q.axis == 1) == inside_at(n, keys, pt(q.base));
    assert(q.corners[i] == (if rev { quad_vertex(cells, pt(q.base), q.axis as int, 3 - i) } else { quad_vertex(cells, pt(q.base), q.axis as int, i) }));
    let i1 = (i + 1) % 4;
    assert(q.corners[i1] == (if rev { quad_vertex(cells, pt(q.base), q.axis as int, 3 - i1) } else { quad_vertex(cells, pt(q.base), q.axis as int, i1) }));
}

/// The mesh is closed: each edge of each quad, between two of its corners, is an edge of
/// another quad too, between the same two vertices.
#[verifier::spinoff_prover]
pub proof fn law_the_mesh_is_closed(grid: SignGrid, mesh: Mesh, k: int, i: int)
    requires
        grid.wf(),
        boundary_outside(grid.n, grid.keys@),
        all_settled(grid.n, grid.keys@),
        crossings_near(grid.n, grid.keys@, grid.near@),
        cells_ok(grid.n, grid.keys@, mesh.cells@),
        forall|b: [usize; 3]| #[trigger] holds_cell(mesh.cells@, b)
            <==> (is_base(grid.n, pt(b)) && mixed(grid.n, grid.keys@, pt(b)) && marked(grid.n, grid.near@, block_of(b))),
        forall|k2: int| 0 <= k2 < mesh.quads@.len() ==> quad_ok(grid.n, grid.keys@, mesh.cells@, mesh.vertices as nat, #[trigger] mesh.quads@[k2]),
        forall|c: [usize; 3], axis: int| 0 <= axis < 3 && #[trigger] edge_crosses(grid.n, grid.keys@, pt(c), axis)
            ==> has_quad(mesh.quads@, c, axis),
        0 <= k < mesh.quads@.len(),
        0 <= i < 4,
    ensures
        exists|l: int, i2: int| 0 <= l < mesh.quads@.len() && l != k && 0 <= i2 < 4
            && #[trigger] joins(mesh.quads@[l], i2, mesh.quads@[k].corners[i] as int, mesh.quads@[k].corners[(i + 1) % 4] as int),
{
    let n = grid.n;
    let keys = grid.keys@;
    let cells = mesh.cells@;
    let quads = mesh.quads@;
    let q = quads[k];
    assert(quad_ok(n, keys, cells, mesh.vertices as nat, q));
    let rev = (q.axis == 1) == inside_at(n, keys, pt(q.base));
    lemma_step_of(n, keys, cells, mesh.vertices as nat, q, i);
    let s = step_of(i, rev);
    let (cm, am, jm) = lemma_edge_shared(n, keys, grid.near@, cells, q.base, q.axis as int, s);
    assert(has_quad(quads, cm, am));
    let l = choose|l: int| 0 <= l < quads.len() && (#[trigger] quads[l]).base == cm && quads[l].axis == am;
    let ql = quads[l];
    assert(quad_ok(n, keys, cells, mesh.vertices as nat, ql));
    let revl = (ql.axis == 1) == inside_at(n, keys, pt(ql.base));
    let il = step_of(jm, revl);
    assert(step_of(il, revl) == jm) by {
        if !revl {} else if jm == 3 {} else {}
    }
    assert(0 <= il < 4);
    lemma_step_of(n, keys, cells, mesh.vertices as nat, ql, il);
    assert(l != k);
    assert(joins(quads[l], il, q.corners[i] as int, q.corners[(i + 1) % 4] as int));
}

/// Later cells number later vertices.
proof fn lemma_counted_mono(cells: Seq<Crossed>, i: int, j: int)
    requires
        0 <= i <= j <= cells.len(),
    ensures
        counted(cells.take(i)) <= counted(cells.take(j)),
    decreases j - i,
{
    if i < j {
        lemma_counted_mono(cells, i, j - 1);
        assert(cells.take(j).drop_last() =~= cells.take(j - 1));
    }
}

/// A cell's vertices are its own: two cells' vertices on edges that cross are one only when the
/// cells are one.
proof fn lemma_vertex_owner(n: [usize; 3], keys: Seq<i32>, cells: Seq<Crossed>, i: int, e: int, i2: int, e2: int)
    requires
        cells_ok(n, keys, cells),
        0 <= i < cells.len(),
        0 <= i2 < cells.len(),
        0 <= e < 12,
        0 <= e2 < 12,
        crosses(cells[i].inside, e),
        crosses(cells[i2].inside, e2),
        cells[i].first + cells[i].loops[e] == cells[i2].first + cells[i2].loops[e2],
    ensures
        i == i2,
{
    assert(cell_ok(n, keys, cells[i]) && cell_ok(n, keys, cells[i2]));
    assert(cells[i].loops[e] < cells[i].count);
    assert(cells[i2].loops[e2] < cells[i2].count);
    if i < i2 {
        lemma_counted_mono(cells, i + 1, i2);
        assert(cells.take(i + 1).drop_last() =~= cells.take(i));
        assert(cells.take(i + 1).last() == cells[i]);
    } else if i2 < i {
        lemma_counted_mono(cells, i2 + 1, i);
        assert(cells.take(i2 + 1).drop_last() =~= cells.take(i2));
        assert(cells.take(i2 + 1).last() == cells[i2]);
    }
}

/// A clean face with two crossing edges has no third.
proof fn lemma_face_two(inside: [bool; 8], f: int, e: int, g: int, h: int)
    requires
        clean_cell(inside),
        0 <= f < 6,
        0 <= e < 12,
        0 <= g < 12,
        0 <= h < 12,
        on_face(e, f),
        on_face(g, f),
        on_face(h, f),
        crosses(inside, e),
        crosses(inside, g),
        crosses(inside, h),
        e != g,
    ensures
        h == e || h == g,
{
    assert(crossings_on(inside, f) != 4);
}
/// The two cells of a quad's step `s` about its edge, the lower and the upper, and each one's
/// vertex there: its loop through its own copy of the edge, which crosses.
#[verifier::spinoff_prover]
proof fn lemma_quad_side(n: [usize; 3], keys: Seq<i32>, near: Seq<[usize; 3]>, cells: Seq<Crossed>,
    vertices: nat, q: Quad, s: int) -> (r: (int, int))
    requires
        keys.len() == n[0] * n[1] * n[2],
        boundary_outside(n, keys),
        crossings_near(n, keys, near),
        forall|k: int| 0 <= k < near.len() ==> #[trigger] SignGrid::block_in(n, near[k]),
        cells_ok(n, keys, cells),
        forall|b: [usize; 3]| #[trigger] holds_cell(cells, b)
            <==> (is_base(n, pt(b)) && mixed(n, keys, pt(b)) && marked(n, near, block_of(b))),
        quad_ok(n, keys, cells, vertices, q),
        0 <= s < 4,
    ensures
        ({
            let (il, iu) = r;
            let c = pt(q.base);
            let a = q.axis as int;
            let el = edge_in_cell(a, quad_du(lower_of(s)), quad_dv(lower_of(s)));
            let eu = edge_in_cell(a, quad_du(upper_of(s)), quad_dv(upper_of(s)));
            &&& 0 <= il < cells.len()
            &&& 0 <= iu < cells.len()
            &&& pt(cells[il].base) == lower_cell(c, a, s)
            &&& pt(cells[iu].base) == shift(lower_cell(c, a, s), step_axis(a, s), 1)
            &&& 0 <= step_axis(a, s) < 3
            &&& 0 <= el < 12
            &&& 0 <= eu < 12
            &&& on_face(el, 2 * step_axis(a, s) + 1)
            &&& crosses(cells[il].inside, el)
            &&& crosses(cells[iu].inside, eu)
            &&& quad_vertex(cells, c, a, lower_of(s)) == cells[il].first + cells[il].loops[el]
            &&& quad_vertex(cells, c, a, upper_of(s)) == cells[iu].first + cells[iu].loops[eu]
        }),
{
    let c = pt(q.base);
    let a = q.axis as int;
    lemma_quad_step(c, a, s);
    let (dul, dvl) = (quad_du(lower_of(s)), quad_dv(lower_of(s)));
    let (duu, dvu) = (quad_du(upper_of(s)), quad_dv(upper_of(s)));
    let lo = lower_cell(c, a, s);
    let up = upper_cell(c, a, s);
    lemma_around_crossing(n, keys, near, q.base, a, dul, dvl);
    lemma_around_crossing(n, keys, near, q.base, a, duu, dvu);
    assert(holds_cell(cells, at(lo)));
    assert(holds_cell(cells, at(up)));
    let il = choose|i: int| 0 <= i < cells.len() && (#[trigger] cells[i]).base == at(lo);
    let iu = choose|i: int| 0 <= i < cells.len() && (#[trigger] cells[i]).base == at(up);
    assert(cell_ok(n, keys, cells[il]) && cell_ok(n, keys, cells[iu]));
    let el = edge_in_cell(a, dul, dvl);
    let eu = edge_in_cell(a, duu, dvu);
    lemma_edge_in_cell(c, a, dul, dvl);
    lemma_edge_in_cell(c, a, duu, dvu);
    assert(cells[il].inside[edge_ends(el).0] == inside_at(n, keys, cell_corner(lo, edge_ends(el).0)));
    assert(cells[il].inside[edge_ends(el).1] == inside_at(n, keys, cell_corner(lo, edge_ends(el).1)));
    assert(cells[iu].inside[edge_ends(eu).0] == inside_at(n, keys, cell_corner(up, edge_ends(eu).0)));
    assert(cells[iu].inside[edge_ends(eu).1] == inside_at(n, keys, cell_corner(up, edge_ends(eu).1)));
    lemma_vertex_at(n, keys, cells, il, el);
    lemma_vertex_at(n, keys, cells, iu, eu);
    (il, iu)
}

/// Two quads that join one pair of vertices at a step each make it about the same two cells,
/// lower and upper alike.
proof fn lemma_same_step(n: [usize; 3], keys: Seq<i32>, cells: Seq<Crossed>,
    p: Point, d: int, il: int, iu: int, el: int, eu: int,
    p2: Point, d2: int, il2: int, iu2: int, el2: int, eu2: int)
    requires
        cells_ok(n, keys, cells),
        0 <= d < 3,
        0 <= d2 < 3,
        0 <= il < cells.len(),
        0 <= iu < cells.len(),
        0 <= il2 < cells.len(),
        0 <= iu2 < cells.len(),
        0 <= el < 12,
        0 <= eu < 12,
        0 <= el2 < 12,
        0 <= eu2 < 12,
        pt(cells[il].base) == p,
        pt(cells[iu].base) == shift(p, d, 1),
        pt(cells[il2].base) == p2,
        pt(cells[iu2].base) == shift(p2, d2, 1),
        crosses(cells[il].inside, el),
        crosses(cells[iu].inside, eu),
        crosses(cells[il2].inside, el2),
        crosses(cells[iu2].inside, eu2),
        ({
            let x = cells[il].first + cells[il].loops[el];
            let y = cells[iu].first + cells[iu].loops[eu];
            let x2 = cells[il2].first + cells[il2].loops[el2];
            let y2 = cells[iu2].first + cells[iu2].loops[eu2];
            (x2 == x && y2 == y) || (x2 == y && y2 == x)
        }),
    ensures
        il2 == il,
        iu2 == iu,
        d2 == d,
        cells[il].first + cells[il].loops[el] == cells[il2].first + cells[il2].loops[el2],
        cells[iu].first + cells[iu].loops[eu] == cells[iu2].first + cells[iu2].loops[eu2],
        cells[il].first + cells[il].loops[el] != cells[iu].first + cells[iu].loops[eu],
{
    let x = cells[il].first + cells[il].loops[el];
    let y = cells[iu].first + cells[iu].loops[eu];
    let x2 = cells[il2].first + cells[il2].loops[el2];
    let y2 = cells[iu2].first + cells[iu2].loops[eu2];
    if x2 == y && y2 == x {
        lemma_vertex_owner(n, keys, cells, iu, eu, il2, el2);
        lemma_vertex_owner(n, keys, cells, il, el, iu2, eu2);
        // Then each cell would lie a step beyond the other.
        assert(pt(cells[il].base) == shift(shift(p, d, 1), d2, 1));
        assert(false);
    }
    lemma_vertex_owner(n, keys, cells, il, el, il2, el2);
    lemma_vertex_owner(n, keys, cells, iu, eu, iu2, eu2);
    if x == y {
        lemma_vertex_owner(n, keys, cells, il, el, iu, eu);
    }
}

/// A side of a quad's edge as the cells see it, `(lower cell, upper cell, the lower's local
/// edge, the upper's, the step between them)`, for the quad about the lattice edge from `c`
/// along `a`.
spec fn side_ok(cells: Seq<Crossed>, sd: (int, int, int, int, int), c: Point, a: int) -> bool {
    let (il, iu, el, eu, d) = sd;
    &&& 0 <= il < cells.len()
    &&& 0 <= iu < cells.len()
    &&& 0 <= el < 12
    &&& 0 <= eu < 12
    &&& 0 <= d < 3
    &&& pt(cells[iu].base) == shift(pt(cells[il].base), d, 1)
    &&& on_face(el, 2 * d + 1)
    &&& crosses(cells[il].inside, el)
    &&& crosses(cells[iu].inside, eu)
    &&& c == cell_corner(pt(cells[il].base), edge_ends(el).0)
    &&& a == el / 4
}

/// The side's vertex in its lower cell.
spec fn side_lo(cells: Seq<Crossed>, sd: (int, int, int, int, int)) -> int {
    cells[sd.0].first + cells[sd.0].loops[sd.2]
}

/// And in its upper cell.
spec fn side_hi(cells: Seq<Crossed>, sd: (int, int, int, int, int)) -> int {
    cells[sd.1].first + cells[sd.1].loops[sd.3]
}

/// Which way round the quad's edge `i` runs: from the side's lower vertex to its upper where the
/// lower cell sees it [`forward`], else back.
#[verifier::opaque]
spec fn turned(cells: Seq<Crossed>, q: Quad, i: int, sd: (int, int, int, int, int)) -> bool {
    if forward(cells[sd.0].inside, sd.2, sd.4) {
        q.corners[i] == side_lo(cells, sd) && q.corners[(i + 1) % 4] == side_hi(cells, sd)
    } else {
        q.corners[i] == side_hi(cells, sd) && q.corners[(i + 1) % 4] == side_lo(cells, sd)
    }
}

/// The `j`th of four values.
spec fn pick(v0: int, v1: int, v2: int, v3: int, j: int) -> int {
    if j == 0 { v0 } else if j == 1 { v1 } else if j == 2 { v2 } else { v3 }
}

/// A quad's corners are its four vertices in turn or the other way round; its edge `i` then
/// runs from the lower to the upper of its step exactly when the step is one of the first two
/// and the quad is not turned, or the other way.
proof fn lemma_turn_of(corners: [u32; 4], i: int, rev: bool, v0: int, v1: int, v2: int, v3: int)
    requires
        0 <= i < 4,
        corners[0] == (if rev { v3 } else { v0 }),
        corners[1] == (if rev { v2 } else { v1 }),
        corners[2] == (if rev { v1 } else { v2 }),
        corners[3] == (if rev { v0 } else { v3 }),
    ensures
        ({
            let s = step_of(i, rev);
            if (s < 2) != rev {
                corners[i] == pick(v0, v1, v2, v3, lower_of(s)) && corners[(i + 1) % 4] == pick(v0, v1, v2, v3, upper_of(s))
            } else {
                corners[i] == pick(v0, v1, v2, v3, upper_of(s)) && corners[(i + 1) % 4] == pick(v0, v1, v2, v3, lower_of(s))
            }
        }),
{
}

/// The side of a quad's edge `i`: the two cells whose vertices it joins.
#[verifier::spinoff_prover]
#[verifier::rlimit(30)]
proof fn lemma_edge_side(n: [usize; 3], keys: Seq<i32>, near: Seq<[usize; 3]>, cells: Seq<Crossed>,
    vs: nat, q: Quad, i: int) -> (sd: (int, int, int, int, int))
    requires
        keys.len() == n[0] * n[1] * n[2],
        boundary_outside(n, keys),
        crossings_near(n, keys, near),
        forall|k: int| 0 <= k < near.len() ==> #[trigger] SignGrid::block_in(n, near[k]),
        cells_ok(n, keys, cells),
        forall|b: [usize; 3]| #[trigger] holds_cell(cells, b)
            <==> (is_base(n, pt(b)) && mixed(n, keys, pt(b)) && marked(n, near, block_of(b))),
        quad_ok(n, keys, cells, vs, q),
        0 <= i < 4,
    ensures
        side_ok(cells, sd, pt(q.base), q.axis as int),
        joins(q, i, side_lo(cells, sd), side_hi(cells, sd)),
        turned(cells, q, i, sd),
{
    let rev = (q.axis == 1) == inside_at(n, keys, pt(q.base));
    let s = step_of(i, rev);
    lemma_step_of(n, keys, cells, vs, q, i);
    let (il, iu) = lemma_quad_side(n, keys, near, cells, vs, q, s);
    let a = q.axis as int;
    let (du, dv) = (quad_du(lower_of(s)), quad_dv(lower_of(s)));
    lemma_edge_in_cell(pt(q.base), a, du, dv);
    let el = edge_in_cell(a, du, dv);
    let d = step_axis(a, s);
    let sd = (il, iu, el, edge_in_cell(a, quad_du(upper_of(s)), quad_dv(upper_of(s))), d);
    assert(turned(cells, q, i, sd)) by {
        reveal(turned);
        // The step is the one the lower cell's local edge makes along `d`.
        lemma_step_for(el, d);
        assert(step_for(el, d) == s);
        // The quad is turned as the lattice edge's first end, a corner of the lower cell, says.
        assert(cell_ok(n, keys, cells[il]));
        assert(cells[il].inside[edge_ends(el).0] == inside_at(n, keys, cell_corner(pt(cells[il].base), edge_ends(el).0)));
        assert(rev == ((el / 4 == 1) == cells[il].inside[edge_ends(el).0]));
        let c = pt(q.base);
        assert(q.corners[0] == (if rev { quad_vertex(cells, c, a, 3) } else { quad_vertex(cells, c, a, 0) }));
        assert(q.corners[1] == (if rev { quad_vertex(cells, c, a, 2) } else { quad_vertex(cells, c, a, 1) }));
        assert(q.corners[2] == (if rev { quad_vertex(cells, c, a, 1) } else { quad_vertex(cells, c, a, 2) }));
        assert(q.corners[3] == (if rev { quad_vertex(cells, c, a, 0) } else { quad_vertex(cells, c, a, 3) }));
        lemma_turn_of(q.corners, i, rev, quad_vertex(cells, c, a, 0), quad_vertex(cells, c, a, 1),
            quad_vertex(cells, c, a, 2), quad_vertex(cells, c, a, 3));
    }
    sd
}

/// Three sides that join one pair of vertices, the second and third about lattice edges other
/// than the first's, are about one lattice edge: the face of the cell they cross holds two.
#[verifier::spinoff_prover]
proof fn lemma_third_side(n: [usize; 3], keys: Seq<i32>, cells: Seq<Crossed>,
    sk: (int, int, int, int, int), ck: Point, ak: int,
    sl: (int, int, int, int, int), cl: Point, al: int,
    sm: (int, int, int, int, int), cm: Point, am: int)
    requires
        keys.len() == n[0] * n[1] * n[2],
        boundary_outside(n, keys),
        all_settled(n, keys),
        cells_ok(n, keys, cells),
        side_ok(cells, sk, ck, ak),
        side_ok(cells, sl, cl, al),
        side_ok(cells, sm, cm, am),
        (side_lo(cells, sl) == side_lo(cells, sk) && side_hi(cells, sl) == side_hi(cells, sk))
            || (side_lo(cells, sl) == side_hi(cells, sk) && side_hi(cells, sl) == side_lo(cells, sk)),
        (side_lo(cells, sm) == side_lo(cells, sk) && side_hi(cells, sm) == side_hi(cells, sk))
            || (side_lo(cells, sm) == side_hi(cells, sk) && side_hi(cells, sm) == side_lo(cells, sk)),
        !(cl == ck && al == ak),
        !(cm == ck && am == ak),
    ensures
        cm == cl,
        am == al,
{
    let (ilk, iuk, elk, euk, dk) = sk;
    lemma_same_step(n, keys, cells, pt(cells[ilk].base), dk, ilk, iuk, elk, euk,
        pt(cells[sl.0].base), sl.4, sl.0, sl.1, sl.2, sl.3);
    lemma_same_step(n, keys, cells, pt(cells[ilk].base), dk, ilk, iuk, elk, euk,
        pt(cells[sm.0].base), sm.4, sm.0, sm.1, sm.2, sm.3);
    let c = cells[ilk];
    assert(cell_ok(n, keys, c));
    lemma_cell_clean(n, keys, pt(c.base), c.inside);
    if elk == sl.2 {
        assert(false);
    }
    lemma_face_two(c.inside, 2 * dk + 1, elk, sl.2, sm.2);
}

/// The mesh is manifold at its edges: the quads that join the two ends of an edge of a quad are
/// that quad and one other, so a third that joins them is one of the two.
#[verifier::spinoff_prover]
pub proof fn law_an_edge_is_in_two_quads(grid: SignGrid, mesh: Mesh, k: int, i: int, l: int, i2: int, m: int, i3: int)
    requires
        grid.wf(),
        boundary_outside(grid.n, grid.keys@),
        all_settled(grid.n, grid.keys@),
        crossings_near(grid.n, grid.keys@, grid.near@),
        cells_ok(grid.n, grid.keys@, mesh.cells@),
        forall|b: [usize; 3]| #[trigger] holds_cell(mesh.cells@, b)
            <==> (is_base(grid.n, pt(b)) && mixed(grid.n, grid.keys@, pt(b)) && marked(grid.n, grid.near@, block_of(b))),
        forall|k2: int| 0 <= k2 < mesh.quads@.len() ==> quad_ok(grid.n, grid.keys@, mesh.cells@, mesh.vertices as nat, #[trigger] mesh.quads@[k2]),
        forall|k2: int, l2: int| 0 <= k2 < l2 < mesh.quads@.len()
            ==> !((#[trigger] mesh.quads@[k2]).base == (#[trigger] mesh.quads@[l2]).base && mesh.quads@[k2].axis == mesh.quads@[l2].axis),
        0 <= k < mesh.quads@.len(),
        0 <= l < mesh.quads@.len(),
        0 <= m < mesh.quads@.len(),
        0 <= i < 4,
        0 <= i2 < 4,
        0 <= i3 < 4,
        l != k,
        m != k,
        joins(mesh.quads@[l], i2, mesh.quads@[k].corners[i] as int, mesh.quads@[k].corners[(i + 1) % 4] as int),
        joins(mesh.quads@[m], i3, mesh.quads@[k].corners[i] as int, mesh.quads@[k].corners[(i + 1) % 4] as int),
    ensures
        m == l,
{
    let n = grid.n;
    let keys = grid.keys@;
    let cells = mesh.cells@;
    let quads = mesh.quads@;
    let vs = mesh.vertices as nat;
    let (qk, ql, qm) = (quads[k], quads[l], quads[m]);
    assert(quad_ok(n, keys, cells, vs, qk));
    assert(quad_ok(n, keys, cells, vs, ql));
    assert(quad_ok(n, keys, cells, vs, qm));
    let sk = lemma_edge_side(n, keys, grid.near@, cells, vs, qk, i);
    let sl = lemma_edge_side(n, keys, grid.near@, cells, vs, ql, i2);
    let sm = lemma_edge_side(n, keys, grid.near@, cells, vs, qm, i3);
    // Distinct quads are about distinct lattice edges.
    lemma_quads_apart(quads, l, k);
    lemma_quads_apart(quads, m, k);
    lemma_third_side(n, keys, cells, sk, pt(qk.base), qk.axis as int, sl, pt(ql.base), ql.axis as int,
        sm, pt(qm.base), qm.axis as int);
    if m != l {
        lemma_quads_apart(quads, m, l);
    }
}

/// Two quads of a mesh are about two lattice edges.
proof fn lemma_quads_apart(quads: Seq<Quad>, k: int, l: int)
    requires
        forall|k2: int, l2: int| 0 <= k2 < l2 < quads.len()
            ==> !((#[trigger] quads[k2]).base == (#[trigger] quads[l2]).base && quads[k2].axis == quads[l2].axis),
        0 <= k < quads.len(),
        0 <= l < quads.len(),
        k != l,
    ensures
        !(pt(quads[k].base) == pt(quads[l].base) && quads[k].axis as int == quads[l].axis as int),
{
    if pt(quads[k].base) == pt(quads[l].base) {
        lemma_pt_injective(quads[k].base, quads[l].base);
    }
    if k < l { assert(!(quads[k].base == quads[l].base && quads[k].axis == quads[l].axis)); }
    else { assert(!(quads[l].base == quads[k].base && quads[l].axis == quads[k].axis)); }
}
/// Whether a quad's edge runs from its lower cell's vertex to its upper's, seen from the lower
/// cell: its local edge `e`, on its high face across `d`.
spec fn forward(inside: [bool; 8], e: int, d: int) -> bool {
    (step_for(e, d) < 2) != ((e / 4 == 1) == inside[edge_ends(e).0])
}

/// The two crossings of a cell's high face across `d` are turned opposite ways.
proof fn lemma_face_turns(inside: [bool; 8], d: int, e1: int, e2: int)
    requires
        0 <= d < 3,
        0 <= e1 < 12,
        0 <= e2 < 12,
        on_face(e1, 2 * d + 1),
        on_face(e2, 2 * d + 1),
        crosses(inside, e1),
        crosses(inside, e2),
        e1 != e2,
        crossings_on(inside, 2 * d + 1) != 4,
    ensures
        forward(inside, e1, d) != forward(inside, e2, d),
{
}
/// The mesh is oriented: an edge of a quad runs the other way round in the other quad that
/// joins its two ends, so every quad faces the same side of the surface as its neighbors.
#[verifier::spinoff_prover]
pub proof fn law_the_mesh_is_oriented(grid: SignGrid, mesh: Mesh, k: int, i: int, l: int, i2: int)
    requires
        grid.wf(),
        boundary_outside(grid.n, grid.keys@),
        all_settled(grid.n, grid.keys@),
        crossings_near(grid.n, grid.keys@, grid.near@),
        cells_ok(grid.n, grid.keys@, mesh.cells@),
        forall|b: [usize; 3]| #[trigger] holds_cell(mesh.cells@, b)
            <==> (is_base(grid.n, pt(b)) && mixed(grid.n, grid.keys@, pt(b)) && marked(grid.n, grid.near@, block_of(b))),
        forall|k2: int| 0 <= k2 < mesh.quads@.len() ==> quad_ok(grid.n, grid.keys@, mesh.cells@, mesh.vertices as nat, #[trigger] mesh.quads@[k2]),
        forall|k2: int, l2: int| 0 <= k2 < l2 < mesh.quads@.len()
            ==> !((#[trigger] mesh.quads@[k2]).base == (#[trigger] mesh.quads@[l2]).base && mesh.quads@[k2].axis == mesh.quads@[l2].axis),
        0 <= k < mesh.quads@.len(),
        0 <= l < mesh.quads@.len(),
        0 <= i < 4,
        0 <= i2 < 4,
        l != k,
        joins(mesh.quads@[l], i2, mesh.quads@[k].corners[i] as int, mesh.quads@[k].corners[(i + 1) % 4] as int),
    ensures
        mesh.quads@[l].corners[i2] == mesh.quads@[k].corners[(i + 1) % 4],
        mesh.quads@[l].corners[(i2 + 1) % 4] == mesh.quads@[k].corners[i],
{
    let n = grid.n;
    let keys = grid.keys@;
    let cells = mesh.cells@;
    let quads = mesh.quads@;
    let vs = mesh.vertices as nat;
    let (qk, ql) = (quads[k], quads[l]);
    assert(quad_ok(n, keys, cells, vs, qk));
    assert(quad_ok(n, keys, cells, vs, ql));
    let sk = lemma_edge_side(n, keys, grid.near@, cells, vs, qk, i);
    let sl = lemma_edge_side(n, keys, grid.near@, cells, vs, ql, i2);
    let (ilk, iuk, elk, euk, dk) = sk;
    lemma_same_step(n, keys, cells, pt(cells[ilk].base), dk, ilk, iuk, elk, euk,
        pt(cells[sl.0].base), sl.4, sl.0, sl.1, sl.2, sl.3);
    // The two quads are about distinct lattice edges, so their edges in the lower cell differ.
    lemma_quads_apart(quads, k, l);
    if elk == sl.2 {
        assert(false);
    }
    let c = cells[ilk];
    assert(cell_ok(n, keys, c));
    lemma_cell_clean(n, keys, pt(c.base), c.inside);
    assert(crossings_on(c.inside, 2 * dk + 1) != 4);
    lemma_face_turns(c.inside, dk, elk, sl.2);
    reveal(turned);
}
/// Which cell of `cells` is based at a point is one: cells are based apart.
proof fn lemma_cell_index(n: [usize; 3], keys: Seq<i32>, cells: Seq<Crossed>, i: int, j: int)
    requires
        cells_ok(n, keys, cells),
        0 <= i < cells.len(),
        0 <= j < cells.len(),
        pt(cells[i].base) == pt(cells[j].base),
    ensures
        i == j,
{
    lemma_pt_injective(cells[i].base, cells[j].base);
    if i < j { assert(cells[i].base != cells[j].base); } else if j < i { assert(cells[j].base != cells[i].base); }
}

/// The cell a quad's corner `j` belongs to, and the cell's edge whose loop it is: the quad's
/// own lattice edge, seen from that cell.
#[verifier::spinoff_prover]
proof fn lemma_corner_cell(n: [usize; 3], keys: Seq<i32>, near: Seq<[usize; 3]>, cells: Seq<Crossed>,
    vs: nat, q: Quad, j: int) -> (r: (int, int))
    requires
        keys.len() == n[0] * n[1] * n[2],
        boundary_outside(n, keys),
        crossings_near(n, keys, near),
        forall|k: int| 0 <= k < near.len() ==> #[trigger] SignGrid::block_in(n, near[k]),
        cells_ok(n, keys, cells),
        forall|b: [usize; 3]| #[trigger] holds_cell(cells, b)
            <==> (is_base(n, pt(b)) && mixed(n, keys, pt(b)) && marked(n, near, block_of(b))),
        quad_ok(n, keys, cells, vs, q),
        0 <= j < 4,
    ensures
        0 <= r.0 < cells.len(),
        0 <= r.1 < 12,
        crosses(cells[r.0].inside, r.1),
        q.corners[j] == cells[r.0].first + cells[r.0].loops[r.1],
        pt(q.base) == cell_corner(pt(cells[r.0].base), edge_ends(r.1).0),
        q.axis == r.1 / 4,
{
    let c = pt(q.base);
    let a = q.axis as int;
    let rev = (a == 1) == inside_at(n, keys, c);
    let jj = if rev { 3 - j } else { j };
    assert(q.corners[j] == quad_vertex(cells, c, a, jj));
    let (du, dv) = (quad_du(jj), quad_dv(jj));
    let cp = around_edge(c, a, du, dv);
    lemma_around_crossing(n, keys, near, q.base, a, du, dv);
    assert(holds_cell(cells, at(cp)));
    let ic = choose|i: int| 0 <= i < cells.len() && (#[trigger] cells[i]).base == at(cp);
    assert(cell_ok(n, keys, cells[ic]));
    let e = edge_in_cell(a, du, dv);
    lemma_edge_in_cell(c, a, du, dv);
    assert(cells[ic].inside[edge_ends(e).0] == inside_at(n, keys, cell_corner(cp, edge_ends(e).0)));
    assert(cells[ic].inside[edge_ends(e).1] == inside_at(n, keys, cell_corner(cp, edge_ends(e).1)));
    lemma_vertex_at(n, keys, cells, ic, e);
    (ic, e)
}

/// The quad about the lattice edge that is edge `e` of the cell at `p`.
pub open spec fn quad_of(quads: Seq<Quad>, p: Point, e: int) -> int {
    choose|k: int| 0 <= k < quads.len() && pt((#[trigger] quads[k]).base) == cell_corner(p, edge_ends(e).0)
        && quads[k].axis == e / 4
}

/// A crossing edge of a crossed cell has its quad.
proof fn lemma_quad_of(n: [usize; 3], keys: Seq<i32>, cells: Seq<Crossed>, quads: Seq<Quad>, ic: int, e: int)
    requires
        cells_ok(n, keys, cells),
        forall|c: [usize; 3], axis: int| 0 <= axis < 3 && #[trigger] edge_crosses(n, keys, pt(c), axis)
            ==> has_quad(quads, c, axis),
        0 <= ic < cells.len(),
        0 <= e < 12,
        crosses(cells[ic].inside, e),
    ensures
        ({
            let k = quad_of(quads, pt(cells[ic].base), e);
            &&& 0 <= k < quads.len()
            &&& pt(quads[k].base) == cell_corner(pt(cells[ic].base), edge_ends(e).0)
            &&& quads[k].axis == e / 4
        }),
{
    let p = pt(cells[ic].base);
    assert(cell_ok(n, keys, cells[ic]));
    lemma_local_edge(p, e);
    let c = cell_corner(p, edge_ends(e).0);
    assert(cells[ic].inside[edge_ends(e).0] == inside_at(n, keys, c));
    assert(cells[ic].inside[edge_ends(e).1] == inside_at(n, keys, cell_corner(p, edge_ends(e).1)));
    assert(pt(at(c)) == c);
    assert(edge_crosses(n, keys, pt(at(c)), e / 4));
    assert(has_quad(quads, at(c), e / 4));
    let k = choose|k: int| 0 <= k < quads.len() && (#[trigger] quads[k]).base == at(c) && quads[k].axis == e / 4;
    assert(pt(quads[k].base) == c);
}

/// Quads `q1` and `q2` share an edge at `v`: each joins `v` to one other vertex.
pub open spec fn meet_at(q1: Quad, q2: Quad, v: int) -> bool {
    exists|i: int, i2: int, w: int| #![trigger joins(q1, i, v, w), joins(q2, i2, v, w)]
        0 <= i < 4 && 0 <= i2 < 4 && joins(q1, i, v, w) && joins(q2, i2, v, w)
}
/// The quad about a crossed cell's edge `p` on its high face across `d` joins the cell's vertex
/// there to that of the next cell along `d`.
#[verifier::spinoff_prover]
proof fn lemma_quad_from(n: [usize; 3], keys: Seq<i32>, near: Seq<[usize; 3]>, cells: Seq<Crossed>,
    vs: nat, q: Quad, il: int, d: int, p: int) -> (r: (int, int))
    requires
        keys.len() == n[0] * n[1] * n[2],
        boundary_outside(n, keys),
        crossings_near(n, keys, near),
        forall|k: int| 0 <= k < near.len() ==> #[trigger] SignGrid::block_in(n, near[k]),
        cells_ok(n, keys, cells),
        forall|b: [usize; 3]| #[trigger] holds_cell(cells, b)
            <==> (is_base(n, pt(b)) && mixed(n, keys, pt(b)) && marked(n, near, block_of(b))),
        quad_ok(n, keys, cells, vs, q),
        0 <= il < cells.len(),
        0 <= d < 3,
        0 <= p < 12,
        on_face(p, 2 * d + 1),
        pt(q.base) == cell_corner(pt(cells[il].base), edge_ends(p).0),
        q.axis == p / 4,
    ensures
        0 <= r.0 < 4,
        0 <= r.1 < cells.len(),
        pt(cells[r.1].base) == shift(pt(cells[il].base), d, 1),
        joins(q, r.0, cells[il].first + cells[il].loops[p], cells[r.1].first + cells[r.1].loops[lowered(p, d)]),
{
    let cp = pt(cells[il].base);
    let a = p / 4;
    let c = pt(q.base);
    lemma_local_edge(cp, p);
    let s = step_for(p, d);
    lemma_step_for(p, d);
    lemma_local_edge(shift(cp, d, 1), lowered(p, d));
    let rev = (q.axis == 1) == inside_at(n, keys, c);
    let i = step_of(s, rev);
    assert(step_of(i, rev) == s);
    lemma_step_of(n, keys, cells, vs, q, i);
    let (il1, iu1) = lemma_quad_side(n, keys, near, cells, vs, q, s);
    lemma_cell_index(n, keys, cells, il1, il);
    (i, iu1)
}

/// Across a crossed cell's high face along `d`, its edge `p` there and that edge's mate have
/// quads that share the mesh edge from the cell's vertex to the next cell's.
#[verifier::spinoff_prover]
proof fn lemma_step_pair(n: [usize; 3], keys: Seq<i32>, near: Seq<[usize; 3]>, cells: Seq<Crossed>,
    quads: Seq<Quad>, vs: nat, il: int, d: int, p: int) -> (iu: int)
    requires
        keys.len() == n[0] * n[1] * n[2],
        boundary_outside(n, keys),
        all_settled(n, keys),
        crossings_near(n, keys, near),
        forall|k: int| 0 <= k < near.len() ==> #[trigger] SignGrid::block_in(n, near[k]),
        cells_ok(n, keys, cells),
        forall|b: [usize; 3]| #[trigger] holds_cell(cells, b)
            <==> (is_base(n, pt(b)) && mixed(n, keys, pt(b)) && marked(n, near, block_of(b))),
        forall|k2: int| 0 <= k2 < quads.len() ==> quad_ok(n, keys, cells, vs, #[trigger] quads[k2]),
        forall|c: [usize; 3], axis: int| 0 <= axis < 3 && #[trigger] edge_crosses(n, keys, pt(c), axis)
            ==> has_quad(quads, c, axis),
        0 <= il < cells.len(),
        0 <= d < 3,
        0 <= p < 12,
        on_face(p, 2 * d + 1),
        crosses(cells[il].inside, p),
    ensures
        ({
            let cp = pt(cells[il].base);
            let p2 = mate(cells[il].inside, p, 2 * d + 1);
            let lo = cells[il].first + cells[il].loops[p];
            let hi = cells[iu].first + cells[iu].loops[lowered(p, d)];
            let q1 = quads[quad_of(quads, cp, p)];
            let q2 = quads[quad_of(quads, cp, p2)];
            &&& 0 <= iu < cells.len()
            &&& pt(cells[iu].base) == shift(cp, d, 1)
            &&& 0 <= p2 < 12
            &&& on_face(p2, 2 * d + 1)
            &&& crosses(cells[il].inside, p2)
            &&& meet_at(q1, q2, lo)
            &&& meet_at(q1, q2, hi)
        }),
{
    let cp = pt(cells[il].base);
    let ci = cells[il];
    assert(cell_ok(n, keys, ci));
    lemma_cell_clean(n, keys, cp, ci.inside);
    lemma_mate_pub(ci.inside, p, 2 * d + 1);
    let p2 = mate(ci.inside, p, 2 * d + 1);
    lemma_quad_of(n, keys, cells, quads, il, p);
    lemma_quad_of(n, keys, cells, quads, il, p2);
    let k1 = quad_of(quads, cp, p);
    let k2 = quad_of(quads, cp, p2);
    assert(quad_ok(n, keys, cells, vs, quads[k1]));
    assert(quad_ok(n, keys, cells, vs, quads[k2]));
    let (i1, iu) = lemma_quad_from(n, keys, near, cells, vs, quads[k1], il, d, p);
    let (i2, iu2) = lemma_quad_from(n, keys, near, cells, vs, quads[k2], il, d, p2);
    lemma_cell_index(n, keys, cells, iu, iu2);
    let cu = cells[iu];
    assert(cell_ok(n, keys, cu));
    // One loop in each cell.
    assert(ci.loops[p2] == ci.loops[p]);
    lemma_shares_face(n, keys, cp, pt(cu.base), d, ci.inside, cu.inside);
    lemma_shared_face(ci.inside, cu.inside, d, p);
    assert(cu.loops[lowered(p2, d)] == cu.loops[lowered(p, d)]);
    let lo = ci.first + ci.loops[p];
    let hi = cu.first + cu.loops[lowered(p, d)];
    assert(joins(quads[k1], i1, lo, hi) && joins(quads[k2], i2, lo, hi));
    assert(joins(quads[k1], i1, hi, lo) && joins(quads[k2], i2, hi, lo));
    iu
}
/// The edge on a cell's high face across `d` that is edge `e` of the next cell's low face.
pub open spec fn lifted(e: int, d: int) -> int {
    if d == 0 {
        if e == 4 { 5 } else if e == 10 { 11 } else if e == 6 { 7 } else { 9 }
    } else if d == 1 {
        if e == 0 { 1 } else if e == 9 { 11 } else if e == 2 { 3 } else { 10 }
    } else {
        if e == 0 { 2 } else if e == 5 { 7 } else if e == 1 { 3 } else { 6 }
    }
}

proof fn lemma_lifted(e: int, d: int)
    requires
        0 <= d < 3,
        0 <= e < 12,
        on_face(e, 2 * d),
    ensures
        0 <= lifted(e, d) < 12,
        on_face(lifted(e, d), 2 * d + 1),
        lowered(lifted(e, d), d) == e,
        forall|g: int| 0 <= g < 12 && on_face(g, 2 * d + 1) && #[trigger] lowered(g, d) == e ==> g == lifted(e, d),
{
}

/// A crossed cell's edge `e` on its low face across `d` is the lifted edge of the cell one step
/// back, which is crossed too, about the same lattice edge.
#[verifier::spinoff_prover]
proof fn lemma_low_side(n: [usize; 3], keys: Seq<i32>, near: Seq<[usize; 3]>, cells: Seq<Crossed>,
    quads: Seq<Quad>, vs: nat, ic: int, d: int, e: int) -> (il: int)
    requires
        keys.len() == n[0] * n[1] * n[2],
        boundary_outside(n, keys),
        crossings_near(n, keys, near),
        forall|k: int| 0 <= k < near.len() ==> #[trigger] SignGrid::block_in(n, near[k]),
        cells_ok(n, keys, cells),
        forall|b: [usize; 3]| #[trigger] holds_cell(cells, b)
            <==> (is_base(n, pt(b)) && mixed(n, keys, pt(b)) && marked(n, near, block_of(b))),
        forall|k2: int| 0 <= k2 < quads.len() ==> quad_ok(n, keys, cells, vs, #[trigger] quads[k2]),
        forall|c: [usize; 3], axis: int| 0 <= axis < 3 && #[trigger] edge_crosses(n, keys, pt(c), axis)
            ==> has_quad(quads, c, axis),
        0 <= ic < cells.len(),
        0 <= d < 3,
        0 <= e < 12,
        on_face(e, 2 * d),
        crosses(cells[ic].inside, e),
    ensures
        0 <= il < cells.len(),
        pt(cells[ic].base) == shift(pt(cells[il].base), d, 1),
        crosses(cells[il].inside, lifted(e, d)),
{
    let cp = pt(cells[ic].base);
    lemma_lifted(e, d);
    let g = lifted(e, d);
    lemma_step_for(g, d);
    lemma_quad_of(n, keys, cells, quads, ic, e);
    let q = quads[quad_of(quads, cp, e)];
    assert(quad_ok(n, keys, cells, vs, q));
    let s = step_for(g, d);
    let c = pt(q.base);
    let a = q.axis as int;
    lemma_local_edge(cp, e);
    lemma_quad_step(c, a, s);
    assert(upper_cell(c, a, s) == cp);
    lemma_local_edge(lower_cell(c, a, s), g);
    let (il, iu) = lemma_quad_side(n, keys, near, cells, vs, q, s);
    il
}

/// Pairing a crossed cell's edge `e` with its mate on one of its faces: the mate is on `e`'s
/// loop, and the quads of the two edges share an edge at the loop's vertex.
#[verifier::spinoff_prover]
#[verifier::rlimit(30)]
proof fn lemma_fan_step(n: [usize; 3], keys: Seq<i32>, near: Seq<[usize; 3]>, cells: Seq<Crossed>,
    quads: Seq<Quad>, vs: nat, ic: int, e: int, f: int)
    requires
        keys.len() == n[0] * n[1] * n[2],
        boundary_outside(n, keys),
        all_settled(n, keys),
        crossings_near(n, keys, near),
        forall|k: int| 0 <= k < near.len() ==> #[trigger] SignGrid::block_in(n, near[k]),
        cells_ok(n, keys, cells),
        forall|b: [usize; 3]| #[trigger] holds_cell(cells, b)
            <==> (is_base(n, pt(b)) && mixed(n, keys, pt(b)) && marked(n, near, block_of(b))),
        forall|k2: int| 0 <= k2 < quads.len() ==> quad_ok(n, keys, cells, vs, #[trigger] quads[k2]),
        forall|c: [usize; 3], axis: int| 0 <= axis < 3 && #[trigger] edge_crosses(n, keys, pt(c), axis)
            ==> has_quad(quads, c, axis),
        forall|k2: int, l2: int| 0 <= k2 < l2 < quads.len()
            ==> !((#[trigger] quads[k2]).base == (#[trigger] quads[l2]).base && quads[k2].axis == quads[l2].axis),
        0 <= ic < cells.len(),
        0 <= e < 12,
        crosses(cells[ic].inside, e),
        f == faces_of(e).0 || f == faces_of(e).1,
    ensures
        ({
            let cp = pt(cells[ic].base);
            let m = mate(cells[ic].inside, e, f);
            &&& 0 <= m < 12
            &&& crosses(cells[ic].inside, m)
            &&& cells[ic].loops[m] == cells[ic].loops[e]
            &&& meet_at(quads[quad_of(quads, cp, e)], quads[quad_of(quads, cp, m)], cells[ic].first + cells[ic].loops[e])
        }),
{
    let cp = pt(cells[ic].base);
    let ci = cells[ic];
    assert(cell_ok(n, keys, ci));
    lemma_cell_clean(n, keys, cp, ci.inside);
    lemma_mate_pub(ci.inside, e, f);
    let m = mate(ci.inside, e, f);
    assert(ci.loops[m] == ci.loops[e]);
    let d = f / 2;
    assert(0 <= f < 6);
    if f % 2 == 1 {
        assert(f == 2 * d + 1);
        let iu = lemma_step_pair(n, keys, near, cells, quads, vs, ic, d, e);
    } else {
        assert(f == 2 * d);
        let il = lemma_low_side(n, keys, near, cells, quads, vs, ic, d, e);
        lemma_lifted(e, d);
        let g = lifted(e, d);
        let lp = pt(cells[il].base);
        let iu = lemma_step_pair(n, keys, near, cells, quads, vs, il, d, g);
        lemma_cell_index(n, keys, cells, iu, ic);
        let cl = cells[il];
        assert(cell_ok(n, keys, cl));
        let p2 = mate(cl.inside, g, 2 * d + 1);
        // The mate here is the lowered mate there.
        lemma_shares_face(n, keys, lp, cp, d, cl.inside, ci.inside);
        lemma_shared_face(cl.inside, ci.inside, d, g);
        assert(m == lowered(p2, d));
        // Both cells see the two lattice edges alike.
        lemma_step_for(g, d);
        lemma_step_for(p2, d);
        lemma_lowered_corner(lp, d, g);
        lemma_lowered_corner(lp, d, p2);
        lemma_quad_of(n, keys, cells, quads, ic, e);
        lemma_quad_of(n, keys, cells, quads, ic, m);
        lemma_quad_of(n, keys, cells, quads, il, g);
        lemma_quad_of(n, keys, cells, quads, il, p2);
        let (ke, km) = (quad_of(quads, cp, e), quad_of(quads, cp, m));
        let (kg, kp) = (quad_of(quads, lp, g), quad_of(quads, lp, p2));
        if ke != kg { lemma_quads_apart(quads, ke, kg); }
        if km != kp { lemma_quads_apart(quads, km, kp); }
    }
}
/// Quad `q` has the vertex `v` as a corner.
pub open spec fn has_corner(q: Quad, v: int) -> bool {
    exists|j: int| 0 <= j < 4 && q.corners[j] == v
}

/// The `t`th and next quads of `chain` share an edge at `v`.
pub open spec fn linked(quads: Seq<Quad>, chain: Seq<int>, t: int, v: int) -> bool {
    meet_at(quads[chain[t]], quads[chain[t + 1]], v)
}

/// `chain` walks the quads at `v` through edges at `v`: each has `v` as a corner and shares an
/// edge at `v` with the next.
pub open spec fn fan(quads: Seq<Quad>, chain: Seq<int>, v: int) -> bool {
    &&& chain.len() >= 1
    &&& forall|t: int| 0 <= t < chain.len() ==> 0 <= #[trigger] chain[t] < quads.len()
    &&& forall|t: int| 0 <= t < chain.len() ==> has_corner(quads[#[trigger] chain[t]], v)
    &&& forall|t: int| 0 <= t < chain.len() - 1 ==> #[trigger] linked(quads, chain, t, v)
}

/// Two quads that share an edge at `v` both have it as a corner.
proof fn lemma_meet_corners(q1: Quad, q2: Quad, v: int)
    requires
        meet_at(q1, q2, v),
    ensures
        has_corner(q1, v),
        has_corner(q2, v),
{
    let (i, i2, w) = choose|i: int, i2: int, w: int| #![trigger joins(q1, i, v, w), joins(q2, i2, v, w)]
        0 <= i < 4 && 0 <= i2 < 4 && joins(q1, i, v, w) && joins(q2, i2, v, w);
    if q1.corners[i] == v { assert(q1.corners[i] == v); } else { assert(q1.corners[(i + 1) % 4] == v); }
    if q2.corners[i2] == v { assert(q2.corners[i2] == v); } else { assert(q2.corners[(i2 + 1) % 4] == v); }
}

/// Along a chain of pairings from edge `e` to edge `g` of a crossed cell, the quads of the edges
/// walk round the loop's vertex.
#[verifier::spinoff_prover]
#[verifier::rlimit(30)]
proof fn lemma_fan_from(n: [usize; 3], keys: Seq<i32>, near: Seq<[usize; 3]>, cells: Seq<Crossed>,
    quads: Seq<Quad>, vs: nat, ic: int, e: int, g: int, steps: nat) -> (chain: Seq<int>)
    requires
        keys.len() == n[0] * n[1] * n[2],
        boundary_outside(n, keys),
        all_settled(n, keys),
        crossings_near(n, keys, near),
        forall|k: int| 0 <= k < near.len() ==> #[trigger] SignGrid::block_in(n, near[k]),
        cells_ok(n, keys, cells),
        forall|b: [usize; 3]| #[trigger] holds_cell(cells, b)
            <==> (is_base(n, pt(b)) && mixed(n, keys, pt(b)) && marked(n, near, block_of(b))),
        forall|k2: int| 0 <= k2 < quads.len() ==> quad_ok(n, keys, cells, vs, #[trigger] quads[k2]),
        forall|c: [usize; 3], axis: int| 0 <= axis < 3 && #[trigger] edge_crosses(n, keys, pt(c), axis)
            ==> has_quad(quads, c, axis),
        forall|k2: int, l2: int| 0 <= k2 < l2 < quads.len()
            ==> !((#[trigger] quads[k2]).base == (#[trigger] quads[l2]).base && quads[k2].axis == quads[l2].axis),
        0 <= ic < cells.len(),
        0 <= e < 12,
        0 <= g < 12,
        crosses(cells[ic].inside, e),
        crosses(cells[ic].inside, g),
        reach(cells[ic].inside, e, g, steps),
    ensures
        fan(quads, chain, cells[ic].first + cells[ic].loops[e]),
        chain[0] == quad_of(quads, pt(cells[ic].base), e),
        chain.last() == quad_of(quads, pt(cells[ic].base), g),
    decreases steps,
{
    let cp = pt(cells[ic].base);
    let ci = cells[ic];
    let v = ci.first + ci.loops[e];
    let ke = quad_of(quads, cp, e);
    lemma_quad_of(n, keys, cells, quads, ic, e);
    lemma_fan_step(n, keys, near, cells, quads, vs, ic, e, faces_of(e).0);
    lemma_meet_corners(quads[ke], quads[quad_of(quads, cp, mate(ci.inside, e, faces_of(e).0))], v);
    if e == g {
        let chain = seq![ke];
        assert(chain[0] == ke);
        chain
    } else {
        let f = if reach(ci.inside, mate(ci.inside, e, faces_of(e).0), g, (steps - 1) as nat) {
            faces_of(e).0
        } else {
            faces_of(e).1
        };
        lemma_fan_step(n, keys, near, cells, quads, vs, ic, e, f);
        let m = mate(ci.inside, e, f);
        let rest = lemma_fan_from(n, keys, near, cells, quads, vs, ic, m, g, (steps - 1) as nat);
        let chain = seq![ke] + rest;
        assert(chain[0] == ke);
        assert(chain.last() == rest.last());
        assert forall|t: int| 0 <= t < chain.len() implies 0 <= #[trigger] chain[t] < quads.len()
            && has_corner(quads[chain[t]], v) by {
            if t > 0 { assert(chain[t] == rest[t - 1]); }
        }
        assert forall|t: int| 0 <= t < chain.len() - 1 implies #[trigger] linked(quads, chain, t, v) by {
            if t > 0 {
                assert(chain[t] == rest[t - 1] && chain[t + 1] == rest[t]);
                assert(linked(quads, rest, t - 1, v));
            } else {
                assert(chain[1] == rest[0]);
            }
        }
        chain
    }
}

/// The mesh is manifold at its vertices: the quads at a vertex make one fan, each reached from
/// any other through quads at the vertex, each sharing an edge there with the next.
#[verifier::spinoff_prover]
pub proof fn law_a_vertex_has_one_fan(grid: SignGrid, mesh: Mesh, k: int, j: int, l: int, j2: int)
    requires
        grid.wf(),
        boundary_outside(grid.n, grid.keys@),
        all_settled(grid.n, grid.keys@),
        crossings_near(grid.n, grid.keys@, grid.near@),
        cells_ok(grid.n, grid.keys@, mesh.cells@),
        forall|b: [usize; 3]| #[trigger] holds_cell(mesh.cells@, b)
            <==> (is_base(grid.n, pt(b)) && mixed(grid.n, grid.keys@, pt(b)) && marked(grid.n, grid.near@, block_of(b))),
        forall|k2: int| 0 <= k2 < mesh.quads@.len() ==> quad_ok(grid.n, grid.keys@, mesh.cells@, mesh.vertices as nat, #[trigger] mesh.quads@[k2]),
        forall|c: [usize; 3], axis: int| 0 <= axis < 3 && #[trigger] edge_crosses(grid.n, grid.keys@, pt(c), axis)
            ==> has_quad(mesh.quads@, c, axis),
        forall|k2: int, l2: int| 0 <= k2 < l2 < mesh.quads@.len()
            ==> !((#[trigger] mesh.quads@[k2]).base == (#[trigger] mesh.quads@[l2]).base && mesh.quads@[k2].axis == mesh.quads@[l2].axis),
        0 <= k < mesh.quads@.len(),
        0 <= l < mesh.quads@.len(),
        0 <= j < 4,
        0 <= j2 < 4,
        mesh.quads@[l].corners[j2] == mesh.quads@[k].corners[j],
    ensures
        exists|chain: Seq<int>| #[trigger] fan(mesh.quads@, chain, mesh.quads@[k].corners[j] as int)
            && chain[0] == k && chain.last() == l,
{
    let n = grid.n;
    let keys = grid.keys@;
    let near = grid.near@;
    let cells = mesh.cells@;
    let quads = mesh.quads@;
    let vs = mesh.vertices as nat;
    assert(quad_ok(n, keys, cells, vs, quads[k]));
    assert(quad_ok(n, keys, cells, vs, quads[l]));
    let (ic, e) = lemma_corner_cell(n, keys, near, cells, vs, quads[k], j);
    let (ic2, e2) = lemma_corner_cell(n, keys, near, cells, vs, quads[l], j2);
    lemma_vertex_owner(n, keys, cells, ic, e, ic2, e2);
    let ci = cells[ic];
    assert(cell_ok(n, keys, ci));
    assert(reach(ci.inside, e, e2, 12));
    let chain = lemma_fan_from(n, keys, near, cells, quads, vs, ic, e, e2, 12);
    let cp = pt(ci.base);
    lemma_quad_of(n, keys, cells, quads, ic, e);
    lemma_quad_of(n, keys, cells, quads, ic, e2);
    if quad_of(quads, cp, e) != k { lemma_quads_apart(quads, quad_of(quads, cp, e), k); }
    if quad_of(quads, cp, e2) != l { lemma_quads_apart(quads, quad_of(quads, cp, e2), l); }
    assert(fan(quads, chain, quads[k].corners[j] as int) && chain[0] == k && chain.last() == l);
}

/// Two sequences, each strictly ordered by `lt` (irreflexive and transitive) and holding the same
/// elements, are one sequence.
proof fn lemma_ordered_alike<A>(s: Seq<A>, t: Seq<A>, lt: spec_fn(A, A) -> bool)
    requires
        forall|x: A| !#[trigger] lt(x, x),
        forall|x: A, y: A, z: A| #[trigger] lt(x, y) && #[trigger] lt(y, z) ==> lt(x, z),
        forall|p: int, q: int| 0 <= p < q < s.len() ==> lt(#[trigger] s[p], #[trigger] s[q]),
        forall|p: int, q: int| 0 <= p < q < t.len() ==> lt(#[trigger] t[p], #[trigger] t[q]),
        forall|x: A| s.contains(x) <==> t.contains(x),
    ensures
        s == t,
    decreases s.len(),
{
    if s.len() == 0 {
        if t.len() > 0 {
            assert(t.contains(t[0]));
        }
        assert(s =~= t);
    } else {
        assert(s.contains(s[0]));
        let j = choose|j: int| 0 <= j < t.len() && t[j] == s[0];
        assert(t.contains(t[0]));
        let k = choose|k: int| 0 <= k < s.len() && s[k] == t[0];
        if k > 0 {
            assert(lt(s[0], s[k]));
            if j > 0 {
                assert(lt(t[0], t[j]));
            }
        }
        assert(s[0] == t[0]);
        let s1 = s.drop_first();
        let t1 = t.drop_first();
        assert forall|x: A| s1.contains(x) <==> t1.contains(x) by {
            if s1.contains(x) {
                let i = choose|i: int| 0 <= i < s1.len() && s1[i] == x;
                assert(s[i + 1] == x);
                assert(lt(s[0], s[i + 1]));
                assert(t.contains(x));
                let jx = choose|jx: int| 0 <= jx < t.len() && t[jx] == x;
                assert(jx != 0);
                assert(t1[jx - 1] == x);
            }
            if t1.contains(x) {
                let i = choose|i: int| 0 <= i < t1.len() && t1[i] == x;
                assert(t[i + 1] == x);
                assert(lt(t[0], t[i + 1]));
                assert(s.contains(x));
                let jx = choose|jx: int| 0 <= jx < s.len() && s[jx] == x;
                assert(jx != 0);
                assert(s1[jx - 1] == x);
            }
        }
        assert forall|p: int, q: int| 0 <= p < q < s1.len() implies lt(#[trigger] s1[p], #[trigger] s1[q]) by {
            assert(s1[p] == s[p + 1] && s1[q] == s[q + 1]);
        }
        assert forall|p: int, q: int| 0 <= p < q < t1.len() implies lt(#[trigger] t1[p], #[trigger] t1[q]) by {
            assert(t1[p] == t[p + 1] && t1[q] == t[q + 1]);
        }
        lemma_ordered_alike(s1, t1, lt);
        assert forall|i: int| 0 <= i < s.len() implies s[i] == t[i] by {
            if i > 0 {
                assert(s[i] == s1[i - 1] && t[i] == t1[i - 1]);
            }
        }
        assert(s =~= t);
    }
}

/// The vertices of the first `i` cells, alike in two tables whose cells have loops alike.
proof fn lemma_counted_alike(a: Seq<Crossed>, b: Seq<Crossed>, i: int)
    requires
        a.len() == b.len(),
        0 <= i <= a.len(),
        forall|k: int| 0 <= k < a.len() ==> (#[trigger] a[k]).count == b[k].count,
    ensures
        counted(a.take(i)) == counted(b.take(i)),
    decreases i,
{
    if i > 0 {
        lemma_counted_alike(a, b, i - 1);
        assert(a.take(i).drop_last() =~= a.take(i - 1));
        assert(b.take(i).drop_last() =~= b.take(i - 1));
        assert(a.take(i).last() == a[i - 1]);
        assert(b.take(i).last() == b[i - 1]);
    }
}

/// A lattice has one mesh: two meshes, each what extraction from the same lattice leaves, are
/// the same cells with the same loops and vertex numbers, and the same quads in the same order.
/// Where its vertices are put is the caller's; which vertices there are, and how the quads join
/// them, is the lattice's alone.
#[verifier::rlimit(60)]
pub proof fn law_a_lattice_has_one_mesh(grid: SignGrid, a: Mesh, b: Mesh)
    requires
        grid.wf(),
        boundary_outside(grid.n, grid.keys@),
        all_settled(grid.n, grid.keys@),
        extracted(grid, a),
        extracted(grid, b),
    ensures
        a.cells@ == b.cells@,
        a.vertices == b.vertices,
        a.quads@ == b.quads@,
{
    let n = grid.n;
    let keys = grid.keys@;
    let ca = a.cells@;
    let cb = b.cells@;
    // The crossed cells' bases, in order.
    let sa = ca.map_values(|c: Crossed| c.base);
    let sb = cb.map_values(|c: Crossed| c.base);
    let lt = |x: [usize; 3], y: [usize; 3]| sample_lt(x, y);
    assert forall|x: [usize; 3], y: [usize; 3], z: [usize; 3]| #[trigger] lt(x, y) && #[trigger] lt(y, z) implies lt(x, z) by {}
    assert forall|x: [usize; 3]| sa.contains(x) <==> sb.contains(x) by {
        if sa.contains(x) {
            let i = choose|i: int| 0 <= i < sa.len() && sa[i] == x;
            assert(ca[i].base == x);
            assert(holds_cell(ca, x));
            assert(holds_cell(cb, x));
            let j = choose|j: int| 0 <= j < cb.len() && (#[trigger] cb[j]).base == x;
            assert(sb[j] == x);
        }
        if sb.contains(x) {
            let i = choose|i: int| 0 <= i < sb.len() && sb[i] == x;
            assert(cb[i].base == x);
            assert(holds_cell(cb, x));
            assert(holds_cell(ca, x));
            let j = choose|j: int| 0 <= j < ca.len() && (#[trigger] ca[j]).base == x;
            assert(sa[j] == x);
        }
    }
    assert forall|p: int, q: int| 0 <= p < q < sa.len() implies lt(#[trigger] sa[p], #[trigger] sa[q]) by {
        assert(sample_lt(ca[p].base, ca[q].base));
    }
    assert forall|p: int, q: int| 0 <= p < q < sb.len() implies lt(#[trigger] sb[p], #[trigger] sb[q]) by {
        assert(sample_lt(cb[p].base, cb[q].base));
    }
    lemma_ordered_alike(sa, sb, lt);
    assert(ca.len() == cb.len());
    // Each cell: its corners are the lattice's, and a clean cell's loops are labelled one way.
    assert forall|i: int| 0 <= i < ca.len() implies (#[trigger] ca[i]).base == cb[i].base && ca[i].inside == cb[i].inside
        && ca[i].loops == cb[i].loops && ca[i].count == cb[i].count by {
        assert(sa[i] == sb[i]);
        assert(cell_ok(n, keys, ca[i]) && cell_ok(n, keys, cb[i]));
        assert(ca[i].inside =~= cb[i].inside) by {
            assert forall|k: int| 0 <= k < 8 implies ca[i].inside[k] == cb[i].inside[k] by {
                assert(signs_of(n, keys, pt(ca[i].base), ca[i].inside));
                assert(signs_of(n, keys, pt(cb[i].base), cb[i].inside));
            }
        }
        lemma_cell_clean(n, keys, pt(ca[i].base), ca[i].inside);
        law_a_cell_is_labelled_one_way(ca[i].inside, ca[i].loops, ca[i].count, cb[i].loops, cb[i].count);
    }
    assert forall|i: int| 0 <= i < ca.len() implies #[trigger] ca[i] == cb[i] by {
        lemma_counted_alike(ca, cb, i);
        assert(ca[i].first == counted(ca.take(i)));
        assert(cb[i].first == counted(cb.take(i)));
    }
    assert(ca =~= cb);
    // The quads, by the edge each is about.
    let qa = a.quads@.map_values(|q: Quad| (q.base, q.axis));
    let qb = b.quads@.map_values(|q: Quad| (q.base, q.axis));
    let klt = |x: ([usize; 3], usize), y: ([usize; 3], usize)| sample_lt(x.0, y.0) || (x.0 == y.0 && x.1 < y.1);
    assert forall|x: ([usize; 3], usize), y: ([usize; 3], usize), z: ([usize; 3], usize)|
        #[trigger] klt(x, y) && #[trigger] klt(y, z) implies klt(x, z) by {}
    assert forall|x: ([usize; 3], usize)| qa.contains(x) <==> qb.contains(x) by {
        if qa.contains(x) {
            let k = choose|k: int| 0 <= k < qa.len() && qa[k] == x;
            assert(quad_ok(n, keys, ca, a.vertices as nat, a.quads@[k]));
            assert(edge_crosses(n, keys, pt(x.0), x.1 as int));
            assert(has_quad(b.quads@, x.0, x.1 as int));
            let l = choose|l: int| 0 <= l < b.quads@.len() && (#[trigger] b.quads@[l]).base == x.0 && b.quads@[l].axis == x.1;
            assert(qb[l] == x);
        }
        if qb.contains(x) {
            let k = choose|k: int| 0 <= k < qb.len() && qb[k] == x;
            assert(quad_ok(n, keys, cb, b.vertices as nat, b.quads@[k]));
            assert(edge_crosses(n, keys, pt(x.0), x.1 as int));
            assert(has_quad(a.quads@, x.0, x.1 as int));
            let l = choose|l: int| 0 <= l < a.quads@.len() && (#[trigger] a.quads@[l]).base == x.0 && a.quads@[l].axis == x.1;
            assert(qa[l] == x);
        }
    }
    assert forall|p: int, q: int| 0 <= p < q < qa.len() implies klt(#[trigger] qa[p], #[trigger] qa[q]) by {
        assert(a.quads@[p] == a.quads@[p] && a.quads@[q] == a.quads@[q]);
    }
    assert forall|p: int, q: int| 0 <= p < q < qb.len() implies klt(#[trigger] qb[p], #[trigger] qb[q]) by {
        assert(b.quads@[p] == b.quads@[p] && b.quads@[q] == b.quads@[q]);
    }
    lemma_ordered_alike(qa, qb, klt);
    assert forall|k: int| 0 <= k < a.quads@.len() implies #[trigger] a.quads@[k] == b.quads@[k] by {
        assert(qa[k] == qb[k]);
        let q = a.quads@[k];
        let r = b.quads@[k];
        assert(quad_ok(n, keys, ca, a.vertices as nat, q));
        assert(quad_ok(n, keys, cb, b.vertices as nat, r));
        assert(q.corners =~= r.corners) by {
            assert forall|j: int| 0 <= j < 4 implies q.corners[j] == r.corners[j] by {
                assert(q.corners[j] == q.corners[j]);
                assert(r.corners[j] == r.corners[j]);
            }
        }
    }
    assert(a.quads@ =~= b.quads@);
}
} // verus!
