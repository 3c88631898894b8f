//! The lattice surface nets extract from, reduced to what cleaning it reads: which samples are
//! inside, and which of two outside samples is nearer the surface.
//!
//! **Manifold by construction.** Before extraction the grid is cleaned of every lattice square
//! whose corners alternate in sign, by turning one of its outside corners inside. Every cell face
//! then carries at most one segment of surface, so the crossings in a cell form simple loops.
//!
//! A sample is held as an order key of its distance: the keys compare as the distances do, and a
//! key is not positive exactly where the distance is not, which is inside.

use vstd::prelude::*;
use std::collections::VecDeque;
use crate::nets::{all_settled, crossings_near, law_cleaning_readies_a_sampled_lattice, sampled};

verus! {

/// Samples a side of the blocks the grid is evaluated in.
pub const BLOCK: usize = 8;

/// A lattice point, as integers.
pub type Point = (int, int, int);

pub open spec fn pt(i: [usize; 3]) -> Point {
    (i[0] as int, i[1] as int, i[2] as int)
}

pub open spec fn comp(c: Point, a: int) -> int {
    if a == 0 { c.0 } else if a == 1 { c.1 } else { c.2 }
}

/// `c` moved `d` along axis `a`.
pub open spec fn shift(c: Point, a: int, d: int) -> Point {
    if a == 0 { (c.0 + d, c.1, c.2) } else if a == 1 { (c.0, c.1 + d, c.2) } else { (c.0, c.1, c.2 + d) }
}

/// The two axes across each axis.
pub open spec fn across(axis: int) -> (int, int) {
    if axis == 0 { (1, 2) } else if axis == 1 { (0, 2) } else { (0, 1) }
}

/// Corner `k` of the square across `axis` at `base`: `base`, `+u`, `+v`, `+u+v`.
pub open spec fn corner(axis: int, base: Point, k: int) -> Point {
    shift(shift(base, across(axis).0, k % 2), across(axis).1, k / 2)
}

pub open spec fn in_grid(n: [usize; 3], c: Point) -> bool {
    0 <= c.0 < n[0] && 0 <= c.1 < n[1] && 0 <= c.2 < n[2]
}

/// Where sample `c` is kept.
pub open spec fn lin(n: [usize; 3], c: Point) -> int {
    c.0 + n[0] * (c.1 + n[1] * c.2)
}

pub open spec fn inside_at(n: [usize; 3], keys: Seq<i32>, c: Point) -> bool {
    keys[lin(n, c)] <= 0
}

/// On the lattice's outermost layer.
pub open spec fn boundary(n: [usize; 3], c: Point) -> bool {
    c.0 == 0 || c.0 == n[0] - 1 || c.1 == 0 || c.1 == n[1] - 1 || c.2 == 0 || c.2 == n[2] - 1
}

/// The square across `axis` at `base` lies in the lattice.
pub open spec fn has_square(n: [usize; 3], axis: int, base: Point) -> bool {
    comp(base, across(axis).0) + 1 < n[across(axis).0 as int] && comp(base, across(axis).1) + 1 < n[across(axis).1 as int]
}

/// Its corners alternate in sign: two inside, diagonal to each other.
pub open spec fn alternates(n: [usize; 3], keys: Seq<i32>, axis: int, base: Point) -> bool {
    let a = inside_at(n, keys, corner(axis, base, 0));
    let b = inside_at(n, keys, corner(axis, base, 1));
    let c = inside_at(n, keys, corner(axis, base, 2));
    let d = inside_at(n, keys, corner(axis, base, 3));
    a == d && b == c && a != b
}

/// The two outside corners of an alternating square.
pub open spec fn outside_corners(n: [usize; 3], keys: Seq<i32>, axis: int, base: Point) -> (Point, Point) {
    if inside_at(n, keys, corner(axis, base, 0)) { (corner(axis, base, 1), corner(axis, base, 2)) }
    else { (corner(axis, base, 0), corner(axis, base, 3)) }
}

/// Which outside corner of an alternating square cleaning turns: the one off the boundary
/// where only one is, else the one nearer the surface, its key the smaller (the first on a tie).
pub open spec fn turned_corner(n: [usize; 3], keys: Seq<i32>, axis: int, base: Point) -> Point {
    let (p, q) = outside_corners(n, keys, axis, base);
    if !boundary(n, p) && boundary(n, q) {
        p
    } else if boundary(n, p) && !boundary(n, q) {
        q
    } else if keys[lin(n, p)] <= keys[lin(n, q)] {
        p
    } else {
        q
    }
}

/// What cleaning leaves of a square: it does not alternate, or both its outside corners are on
/// the boundary, where no sample can be turned.
pub open spec fn settled(n: [usize; 3], keys: Seq<i32>, axis: int, base: Point) -> bool {
    !has_square(n, axis, base) || !alternates(n, keys, axis, base)
        || (boundary(n, outside_corners(n, keys, axis, base).0) && boundary(n, outside_corners(n, keys, axis, base).1))
}

/// `t` is a corner of the square across `axis` at `base`.
pub open spec fn touches(t: Point, axis: int, base: Point) -> bool {
    t == corner(axis, base, 0) || t == corner(axis, base, 1) || t == corner(axis, base, 2) || t == corner(axis, base, 3)
}

/// Sample `c` is in block `b`.
pub open spec fn in_block(n: [usize; 3], b: [usize; 3], c: Point) -> bool {
    &&& b[0] * BLOCK <= c.0 < b[0] * BLOCK + BLOCK && c.0 < n[0]
    &&& b[1] * BLOCK <= c.1 < b[1] * BLOCK + BLOCK && c.1 < n[1]
    &&& b[2] * BLOCK <= c.2 < b[2] * BLOCK + BLOCK && c.2 < n[2]
}

/// Lexicographic order, as arrays compare.
pub open spec fn lex_lt(a: [usize; 3], b: [usize; 3]) -> bool {
    a[0] < b[0] || (a[0] == b[0] && (a[1] < b[1] || (a[1] == b[1] && a[2] < b[2])))
}

pub open spec fn strictly_sorted(s: Seq<[usize; 3]>) -> bool {
    forall|i: int, j: int| 0 <= i < j < s.len() ==> lex_lt(#[trigger] s[i], #[trigger] s[j])
}

/// How many samples are outside.
pub open spec fn outside_count(keys: Seq<i32>) -> nat
    decreases keys.len(),
{
    if keys.len() == 0 { 0 } else {
        outside_count(keys.drop_last()) + if keys.last() > 0 { 1nat } else { 0nat }
    }
}

proof fn lemma_outside_update(keys: Seq<i32>, i: int, v: i32)
    requires 0 <= i < keys.len(), keys[i] > 0, v <= 0,
    ensures outside_count(keys.update(i, v)) + 1 == outside_count(keys),
    decreases keys.len(),
{
    let k2 = keys.update(i, v);
    if i == keys.len() - 1 {
        assert(k2.drop_last() =~= keys.drop_last());
    } else {
        lemma_outside_update(keys.drop_last(), i, v);
        assert(k2.drop_last() =~= keys.drop_last().update(i, v));
    }
}

pub(crate) proof fn lemma_lin(n: [usize; 3], c: Point)
    requires in_grid(n, c),
    ensures 0 <= lin(n, c) < n[0] * n[1] * n[2],
{
    let n0 = n[0] as int;
    let n1 = n[1] as int;
    let n2 = n[2] as int;
    let t = c.1 + n1 * c.2;
    assert(0 <= t < n1 * n2) by (nonlinear_arith)
        requires 0 <= c.1 < n1, 0 <= c.2 < n2, t == c.1 + n1 * c.2;
    assert(0 <= c.0 + n0 * t < n0 * (n1 * n2)) by (nonlinear_arith)
        requires 0 <= c.0 < n0, 0 <= t < n1 * n2;
    assert(n0 * (n1 * n2) == n0 * n1 * n2) by (nonlinear_arith);
}

proof fn lemma_unpair(x: int, y: int, a: int, b: int, n: int)
    requires 0 <= x < n, 0 <= y < n, 0 <= a, 0 <= b, x + n * a == y + n * b,
    ensures x == y, a == b,
{
    if a < b {
        assert(n * a + n <= n * b) by (nonlinear_arith) requires a < b, n > 0;
    } else if b < a {
        assert(n * b + n <= n * a) by (nonlinear_arith) requires b < a, n > 0;
    }
}

pub(crate) proof fn lemma_lin_injective(n: [usize; 3], c: Point, d: Point)
    requires in_grid(n, c), in_grid(n, d), lin(n, c) == lin(n, d),
    ensures c == d,
{
    let n1 = n[1] as int;
    assert(0 <= c.1 + n1 * c.2) by (nonlinear_arith) requires 0 <= c.1, 0 <= c.2, 0 <= n1;
    assert(0 <= d.1 + n1 * d.2) by (nonlinear_arith) requires 0 <= d.1, 0 <= d.2, 0 <= n1;
    lemma_unpair(c.0, d.0, c.1 + n1 * c.2, d.1 + n1 * d.2, n[0] as int);
    lemma_unpair(c.1, d.1, c.2, d.2, n1);
}

/// A square none of whose corners changed is as settled as it was.
proof fn lemma_frame(n: [usize; 3], keys: Seq<i32>, t: Point, v: i32, axis: int, base: Point)
    requires
        0 <= axis < 3,
        in_grid(n, t),
        in_grid(n, base),
        keys.len() == n[0] * n[1] * n[2],
        !touches(t, axis, base),
    ensures
        settled(n, keys.update(lin(n, t), v), axis, base) == settled(n, keys, axis, base),
{
    if has_square(n, axis, base) {
        let k2 = keys.update(lin(n, t), v);
        assert forall|k: int| 0 <= k < 4 implies
            inside_at(n, k2, #[trigger] corner(axis, base, k)) == inside_at(n, keys, corner(axis, base, k)) by {
            let c = corner(axis, base, k);
            assert(in_grid(n, c));
            lemma_lin(n, c);
            lemma_lin(n, t);
            if lin(n, c) == lin(n, t) {
                lemma_lin_injective(n, c, t);
            }
        }
        assert(inside_at(n, k2, corner(axis, base, 0)) == inside_at(n, keys, corner(axis, base, 0)));
        assert(inside_at(n, k2, corner(axis, base, 1)) == inside_at(n, keys, corner(axis, base, 1)));
        assert(inside_at(n, k2, corner(axis, base, 2)) == inside_at(n, keys, corner(axis, base, 2)));
        assert(inside_at(n, k2, corner(axis, base, 3)) == inside_at(n, keys, corner(axis, base, 3)));
    }
}

/// A lattice of signed samples, and the blocks that may hold a sign change.
pub struct SignGrid {
    /// Samples along each axis.
    pub n: [usize; 3],
    /// Each sample's order key, `x` fastest: `x + n[0] * (y + n[1] * z)`.
    pub keys: Vec<i32>,
    /// Blocks that may hold a sign change, as block coordinates.
    pub near: Vec<[usize; 3]>,
}

impl SignGrid {
    pub open spec fn wf(&self) -> bool {
        &&& self.n[0] >= 1 && self.n[1] >= 1 && self.n[2] >= 1
        &&& self.keys.len() == self.n[0] * self.n[1] * self.n[2]
        &&& forall|k: int| 0 <= k < self.near.len() ==> #[trigger] Self::block_in(self.n, self.near[k])
    }

    /// A block with at least one sample in the lattice.
    pub open spec fn block_in(n: [usize; 3], b: [usize; 3]) -> bool {
        b[0] * BLOCK < n[0] && b[1] * BLOCK < n[1] && b[2] * BLOCK < n[2]
    }

    /// Whether the lattice is well formed: a sample on each side at least, a key for each
    /// sample, and each near block holding a sample.
    pub fn well_formed(&self) -> (r: bool)
        ensures
            r == self.wf(),
    {
        let n = self.n;
        if n[0] == 0 || n[1] == 0 || n[2] == 0 {
            return false;
        }
        let xy = match n[0].checked_mul(n[1]) {
            Some(v) => v,
            None => {
                assert(n[0] * n[1] * n[2] >= n[0] * n[1]) by (nonlinear_arith)
                    requires n[2] >= 1, n[0] >= 1, n[1] >= 1;
                return false;
            },
        };
        let all = match xy.checked_mul(n[2]) {
            Some(v) => v,
            None => return false,
        };
        if all != self.keys.len() {
            return false;
        }
        let mut k: usize = 0;
        while k < self.near.len()
            invariant
                k <= self.near@.len(),
                n == self.n,
                n[0] >= 1 && n[1] >= 1 && n[2] >= 1,
                forall|j: int| 0 <= j < k ==> #[trigger] Self::block_in(n, self.near@[j]),
            decreases self.near@.len() - k,
        {
            let b = self.near[k];
            proof {
                assert forall|a: int| 0 <= a < 3 implies (b[a] * 8 < n[a] <==> b[a] <= (n[a] - 1) / 8) by {
                    let q = (n[a] - 1) / 8;
                    assert(8 * q <= n[a] - 1 < 8 * q + 8) by (nonlinear_arith) requires q == (n[a] - 1) / 8, n[a] >= 1;
                    if b[a] <= q {
                        assert(b[a] * 8 <= q * 8) by (nonlinear_arith) requires b[a] <= q;
                    } else {
                        assert(b[a] * 8 >= q * 8 + 8) by (nonlinear_arith) requires b[a] >= q + 1;
                    }
                }
            }
            if !(b[0] <= (n[0] - 1) / BLOCK && b[1] <= (n[1] - 1) / BLOCK && b[2] <= (n[2] - 1) / BLOCK) {
                assert(!Self::block_in(n, self.near@[k as int]));
                return false;
            }
            k += 1;
        }
        true
    }

    /// Where sample `i` is kept.
    pub fn index(&self, i: [usize; 3]) -> (r: usize)
        requires self.wf(), in_grid(self.n, pt(i)),
        ensures r as int == lin(self.n, pt(i)), r < self.keys.len(),
    {
        proof { lemma_lin(self.n, pt(i)); }
        let n = self.n;
        proof {
            assert(i[1] + n[1] * i[2] <= n[1] * n[2]) by (nonlinear_arith)
                requires i[1] < n[1], i[2] < n[2];
            assert(n[1] * n[2] <= n[0] * n[1] * n[2]) by (nonlinear_arith) requires n[0] >= 1;
            assert(n[0] * (i[1] + n[1] * i[2]) <= n[0] * n[1] * n[2]) by (nonlinear_arith)
                requires i[1] + n[1] * i[2] < n[1] * n[2] || i[1] + n[1] * i[2] <= n[1] * n[2], n[0] >= 1;
        }
        i[0] + n[0] * (i[1] + n[1] * i[2])
    }

    pub fn inside(&self, i: [usize; 3]) -> (r: bool)
        requires self.wf(), in_grid(self.n, pt(i)),
        ensures r == inside_at(self.n, self.keys@, pt(i)),
    {
        let k = self.index(i);
        self.keys[k] <= 0
    }

    pub fn on_boundary(&self, i: [usize; 3]) -> (r: bool)
        requires self.wf(), in_grid(self.n, pt(i)),
        ensures r == boundary(self.n, pt(i)),
    {
        i[0] == 0 || i[0] == self.n[0] - 1 || i[1] == 0 || i[1] == self.n[1] - 1 || i[2] == 0 || i[2] == self.n[2] - 1
    }

    /// The square across `axis` at `base`, corners in the order `base`, `+u`, `+v`, `+u+v`.
    pub fn square(&self, axis: usize, base: [usize; 3]) -> (r: Option<[[usize; 3]; 4]>)
        requires self.wf(), axis < 3, in_grid(self.n, pt(base)),
        ensures
            r.is_some() == has_square(self.n, axis as int, pt(base)),
            r matches Some(c) ==> forall|k: int| 0 <= k < 4 ==> pt(#[trigger] c[k]) == corner(axis as int, pt(base), k)
                && in_grid(self.n, pt(c[k])),
    {
        let (u, v): (usize, usize) = if axis == 0 { (1, 2) } else if axis == 1 { (0, 2) } else { (0, 1) };
        if base[u] + 1 >= self.n[u] || base[v] + 1 >= self.n[v] {
            return None;
        }
        let mut bu = base;
        bu[u] = bu[u] + 1;
        let mut bv = base;
        bv[v] = bv[v] + 1;
        let mut buv = bu;
        buv[v] = buv[v] + 1;
        let r = [base, bu, bv, buv];
        proof {
            assert(pt(r[0]) == corner(axis as int, pt(base), 0));
            assert(pt(r[1]) == corner(axis as int, pt(base), 1));
            assert(pt(r[2]) == corner(axis as int, pt(base), 2));
            assert(pt(r[3]) == corner(axis as int, pt(base), 3));
        }
        Some(r)
    }

    /// Turns inside one outside corner of the square across `axis` at `base`, if its corners
    /// alternate: [`turned_corner`], and never a boundary sample. Queues every square
    /// the turned sample is a corner of, and returns it.
    fn clean_square(&mut self, axis: usize, base: [usize; 3], dilated: i32,
        queue: &mut VecDeque<(usize, [usize; 3])>) -> (turned: Option<[usize; 3]>)
        requires
            old(self).wf(),
            axis < 3,
            in_grid(old(self).n, pt(base)),
            dilated <= 0,
        ensures
            final(self).wf(),
            final(self).n == old(self).n,
            settled(final(self).n, final(self).keys@, axis as int, pt(base)),
            match turned {
                None => {
                    &&& final(self).keys@ == old(self).keys@
                    &&& final(self).near@ == old(self).near@
                    &&& final(queue)@ == old(queue)@
                },
                Some(t) => {
                    &&& alternates(old(self).n, old(self).keys@, axis as int, pt(base))
                    &&& pt(t) == turned_corner(old(self).n, old(self).keys@, axis as int, pt(base))
                    &&& in_grid(old(self).n, pt(t))
                    &&& !boundary(old(self).n, pt(t))
                    &&& old(self).keys@[lin(old(self).n, pt(t))] > 0
                    &&& touches(pt(t), axis as int, pt(base))
                    &&& final(self).keys@ == old(self).keys@.update(lin(old(self).n, pt(t)), dilated)
                    &&& final(self).near@ == old(self).near@.push([t[0] / BLOCK, t[1] / BLOCK, t[2] / BLOCK])
                    &&& final(queue)@.len() >= old(queue)@.len()
                    &&& final(queue)@.subrange(0, old(queue)@.len() as int) == old(queue)@
                    &&& forall|a2: int, b2: [usize; 3]| 0 <= a2 < 3 && touches(pt(t), a2, pt(b2))
                        ==> #[trigger] final(queue)@.contains((a2 as usize, b2))
                },
            },
            forall|j: int| 0 <= j < final(queue)@.len() ==> (#[trigger] final(queue)@[j]).0 < 3
                && in_grid(final(self).n, pt(final(queue)@[j].1))
                || (j < old(queue)@.len() && final(queue)@[j] == old(queue)@[j]),
    {
        let corners = match self.square(axis, base) {
            Some(c) => c,
            None => return None,
        };
        let a = self.inside(corners[0]);
        let b = self.inside(corners[1]);
        let c = self.inside(corners[2]);
        let d = self.inside(corners[3]);
        if !(a == d && b == c && a != b) {
            return None;
        }
        let (p, q) = if a { (corners[1], corners[2]) } else { (corners[0], corners[3]) };
        let bp = self.on_boundary(p);
        let bq = self.on_boundary(q);
        let pick = if !bp && bq {
            p
        } else if bp && !bq {
            q
        } else if bp && bq {
            return None;
        } else if self.keys[self.index(p)] <= self.keys[self.index(q)] {
            p
        } else {
            q
        };
        proof {
            assert(pt(corners[0]) == corner(axis as int, pt(base), 0));
            assert(pt(corners[1]) == corner(axis as int, pt(base), 1));
            assert(pt(corners[2]) == corner(axis as int, pt(base), 2));
            assert(pt(corners[3]) == corner(axis as int, pt(base), 3));
            assert(alternates(self.n, self.keys@, axis as int, pt(base)));
            assert(pt(pick) == turned_corner(self.n, self.keys@, axis as int, pt(base)));
        }
        let i = self.index(pick);
        let ghost before = self.keys@;
        let ghost queue0 = queue@;
        self.keys.set(i, dilated);
        self.near.push([pick[0] / BLOCK, pick[1] / BLOCK, pick[2] / BLOCK]);
        proof {
            assert forall|k: int| 0 <= k < self.near.len() implies #[trigger] Self::block_in(self.n, self.near[k]) by {
                if k < self.near.len() - 1 {
                    assert(self.near[k] == old(self).near[k]);
                } else {
                    assert(pick[0] / 8 * 8 <= pick[0]) by (nonlinear_arith);
                    assert(pick[1] / 8 * 8 <= pick[1]) by (nonlinear_arith);
                    assert(pick[2] / 8 * 8 <= pick[2]) by (nonlinear_arith);
                }
            }
            // The square now has three corners on one side.
            let k2 = self.keys@;
            assert forall|k: int| 0 <= k < 4 && #[trigger] corner(axis as int, pt(base), k) != pt(pick) implies
                inside_at(self.n, k2, corner(axis as int, pt(base), k)) == inside_at(self.n, before, corner(axis as int, pt(base), k)) by {
                let cc = corner(axis as int, pt(base), k);
                lemma_lin(self.n, cc);
                lemma_lin(self.n, pt(pick));
                if lin(self.n, cc) == lin(self.n, pt(pick)) {
                    lemma_lin_injective(self.n, cc, pt(pick));
                }
            }
            assert(pt(corners[0]) == corner(axis as int, pt(base), 0));
            assert(pt(corners[1]) == corner(axis as int, pt(base), 1));
            assert(pt(corners[2]) == corner(axis as int, pt(base), 2));
            assert(pt(corners[3]) == corner(axis as int, pt(base), 3));
            assert(inside_at(self.n, k2, pt(pick)));
            assert(!alternates(self.n, k2, axis as int, pt(base)));
        }
        let mut ax: usize = 0;
        while ax < 3
            invariant
                ax <= 3,
                self.wf(),
                in_grid(self.n, pt(pick)),
                queue@.len() >= queue0.len(),
                queue@.subrange(0, queue0.len() as int) == queue0,
                forall|j: int| queue0.len() <= j < queue@.len() ==> (#[trigger] queue@[j]).0 < 3
                    && in_grid(self.n, pt(queue@[j].1)),
                forall|a2: int, b2: [usize; 3]| 0 <= a2 < ax && touches(pt(pick), a2, pt(b2))
                    ==> #[trigger] queue@.contains((a2 as usize, b2)),
            decreases 3 - ax,
        {
            let (u, v): (usize, usize) = if ax == 0 { (1, 2) } else if ax == 1 { (0, 2) } else { (0, 1) };
            let ghost q_ax = queue@;
            let mut k: usize = 0;
            while k < 4
                invariant
                    k <= 4,
                    ax < 3,
                    u < 3, v < 3, u != v,
                    (u as int, v as int) == across(ax as int),
                    self.wf(),
                    in_grid(self.n, pt(pick)),
                    queue@.len() >= q_ax.len(),
                    queue@.subrange(0, q_ax.len() as int) == q_ax,
                    forall|j: int| q_ax.len() <= j < queue@.len() ==> (#[trigger] queue@[j]).0 == ax
                        && in_grid(self.n, pt(queue@[j].1)),
                    forall|kk: int, b2: [usize; 3]| #![trigger corner(ax as int, pt(b2), kk)]
                        0 <= kk < k && pt(pick) == corner(ax as int, pt(b2), kk) ==> queue@.contains((ax, b2)),
                decreases 4 - k,
            {
                let du: usize = k % 2;
                let dv: usize = k / 2;
                if pick[u] >= du && pick[v] >= dv {
                    let mut b = pick;
                    b[u] = b[u] - du;
                    b[v] = b[v] - dv;
                    let ghost qb = queue@;
                    queue.push_back((ax, b));
                    proof {
                        assert(queue@[queue@.len() - 1] == (ax, b));
                        assert forall|kk: int, b2: [usize; 3]| #![trigger corner(ax as int, pt(b2), kk)]
                            0 <= kk < k + 1 && pt(pick) == corner(ax as int, pt(b2), kk) implies queue@.contains((ax, b2)) by {
                            if kk == k {
                                assert(b2 == b);
                                assert(queue@.contains((ax, b)));
                            } else {
                                assert(qb.contains((ax, b2)));
                                let j = choose|j: int| 0 <= j < qb.len() && qb[j] == (ax, b2);
                                assert(queue@[j] == qb[j]);
                            }
                        }
                        assert(queue@.subrange(0, q_ax.len() as int) =~= q_ax) by {
                            assert(qb.subrange(0, q_ax.len() as int) == q_ax);
                        }
                    }
                } else {
                    proof {
                        assert forall|b2: [usize; 3]| !(pt(pick) == corner(ax as int, pt(b2), k as int)) by {
                            if pt(pick) == corner(ax as int, pt(b2), k as int) {
                                assert(comp(pt(pick), u as int) == comp(pt(b2), u as int) + du);
                                assert(comp(pt(pick), v as int) == comp(pt(b2), v as int) + dv);
                            }
                        }
                    }
                }
                k += 1;
            }
            proof {
                assert forall|a2: int, b2: [usize; 3]| 0 <= a2 < ax + 1 && touches(pt(pick), a2, pt(b2))
                    implies #[trigger] queue@.contains((a2 as usize, b2)) by {
                    if a2 < ax {
                        assert(q_ax.contains((a2 as usize, b2)));
                        let j = choose|j: int| 0 <= j < q_ax.len() && q_ax[j] == (a2 as usize, b2);
                        assert(queue@.subrange(0, q_ax.len() as int)[j] == q_ax[j]);
                    } else {
                        if pt(pick) == corner(ax as int, pt(b2), 0) {} else if pt(pick) == corner(ax as int, pt(b2), 1) {}
                        else if pt(pick) == corner(ax as int, pt(b2), 2) {} else {}
                    }
                }
                assert(queue@.subrange(0, queue0.len() as int) =~= queue0) by {
                    assert(q_ax.subrange(0, queue0.len() as int) == queue0);
                }
                assert forall|j: int| queue0.len() <= j < queue@.len() implies (#[trigger] queue@[j]).0 < 3
                    && in_grid(self.n, pt(queue@[j].1)) by {
                    if j < q_ax.len() {
                        assert(queue@.subrange(0, q_ax.len() as int)[j] == q_ax[j]);
                    }
                }
            }
            ax += 1;
        }
        proof {
            assert(self.keys@ == before.update(lin(self.n, pt(pick)), dilated));
        }
        Some(pick)
    }

    /// The samples of block `b`, `x` fastest.
    pub fn block_samples(&self, b: [usize; 3]) -> (r: Vec<[usize; 3]>)
        requires self.wf(), Self::block_in(self.n, b),
        ensures
            forall|c: [usize; 3]| in_block(self.n, b, pt(c)) ==> #[trigger] r@.contains(c),
            forall|j: int| 0 <= j < r@.len() ==> in_grid(self.n, pt(#[trigger] r@[j])) && in_block(self.n, b, pt(r@[j])),
            // In order, `z` slowest, and so each once.
            forall|i: int, j: int| 0 <= i < j < r@.len() ==> zyx_lt(#[trigger] r@[i], #[trigger] r@[j]),
    {
        let n = self.n;
        let lo = [b[0] * BLOCK, b[1] * BLOCK, b[2] * BLOCK];
        let hi = [
            if n[0] - lo[0] < BLOCK { n[0] } else { lo[0] + BLOCK },
            if n[1] - lo[1] < BLOCK { n[1] } else { lo[1] + BLOCK },
            if n[2] - lo[2] < BLOCK { n[2] } else { lo[2] + BLOCK },
        ];
        let mut r: Vec<[usize; 3]> = Vec::new();
        assert(lo[0] < hi[0] && lo[1] < hi[1] && lo[2] < hi[2]);
        let mut z = lo[2];
        while z < hi[2]
            invariant
                lo[2] <= z <= hi[2],
                lo[0] < hi[0] && lo[1] < hi[1] && lo[2] < hi[2],
                forall|a: int| 0 <= a < 3 ==> lo[a] == b[a] * BLOCK && hi[a] <= n[a] && hi[a] <= b[a] * BLOCK + BLOCK
                    && (hi[a] == n[a] || hi[a] == b[a] * BLOCK + BLOCK),
                n == self.n,
                forall|c: [usize; 3]| in_block(n, b, pt(c)) && c[2] < z ==> #[trigger] r@.contains(c),
                forall|j: int| 0 <= j < r@.len() ==> in_grid(n, pt(#[trigger] r@[j])) && in_block(n, b, pt(r@[j])),
                forall|i: int, j: int| 0 <= i < j < r@.len() ==> zyx_lt(#[trigger] r@[i], #[trigger] r@[j]),
                forall|j: int| 0 <= j < r@.len() ==> (#[trigger] r@[j])[2] < z,
            decreases hi[2] - z,
        {
            let mut y = lo[1];
            while y < hi[1]
                invariant
                    lo[1] <= y <= hi[1],
                    lo[2] <= z < hi[2],
                    lo[0] < hi[0] && lo[1] < hi[1] && lo[2] < hi[2],
                forall|a: int| 0 <= a < 3 ==> lo[a] == b[a] * BLOCK && hi[a] <= n[a] && hi[a] <= b[a] * BLOCK + BLOCK
                        && (hi[a] == n[a] || hi[a] == b[a] * BLOCK + BLOCK),
                    n == self.n,
                    forall|c: [usize; 3]| in_block(n, b, pt(c)) && (c[2] < z || (c[2] == z && c[1] < y)) ==> #[trigger] r@.contains(c),
                    forall|j: int| 0 <= j < r@.len() ==> in_grid(n, pt(#[trigger] r@[j])) && in_block(n, b, pt(r@[j])),
                    forall|i: int, j: int| 0 <= i < j < r@.len() ==> zyx_lt(#[trigger] r@[i], #[trigger] r@[j]),
                    forall|j: int| 0 <= j < r@.len() ==> (#[trigger] r@[j])[2] < z || (r@[j][2] == z && r@[j][1] < y),
                decreases hi[1] - y,
            {
                let mut x = lo[0];
                while x < hi[0]
                    invariant
                        lo[0] <= x <= hi[0],
                        lo[1] <= y < hi[1],
                        lo[2] <= z < hi[2],
                        lo[0] < hi[0] && lo[1] < hi[1] && lo[2] < hi[2],
                forall|a: int| 0 <= a < 3 ==> lo[a] == b[a] * BLOCK && hi[a] <= n[a] && hi[a] <= b[a] * BLOCK + BLOCK
                            && (hi[a] == n[a] || hi[a] == b[a] * BLOCK + BLOCK),
                        n == self.n,
                        forall|c: [usize; 3]| in_block(n, b, pt(c)) && (c[2] < z || (c[2] == z && (c[1] < y || (c[1] == y && c[0] < x))))
                            ==> #[trigger] r@.contains(c),
                        forall|j: int| 0 <= j < r@.len() ==> in_grid(n, pt(#[trigger] r@[j])) && in_block(n, b, pt(r@[j])),
                        forall|i: int, j: int| 0 <= i < j < r@.len() ==> zyx_lt(#[trigger] r@[i], #[trigger] r@[j]),
                        forall|j: int| 0 <= j < r@.len() ==> zyx_lt(#[trigger] r@[j], [x, y, z]),
                    decreases hi[0] - x,
                {
                    let ghost r0 = r@;
                    let c = [x, y, z];
                    r.push(c);
                    proof {
                        assert(r@[r@.len() - 1] == c);
                        assert forall|c2: [usize; 3]| in_block(n, b, pt(c2)) && (c2[2] < z || (c2[2] == z && (c2[1] < y || (c2[1] == y && c2[0] < x + 1))))
                            implies #[trigger] r@.contains(c2) by {
                            if c2[2] == z && c2[1] == y && c2[0] == x {
                                assert(c2 =~= c);
                            } else {
                                assert(r0.contains(c2));
                                let j = choose|j: int| 0 <= j < r0.len() && r0[j] == c2;
                                assert(r@[j] == r0[j]);
                            }
                        }
                        assert forall|j: int| 0 <= j < r@.len() implies in_grid(n, pt(#[trigger] r@[j])) && in_block(n, b, pt(r@[j])) by {
                            if j < r0.len() { assert(r@[j] == r0[j]); }
                        }
                        assert forall|i: int, j: int| 0 <= i < j < r@.len() implies zyx_lt(#[trigger] r@[i], #[trigger] r@[j]) by {
                            assert(r@[i] == r0[i]);
                            if j < r0.len() { assert(r@[j] == r0[j]); } else { assert(zyx_lt(r0[i], [x, y, z])); }
                        }
                        assert forall|j: int| 0 <= j < r@.len() implies zyx_lt(#[trigger] r@[j], [(x + 1) as usize, y, z]) by {
                            if j < r0.len() { assert(r@[j] == r0[j]); assert(zyx_lt(r0[j], [x, y, z])); }
                        }
                    }
                    x += 1;
                }
                y += 1;
            }
            z += 1;
        }
        r
    }
}

/// A square to clean: an axis, and a base in the lattice.
pub open spec fn valid_square(n: [usize; 3], sq: (usize, [usize; 3])) -> bool {
    sq.0 < 3 && in_grid(n, pt(sq.1))
}

/// Each square cleaning has looked at is settled, or waiting in the queue to be looked at again.
pub open spec fn settled_or_queued(n: [usize; 3], keys: Seq<i32>, checked: Set<(usize, [usize; 3])>,
    queue: Seq<(usize, [usize; 3])>) -> bool {
    forall|sq: (usize, [usize; 3])| #[trigger] checked.contains(sq)
        ==> valid_square(n, sq) && (settled(n, keys, sq.0 as int, pt(sq.1)) || queue.contains(sq))
}

/// The squares a turned sample `t` is a corner of.
pub open spec fn around(t: [usize; 3]) -> Set<(usize, [usize; 3])> {
    Set::new(|sq: (usize, [usize; 3])| sq.0 < 3 && touches(pt(t), sq.0 as int, pt(sq.1)))
}

/// Blocks as they are after cleaning: the ones that were near, and each turned sample's.
pub open spec fn block_of(t: [usize; 3]) -> [usize; 3] {
    [t[0] / BLOCK, t[1] / BLOCK, t[2] / BLOCK]
}

/// A square based at a base that touches an in-lattice sample is in the lattice.
proof fn lemma_around_valid(n: [usize; 3], t: [usize; 3], sq: (usize, [usize; 3]))
    requires in_grid(n, pt(t)), around(t).contains(sq),
    ensures valid_square(n, sq),
{
}

/// Looking at one more square keeps every square looked at settled or queued.
proof fn lemma_step(n: [usize; 3], keys0: Seq<i32>, keys1: Seq<i32>, checked: Set<(usize, [usize; 3])>,
    q0: Seq<(usize, [usize; 3])>, q1: Seq<(usize, [usize; 3])>, sq: (usize, [usize; 3]), turned: Option<[usize; 3]>,
    dilated: i32)
    requires
        keys0.len() == n[0] * n[1] * n[2],
        forall|s2: (usize, [usize; 3])| #[trigger] checked.contains(s2)
            ==> valid_square(n, s2) && (settled(n, keys0, s2.0 as int, pt(s2.1)) || q0.contains(s2) || s2 == sq),
        valid_square(n, sq),
        settled(n, keys1, sq.0 as int, pt(sq.1)),
        match turned {
            None => keys1 == keys0 && q1 == q0,
            Some(t) => {
                &&& in_grid(n, pt(t))
                &&& keys1 == keys0.update(lin(n, pt(t)), dilated)
                &&& q1.len() >= q0.len()
                &&& q1.subrange(0, q0.len() as int) == q0
                &&& forall|a2: int, b2: [usize; 3]| 0 <= a2 < 3 && touches(pt(t), a2, pt(b2)) ==> #[trigger] q1.contains((a2 as usize, b2))
            },
        },
    ensures
        settled_or_queued(n, keys1, checked.insert(sq).union(match turned { None => Set::empty(), Some(t) => around(t) }), q1),
{
    let grown = checked.insert(sq).union(match turned { None => Set::empty(), Some(t) => around(t) });
    assert forall|s2: (usize, [usize; 3])| #[trigger] grown.contains(s2)
        implies valid_square(n, s2) && (settled(n, keys1, s2.0 as int, pt(s2.1)) || q1.contains(s2)) by {
        match turned {
            None => {}
            Some(t) => {
                if around(t).contains(s2) {
                    lemma_around_valid(n, t, s2);
                    assert(q1.contains((s2.0 as int as usize, s2.1)));
                } else if s2 != sq {
                    assert(checked.contains(s2));
                    lemma_frame(n, keys0, pt(t), dilated, s2.0 as int, pt(s2.1));
                    if q0.contains(s2) {
                        let j = choose|j: int| 0 <= j < q0.len() && q0[j] == s2;
                        assert(q1.subrange(0, q0.len() as int)[j] == q0[j]);
                        assert(q1[j] == s2);
                    }
                }
            }
        }
    }
}

impl SignGrid {
    /// Turns inside one outside corner of each lattice square whose corners alternate, until none
    /// that cleaning looks at does: the squares based in a near block, and every square a turned
    /// sample is a corner of. Each turn makes an outside sample inside, so it ends. The corner
    /// turned is [`turned_corner`]: never a boundary sample, the one off the boundary where only
    /// one is, else the one nearer the surface. A turned sample's key
    /// becomes `dilated`, and its block becomes near. Returns the turned samples, in order.
    pub fn clean(&mut self, dilated: i32) -> (turned: Vec<[usize; 3]>)
        requires
            old(self).wf(),
            dilated <= 0,
        ensures
            final(self).wf(),
            final(self).n == old(self).n,
            // What turning changed: each turned sample, outside and off the boundary before, the
            // corner cleaning turns of a square that alternated as the keys then stood, and
            // nothing else.
            Self::turn_facts(old(self).n, old(self).keys@, final(self).keys@, turned@, dilated),
            // The near blocks, sorted and each once.
            strictly_sorted(final(self).near@),
            forall|b: [usize; 3]| #[trigger] final(self).near@.contains(b)
                <==> (old(self).near@.contains(b) || exists|j: int| 0 <= j < turned@.len() && b == block_of(turned@[j])),
            // What cleaning leaves: every square it looked at is settled.
            forall|axis: int, b: [usize; 3]| 0 <= axis < 3 && in_grid(old(self).n, pt(b))
                && (exists|k: int| 0 <= k < old(self).near@.len() && in_block(old(self).n, old(self).near@[k], pt(b)))
                ==> #[trigger] settled(final(self).n, final(self).keys@, axis, pt(b)),
            forall|axis: int, b: [usize; 3], j: int| 0 <= axis < 3 && 0 <= j < turned@.len()
                && touches(pt(#[trigger] turned@[j]), axis, pt(b))
                ==> #[trigger] settled(final(self).n, final(self).keys@, axis, pt(b)),
            // And a lattice as sampling leaves it is ready for extraction.
            sampled(old(self).n, old(self).keys@, old(self).near@) && boundary_outside(old(self).n, old(self).keys@)
                ==> boundary_outside(final(self).n, final(self).keys@) && all_settled(final(self).n, final(self).keys@)
                && crossings_near(final(self).n, final(self).keys@, final(self).near@),
    {
        let ghost n = self.n;
        let ghost keys0 = self.keys@;
        let ghost near0 = self.near@;
        let ghost mut checked: Set<(usize, [usize; 3])> = Set::empty();
        let mut queue: VecDeque<(usize, [usize; 3])> = VecDeque::new();
        let mut turned: Vec<[usize; 3]> = Vec::new();
        let count = self.near.len();
        let mut bi: usize = 0;
        while bi < count
            invariant
                self.wf(),
                self.n == n,
                dilated <= 0,
                count == near0.len(),
                bi <= count,
                settled_or_queued(n, self.keys@, checked, queue@),
                forall|j: int| 0 <= j < queue@.len() ==> valid_square(n, #[trigger] queue@[j]),
                self.near@ == near0 + turned@.map_values(|t: [usize; 3]| block_of(t)),
                Self::turn_facts(n, keys0, self.keys@, turned@, dilated),
                forall|j: int| 0 <= j < turned@.len() ==> around(#[trigger] turned@[j]).subset_of(checked),
                forall|a2: int, b: [usize; 3], k: int| 0 <= a2 < 3 && 0 <= k < bi && in_block(n, near0[k], pt(b))
                    ==> #[trigger] checked.contains((a2 as usize, b)) && #[trigger] near0[k] == near0[k],
            decreases count - bi,
        {
            let block = self.near[bi];
            proof {
                assert(self.near@[bi as int] == near0[bi as int]);
                assert(Self::block_in(self.n, self.near@[bi as int]));
            }
            let samples = self.block_samples(block);
            let mut si: usize = 0;
            while si < samples.len()
                invariant
                    self.wf(),
                    self.n == n,
                    dilated <= 0,
                    count == near0.len(),
                    bi < count,
                    block == near0[bi as int],
                    forall|c: [usize; 3]| in_block(n, block, pt(c)) ==> #[trigger] samples@.contains(c),
                    si <= samples.len(),
                    forall|j: int| 0 <= j < samples@.len() ==> in_grid(n, pt(#[trigger] samples@[j])),
                    settled_or_queued(n, self.keys@, checked, queue@),
                    forall|j: int| 0 <= j < queue@.len() ==> valid_square(n, #[trigger] queue@[j]),
                    self.near@ == near0 + turned@.map_values(|t: [usize; 3]| block_of(t)),
                    Self::turn_facts(n, keys0, self.keys@, turned@, dilated),
                    forall|j: int| 0 <= j < turned@.len() ==> around(#[trigger] turned@[j]).subset_of(checked),
                    forall|a2: int, b: [usize; 3], k: int| 0 <= a2 < 3 && 0 <= k < bi && in_block(n, near0[k], pt(b))
                        ==> #[trigger] checked.contains((a2 as usize, b)) && #[trigger] near0[k] == near0[k],
                    forall|a2: int, j: int| 0 <= a2 < 3 && 0 <= j < si ==> #[trigger] checked.contains((a2 as usize, samples@[j])),
                decreases samples.len() - si,
            {
                let i = samples[si];
                let mut axis: usize = 0;
                while axis < 3
                    invariant
                        self.wf(),
                        self.n == n,
                        dilated <= 0,
                        axis <= 3,
                        in_grid(n, pt(i)),
                        settled_or_queued(n, self.keys@, checked, queue@),
                        forall|j: int| 0 <= j < queue@.len() ==> valid_square(n, #[trigger] queue@[j]),
                        self.near@ == near0 + turned@.map_values(|t: [usize; 3]| block_of(t)),
                        Self::turn_facts(n, keys0, self.keys@, turned@, dilated),
                        forall|j: int| 0 <= j < turned@.len() ==> around(#[trigger] turned@[j]).subset_of(checked),
                        forall|a2: int| 0 <= a2 < axis ==> #[trigger] checked.contains((a2 as usize, i)),
                        bi < count,
                        si < samples.len(),
                        i == samples@[si as int],
                        forall|a2: int, b: [usize; 3], k: int| 0 <= a2 < 3 && 0 <= k < bi && in_block(n, near0[k], pt(b))
                            ==> #[trigger] checked.contains((a2 as usize, b)) && #[trigger] near0[k] == near0[k],
                        forall|a2: int, j: int| 0 <= a2 < 3 && 0 <= j < si ==> #[trigger] checked.contains((a2 as usize, samples@[j])),
                    decreases 3 - axis,
                {
                    let ghost checked0 = checked;
                    let grown = self.look(axis, i, dilated, &mut queue, &mut turned, Ghost(near0), Ghost(keys0), Ghost(checked));
                    proof {
                        checked = grown@;
                        assert forall|a2: int, b: [usize; 3], k: int| 0 <= a2 < 3 && 0 <= k < bi && in_block(n, near0[k], pt(b))
                            implies #[trigger] checked.contains((a2 as usize, b)) && #[trigger] near0[k] == near0[k] by {
                            assert(checked0.contains((a2 as usize, b)));
                        }
                        assert forall|a2: int, j: int| 0 <= a2 < 3 && 0 <= j < si implies #[trigger] checked.contains((a2 as usize, samples@[j])) by {
                            assert(checked0.contains((a2 as usize, samples@[j])));
                        }
                        assert forall|a2: int| 0 <= a2 < axis + 1 implies #[trigger] checked.contains((a2 as usize, i)) by {
                            if a2 < axis { assert(checked0.contains((a2 as usize, i))); }
                        }
                    }
                    axis += 1;
                }
                proof {
                    assert forall|a2: int, j: int| 0 <= a2 < 3 && 0 <= j < si + 1 implies #[trigger] checked.contains((a2 as usize, samples@[j])) by {
                        if j == si { assert(checked.contains((a2 as usize, i))); }
                    }
                }
                si += 1;
            }
            proof {
                assert forall|a2: int, b: [usize; 3], k: int| 0 <= a2 < 3 && 0 <= k < bi + 1 && in_block(n, near0[k], pt(b))
                    implies #[trigger] checked.contains((a2 as usize, b)) && #[trigger] near0[k] == near0[k] by {
                    if k == bi {
                        assert(samples@.contains(b));
                        let j = choose|j: int| 0 <= j < samples@.len() && samples@[j] == b;
                        assert(checked.contains((a2 as usize, samples@[j])));
                    }
                }
            }
            bi += 1;
        }
        loop
            invariant
                self.wf(),
                self.n == n,
                dilated <= 0,
                settled_or_queued(n, self.keys@, checked, queue@),
                forall|j: int| 0 <= j < queue@.len() ==> valid_square(n, #[trigger] queue@[j]),
                self.near@ == near0 + turned@.map_values(|t: [usize; 3]| block_of(t)),
                Self::turn_facts(n, keys0, self.keys@, turned@, dilated),
                forall|j: int| 0 <= j < turned@.len() ==> around(#[trigger] turned@[j]).subset_of(checked),
                forall|a2: int, b: [usize; 3], k: int| 0 <= a2 < 3 && 0 <= k < near0.len() && in_block(n, near0[k], pt(b))
                    ==> #[trigger] checked.contains((a2 as usize, b)) && #[trigger] near0[k] == near0[k],
            ensures
                queue@.len() == 0,
            decreases outside_count(self.keys@), queue@.len(),
        {
            let ghost q_before = queue@;
            match queue.pop_front() {
                None => break,
                Some((axis, base)) => {
                    let ghost sq = (axis, base);
                    proof {
                        // The square taken off the queue is still looked at, as the next call does.
                        assert(q_before[0] == sq);
                        assert forall|s2: (usize, [usize; 3])| #[trigger] checked.contains(s2)
                            implies valid_square(n, s2) && (settled(n, self.keys@, s2.0 as int, pt(s2.1)) || queue@.contains(s2) || s2 == sq) by {
                            if q_before.contains(s2) && s2 != sq {
                                let j = choose|j: int| 0 <= j < q_before.len() && q_before[j] == s2;
                                assert(j >= 1);
                                assert(queue@[j - 1] == s2);
                            }
                        }
                        assert(valid_square(n, q_before[0]));
                        assert forall|j: int| 0 <= j < queue@.len() implies valid_square(n, #[trigger] queue@[j]) by {
                            assert(queue@[j] == q_before[j + 1]);
                        }
                    }
                    let ghost out0 = outside_count(self.keys@);
                    let ghost qlen = queue@.len();
                    let ghost checked0 = checked;
                    let grown = self.look(axis, base, dilated, &mut queue, &mut turned, Ghost(near0), Ghost(keys0), Ghost(checked));
                    proof {
                        checked = grown@;
                        assert forall|a2: int, b: [usize; 3], k: int| 0 <= a2 < 3 && 0 <= k < near0.len() && in_block(n, near0[k], pt(b))
                            implies #[trigger] checked.contains((a2 as usize, b)) && #[trigger] near0[k] == near0[k] by {
                            assert(checked0.contains((a2 as usize, b)));
                        }
                        assert forall|j: int| 0 <= j < turned@.len() implies around(#[trigger] turned@[j]).subset_of(checked) by {}
                        assert(outside_count(self.keys@) < out0 || (outside_count(self.keys@) == out0 && queue@.len() == qlen));
                    }
                }
            }
        }
        let sorted = sorted_blocks(&self.near);
        let ghost pushed = self.near@;
        self.near = sorted;
        proof {
            assert forall|k: int| 0 <= k < self.near.len() implies #[trigger] Self::block_in(self.n, self.near[k]) by {
                assert(self.near@.contains(self.near@[k]));
                assert(pushed.contains(self.near@[k]));
                let i = choose|i: int| 0 <= i < pushed.len() && pushed[i] == self.near@[k];
            }
            let final_keys = self.keys@;
            assert forall|axis: int, b: [usize; 3]| 0 <= axis < 3 && in_grid(n, pt(b))
                && (exists|k: int| 0 <= k < near0.len() && in_block(n, near0[k], pt(b)))
                implies #[trigger] settled(n, final_keys, axis, pt(b)) by {
                let k = choose|k: int| 0 <= k < near0.len() && in_block(n, near0[k], pt(b));
                assert(checked.contains((axis as usize, b)) && near0[k] == near0[k]);
                assert((axis as usize) as int == axis);
            }
            assert forall|axis: int, b: [usize; 3], j: int| 0 <= axis < 3 && 0 <= j < turned@.len()
                && touches(pt(#[trigger] turned@[j]), axis, pt(b))
                implies #[trigger] settled(n, final_keys, axis, pt(b)) by {
                assert(around(turned@[j]).contains((axis as usize, b)));
                assert(checked.contains((axis as usize, b)));
            }
            let near_pushed = near0 + turned@.map_values(|t: [usize; 3]| block_of(t));
            assert forall|b: [usize; 3]| near_pushed.contains(b)
                <==> (near0.contains(b) || exists|j: int| 0 <= j < turned@.len() && b == block_of(turned@[j])) by {
                if near_pushed.contains(b) {
                    let i = choose|i: int| 0 <= i < near_pushed.len() && near_pushed[i] == b;
                    if i < near0.len() { assert(near0[i] == b); }
                    else { assert(b == block_of(turned@[i - near0.len()])); }
                }
                if near0.contains(b) {
                    let i = choose|i: int| 0 <= i < near0.len() && near0[i] == b;
                    assert(near_pushed[i] == b);
                }
                if exists|j: int| 0 <= j < turned@.len() && b == block_of(turned@[j]) {
                    let j = choose|j: int| 0 <= j < turned@.len() && b == block_of(turned@[j]);
                    assert(near_pushed[near0.len() + j] == b);
                }
            }
        }
        proof {
            if sampled(n, keys0, near0) && boundary_outside(n, keys0) {
                law_cleaning_readies_a_sampled_lattice(n, keys0, near0, self.keys@, self.near@, turned@, dilated);
            }
        }
        turned
    }

    /// Clean the square across `axis` at `base`, recording a turn.
    fn look(&mut self, axis: usize, base: [usize; 3], dilated: i32, queue: &mut VecDeque<(usize, [usize; 3])>,
        turned: &mut Vec<[usize; 3]>, Ghost(near0): Ghost<Seq<[usize; 3]>>, Ghost(keys0): Ghost<Seq<i32>>,
        Ghost(checked): Ghost<Set<(usize, [usize; 3])>>) -> (grown: Ghost<Set<(usize, [usize; 3])>>)
        requires
            old(self).wf(),
            dilated <= 0,
            axis < 3,
            in_grid(old(self).n, pt(base)),
            forall|s2: (usize, [usize; 3])| #[trigger] checked.contains(s2) ==> valid_square(old(self).n, s2)
                && (settled(old(self).n, old(self).keys@, s2.0 as int, pt(s2.1)) || old(queue)@.contains(s2) || s2 == (axis, base)),
            forall|j: int| 0 <= j < old(queue)@.len() ==> valid_square(old(self).n, #[trigger] old(queue)@[j]),
            old(self).near@ == near0 + old(turned)@.map_values(|t: [usize; 3]| block_of(t)),
            Self::turn_facts(old(self).n, keys0, old(self).keys@, old(turned)@, dilated),
            forall|j: int| 0 <= j < old(turned)@.len() ==> around(#[trigger] old(turned)@[j]).subset_of(checked),
        ensures
            final(self).wf(),
            final(self).n == old(self).n,
            settled_or_queued(final(self).n, final(self).keys@, grown@, final(queue)@),
            checked.subset_of(grown@),
            grown@.contains((axis, base)),
            forall|j: int| 0 <= j < final(queue)@.len() ==> valid_square(final(self).n, #[trigger] final(queue)@[j]),
            final(self).near@ == near0 + final(turned)@.map_values(|t: [usize; 3]| block_of(t)),
            Self::turn_facts(final(self).n, keys0, final(self).keys@, final(turned)@, dilated),
            forall|j: int| 0 <= j < final(turned)@.len() ==> around(#[trigger] final(turned)@[j]).subset_of(grown@),
            outside_count(final(self).keys@) < outside_count(old(self).keys@)
                || (final(self).keys@ == old(self).keys@ && final(queue)@ == old(queue)@),
    {
        let ghost n = self.n;
        let ghost keys_before = self.keys@;
        let ghost q0 = queue@;
        let ghost turned0 = turned@;
        let t = self.clean_square(axis, base, dilated, queue);
        let ghost grown = checked.insert((axis, base)).union(match t { None => Set::empty(), Some(t) => around(t) });
        proof {
            lemma_step(n, keys_before, self.keys@, checked, q0, queue@, (axis, base), t, dilated);
            assert forall|j: int| 0 <= j < queue@.len() implies valid_square(n, #[trigger] queue@[j]) by {
                if !(queue@[j].0 < 3 && in_grid(n, pt(queue@[j].1))) {
                    assert(queue@[j] == q0[j]);
                }
            }
        }
        match t {
            None => {}
            Some(pick) => {
                turned.push(pick);
                proof {
                    let tv0 = turned@;
                    assert(tv0.drop_last() =~= turned0);
                    assert(self.keys@ == Self::keys_at(n, keys0, tv0, dilated));
                    assert forall|j: int| 0 <= j < tv0.len() implies #[trigger] Self::chose(n, keys0, tv0, j, dilated) by {
                        if j < turned0.len() {
                            assert(tv0.take(j) =~= turned0.take(j));
                            assert(tv0[j] == turned0[j]);
                            assert(Self::chose(n, keys0, turned0, j, dilated));
                        } else {
                            assert(tv0.take(j) =~= turned0);
                            assert(alternates(n, keys_before, axis as int, pt(base)));
                        }
                    }
                    lemma_lin(n, pt(pick));
                    lemma_outside_update(keys_before, lin(n, pt(pick)), dilated);
                    let tv = turned@;
                    assert(tv.map_values(|t: [usize; 3]| block_of(t)) =~= turned0.map_values(|t: [usize; 3]| block_of(t)).push(block_of(pick)));
                    assert(self.near@ == near0 + tv.map_values(|t: [usize; 3]| block_of(t)));
                    // The pick was outside, so no earlier turn.
                    assert(!turned0.contains(pick)) by {
                        if turned0.contains(pick) {
                            let j = choose|j: int| 0 <= j < turned0.len() && turned0[j] == pick;
                            assert(keys_before[lin(n, pt(turned0[j]))] == dilated);
                        }
                    }
                    assert(tv.no_duplicates()) by {
                        assert forall|a: int, b: int| 0 <= a < b < tv.len() implies tv[a] != tv[b] by {
                            if b == tv.len() - 1 { assert(turned0.contains(tv[a])); }
                            else { assert(turned0[a] != turned0[b]); }
                        }
                    }
                    lemma_lin(n, pt(pick));
                    assert forall|j: int| 0 <= j < tv.len() implies in_grid(n, pt(#[trigger] tv[j]))
                        && !boundary(n, pt(tv[j])) && keys0[lin(n, pt(tv[j]))] > 0
                        && self.keys@[lin(n, pt(tv[j]))] == dilated by {
                        if j < turned0.len() {
                            assert(tv[j] == turned0[j]);
                            lemma_lin(n, pt(tv[j]));
                        } else {
                            assert(keys_before[lin(n, pt(pick))] == keys0[lin(n, pt(pick))]);
                        }
                    }
                    assert forall|c: [usize; 3]| in_grid(n, pt(c)) && !tv.contains(c)
                        implies self.keys@[lin(n, pt(c))] == #[trigger] keys0[lin(n, pt(c))] by {
                        assert(!turned0.contains(c)) by {
                            if turned0.contains(c) {
                                let j = choose|j: int| 0 <= j < turned0.len() && turned0[j] == c;
                                assert(tv[j] == c);
                            }
                        }
                        assert(c != pick) by { if c == pick { assert(tv[tv.len() - 1] == c); } }
                        lemma_lin(n, pt(c));
                        if lin(n, pt(c)) == lin(n, pt(pick)) { lemma_lin_injective(n, pt(c), pt(pick)); assert(c =~= pick); }
                    }
                    assert forall|j: int| 0 <= j < tv.len() implies around(#[trigger] tv[j]).subset_of(grown) by {
                        if j < turned0.len() { assert(tv[j] == turned0[j]); }
                    }
                }
            }
        }
        proof {
            if t.is_none() {
                assert forall|j: int| 0 <= j < turned@.len() implies around(#[trigger] turned@[j]).subset_of(grown) by {}
            }
        }
        Ghost(grown)
    }

    /// The keys once the samples of `turned` have been turned, in order.
    pub open spec fn keys_at(n: [usize; 3], keys0: Seq<i32>, turned: Seq<[usize; 3]>, dilated: i32) -> Seq<i32>
        decreases turned.len(),
    {
        if turned.len() == 0 {
            keys0
        } else {
            Self::keys_at(n, keys0, turned.drop_last(), dilated).update(lin(n, pt(turned.last())), dilated)
        }
    }

    /// The `j`th turn was of the corner cleaning turns of an alternating square, as the keys
    /// stood before it.
    pub open spec fn chose(n: [usize; 3], keys0: Seq<i32>, turned: Seq<[usize; 3]>, j: int, dilated: i32) -> bool {
        let keys = Self::keys_at(n, keys0, turned.take(j), dilated);
        exists|axis: int, b: [usize; 3]| 0 <= axis < 3 && in_grid(n, pt(b))
            && #[trigger] alternates(n, keys, axis, pt(b)) && pt(turned[j]) == turned_corner(n, keys, axis, pt(b))
    }

    /// What the turns so far have done to the keys.
    pub open spec fn turn_facts(n: [usize; 3], keys0: Seq<i32>, keys: Seq<i32>, turned: Seq<[usize; 3]>, dilated: i32) -> bool {
        &&& keys == Self::keys_at(n, keys0, turned, dilated)
        &&& forall|j: int| 0 <= j < turned.len() ==> #[trigger] Self::chose(n, keys0, turned, j, dilated)
        &&& keys.len() == keys0.len()
        &&& turned.no_duplicates()
        &&& forall|j: int| 0 <= j < turned.len() ==> in_grid(n, pt(#[trigger] turned[j]))
            && !boundary(n, pt(turned[j])) && keys0[lin(n, pt(turned[j]))] > 0
            && keys[lin(n, pt(turned[j]))] == dilated
        &&& forall|c: [usize; 3]| in_grid(n, pt(c)) && !turned.contains(c)
            ==> keys[lin(n, pt(c))] == #[trigger] keys0[lin(n, pt(c))]
    }
}

/// Every sample on the lattice's outermost layer is outside, which is how sampling builds it.
pub open spec fn boundary_outside(n: [usize; 3], keys: Seq<i32>) -> bool {
    forall|c: [usize; 3]| in_grid(n, pt(c)) && boundary(n, pt(c)) ==> #[trigger] keys[lin(n, pt(c))] > 0
}

/// With its outermost layer outside, a settled square does not alternate: an alternating square
/// has an inside corner diagonal to each outside one, so two outside corners on the boundary
/// would put an inside one there too.
pub proof fn law_settled_squares_do_not_alternate(n: [usize; 3], keys: Seq<i32>, axis: int, base: [usize; 3])
    requires
        0 <= axis < 3,
        in_grid(n, pt(base)),
        keys.len() == n[0] * n[1] * n[2],
        boundary_outside(n, keys),
        settled(n, keys, axis, pt(base)),
    ensures
        !(has_square(n, axis, pt(base)) && alternates(n, keys, axis, pt(base))),
{
    if has_square(n, axis, pt(base)) && alternates(n, keys, axis, pt(base)) {
        let (u, v) = across(axis);
        let c0 = corner(axis, pt(base), 0);
        let c1 = corner(axis, pt(base), 1);
        let c2 = corner(axis, pt(base), 2);
        let c3 = corner(axis, pt(base), 3);
        let a0: [usize; 3] = [c0.0 as usize, c0.1 as usize, c0.2 as usize];
        let a1: [usize; 3] = [c1.0 as usize, c1.1 as usize, c1.2 as usize];
        let a2: [usize; 3] = [c2.0 as usize, c2.1 as usize, c2.2 as usize];
        let a3: [usize; 3] = [c3.0 as usize, c3.1 as usize, c3.2 as usize];
        assert(pt(a0) == c0 && pt(a1) == c1 && pt(a2) == c2 && pt(a3) == c3);
        assert(in_grid(n, c0) && in_grid(n, c1) && in_grid(n, c2) && in_grid(n, c3));
        if inside_at(n, keys, c0) {
            // The outside corners are `c1` and `c2`; each on the boundary puts `c0` or `c3` there.
            assert(boundary(n, c1) && boundary(n, c2));
            assert(!boundary(n, c0));
            assert(!boundary(n, c3));
            assert(false);
        } else {
            assert(boundary(n, c0) && boundary(n, c3));
            assert(!boundary(n, c1));
            assert(!boundary(n, c2));
            assert(false);
        }
    }
}

/// Cleaning never turns a boundary sample, so an outermost layer that was outside stays so.
pub proof fn law_clean_keeps_boundary_outside(n: [usize; 3], keys0: Seq<i32>, keys: Seq<i32>, turned: Seq<[usize; 3]>, dilated: i32)
    requires
        SignGrid::turn_facts(n, keys0, keys, turned, dilated),
        boundary_outside(n, keys0),
    ensures
        boundary_outside(n, keys),
{
    assert forall|c: [usize; 3]| in_grid(n, pt(c)) && boundary(n, pt(c)) implies #[trigger] keys[lin(n, pt(c))] > 0 by {
        if turned.contains(c) {
            let j = choose|j: int| 0 <= j < turned.len() && turned[j] == c;
            assert(!boundary(n, pt(turned[j])));
        }
        assert(keys0[lin(n, pt(c))] > 0);
    }
}

/// `s` sorted and each once: the same blocks, in order.
fn sorted_blocks(s: &Vec<[usize; 3]>) -> (r: Vec<[usize; 3]>)
    ensures
        strictly_sorted(r@),
        forall|x: [usize; 3]| #[trigger] r@.contains(x) <==> s@.contains(x),
{
    let mut r: Vec<[usize; 3]> = Vec::new();
    let mut i: usize = 0;
    while i < s.len()
        invariant
            i <= s.len(),
            strictly_sorted(r@),
            forall|x: [usize; 3]| #[trigger] r@.contains(x) <==> s@.subrange(0, i as int).contains(x),
        decreases s.len() - i,
    {
        let x = s[i];
        let mut p: usize = 0;
        while p < r.len() && lex_less(&r[p], &x)
            invariant
                p <= r.len(),
                strictly_sorted(r@),
                forall|j: int| 0 <= j < p ==> lex_lt(#[trigger] r@[j], x),
            decreases r.len() - p,
        {
            p += 1;
        }
        let ghost r0 = r@;
        let present = p < r.len() && r[p][0] == x[0] && r[p][1] == x[1] && r[p][2] == x[2];
        if !present {
            r.insert(p, x);
            proof {
                assert forall|a: int, b: int| 0 <= a < b < r@.len() implies lex_lt(#[trigger] r@[a], #[trigger] r@[b]) by {
                    if p < r0.len() {
                        assert(!lex_lt(r0[p as int], x));
                        assert(r0[p as int] != x) by {
                            if r0[p as int] == x { assert(r0[p as int] =~= x); }
                        }
                    }
                    if b < p {
                    } else if b == p {
                    } else if a < p {
                        assert(r@[b] == r0[b - 1]);
                        if b - 1 > p { assert(lex_lt(r0[p as int], r0[b - 1])); }
                    } else if a == p {
                        assert(r@[b] == r0[b - 1]);
                        if b - 1 > p { assert(lex_lt(r0[p as int], r0[b - 1])); }
                    } else {
                        assert(r@[a] == r0[a - 1]);
                        assert(r@[b] == r0[b - 1]);
                    }
                }
            }
        }
        proof {
            let sub = s@.subrange(0, i as int + 1);
            let old_sub = s@.subrange(0, i as int);
            assert(sub =~= old_sub.push(x));
            assert forall|y: [usize; 3]| sub.contains(y) <==> (old_sub.contains(y) || y == x) by {
                if sub.contains(y) && y != x {
                    let j = choose|j: int| 0 <= j < sub.len() && sub[j] == y;
                    assert(old_sub[j] == y);
                }
                if old_sub.contains(y) {
                    let j = choose|j: int| 0 <= j < old_sub.len() && old_sub[j] == y;
                    assert(sub[j] == y);
                }
                if y == x { assert(sub[i as int] == x); }
            }
            assert forall|y: [usize; 3]| #[trigger] r@.contains(y) <==> (r0.contains(y) || y == x) by {
                if present {
                    assert(r0[p as int] =~= x);
                } else {
                    if r@.contains(y) {
                        let j = choose|j: int| 0 <= j < r@.len() && r@[j] == y;
                        if j < p { assert(r0[j] == y); } else if j > p { assert(r0[j - 1] == y); }
                    }
                    if r0.contains(y) {
                        let j = choose|j: int| 0 <= j < r0.len() && r0[j] == y;
                        if j < p { assert(r@[j] == y); } else { assert(r@[j + 1] == y); }
                    }
                    assert(r@[p as int] == x);
                }
            }
        }
        i += 1;
    }
    proof { assert(s@.subrange(0, s@.len() as int) =~= s@); }
    r
}

fn lex_less(a: &[usize; 3], b: &[usize; 3]) -> (r: bool)
    ensures r == lex_lt(*a, *b),
{
    a[0] < b[0] || (a[0] == b[0] && (a[1] < b[1] || (a[1] == b[1] && a[2] < b[2])))
}


/// Block `b` is at most one block from `m` along every axis.
pub open spec fn next_to(b: [usize; 3], m: [usize; 3]) -> bool {
    &&& b[0] <= m[0] + 1 && m[0] <= b[0] + 1
    &&& b[1] <= m[1] + 1 && m[1] <= b[1] + 1
    &&& b[2] <= m[2] + 1 && m[2] <= b[2] + 1
}

/// A block extraction looks in: one of the lattice's, next to a near block. An edge that crosses
/// has an end in a near block, and the cells around it are based within two samples of that end.
pub open spec fn marked(n: [usize; 3], near: Seq<[usize; 3]>, b: [usize; 3]) -> bool {
    SignGrid::block_in(n, b) && exists|j: int| 0 <= j < near.len() && next_to(b, #[trigger] near[j])
}

/// The order blocks are visited in: `z` slowest, `x` fastest.
pub open spec fn zyx_lt(a: [usize; 3], b: [usize; 3]) -> bool {
    a[2] < b[2] || (a[2] == b[2] && (a[1] < b[1] || (a[1] == b[1] && a[0] < b[0])))
}

/// The order candidates come in: by block, blocks in order, and in a block by sample, `z`
/// slowest.
pub open spec fn sample_lt(a: [usize; 3], b: [usize; 3]) -> bool {
    zyx_lt(block_of(a), block_of(b)) || (block_of(a) == block_of(b) && zyx_lt(a, b))
}

/// Where `c` is among `m`'s 27 neighbors, `z` slowest, counting from `m - (1, 1, 1)`.
pub open spec fn stage(c: [usize; 3], m: [usize; 3]) -> int {
    9 * (c[2] - m[2] + 1) + 3 * (c[1] - m[1] + 1) + (c[0] - m[0] + 1)
}

proof fn lemma_blocks_along(n: usize, b: usize)
    requires n >= 1,
    ensures (b * BLOCK < n) <==> (b < (n - 1) / 8 + 1),
{
    let q = (n - 1) / 8;
    assert(8 * q <= n - 1 < 8 * q + 8) by (nonlinear_arith) requires q == (n - 1) / 8, n >= 1;
    if b <= q {
        assert(b * 8 <= q * 8) by (nonlinear_arith) requires b <= q;
    } else {
        assert(b * 8 >= (q + 1) * 8) by (nonlinear_arith) requires b >= q + 1;
    }
}

/// The parts `lin` is computed from stay below the lattice's size.
pub(crate) proof fn lemma_lin_parts(n: [usize; 3], c: Point)
    requires in_grid(n, c),
    ensures
        n[1] * c.2 < n[1] * n[2],
        c.1 + n[1] * c.2 < n[1] * n[2],
        n[0] * (c.1 + n[1] * c.2) < n[0] * n[1] * n[2],
        lin(n, c) < n[0] * n[1] * n[2],
        n[1] * n[2] <= n[0] * n[1] * n[2],
{
    assert(n[1] * n[2] <= n[0] * (n[1] * n[2])) by (nonlinear_arith) requires n[0] >= 1, n[1] * n[2] >= 0;
    let n0 = n[0] as int;
    let n1 = n[1] as int;
    let n2 = n[2] as int;
    assert(n1 * c.2 + n1 <= n1 * n2) by (nonlinear_arith) requires 0 <= c.2 < n2, n1 >= 0;
    let t = c.1 + n1 * c.2;
    assert(n0 * t + n0 <= n0 * (n1 * n2)) by (nonlinear_arith) requires 0 <= t < n1 * n2, n0 >= 0;
    assert(n0 * (n1 * n2) == n0 * n1 * n2) by (nonlinear_arith);
    lemma_lin(n, c);
}

pub(crate) proof fn lemma_in_block(n: [usize; 3], b: [usize; 3], c: [usize; 3])
    requires in_grid(n, pt(c)),
    ensures in_block(n, b, pt(c)) <==> block_of(c) == b,
{
    assert forall|a: int| 0 <= a < 3 implies (b[a] * 8 <= c[a] < b[a] * 8 + 8 <==> c[a] / 8 == b[a]) by {
        let q = c[a] / 8;
        assert(8 * q <= c[a] < 8 * q + 8) by (nonlinear_arith) requires q == c[a] / 8;
        if b[a] < q {
            assert(b[a] * 8 + 8 <= q * 8) by (nonlinear_arith) requires b[a] < q;
        } else if b[a] > q {
            assert(b[a] * 8 >= q * 8 + 8) by (nonlinear_arith) requires b[a] > q;
        }
    }
    if block_of(c) == b {
        assert(c[0] / 8 == b[0] && c[1] / 8 == b[1] && c[2] / 8 == b[2]);
    }
    if c[0] / 8 == b[0] && c[1] / 8 == b[1] && c[2] / 8 == b[2] {
        assert(block_of(c) =~= b);
    }
}

impl SignGrid {
    /// The blocks extraction looks in, `z` slowest and `x` fastest: every block of the lattice
    /// within one block of a near block.
    pub fn candidate_blocks(&self) -> (r: Vec<[usize; 3]>)
        requires
            self.wf(),
        ensures
            forall|b: [usize; 3]| #[trigger] r@.contains(b) <==> marked(self.n, self.near@, b),
            forall|i: int, j: int| 0 <= i < j < r@.len() ==> zyx_lt(#[trigger] r@[i], #[trigger] r@[j]),
    {
        let n = self.n;
        let nb: [usize; 3] = [(n[0] - 1) / BLOCK + 1, (n[1] - 1) / BLOCK + 1, (n[2] - 1) / BLOCK + 1];
        proof {
            assert forall|a: int| 0 <= a < 3 implies 1 <= #[trigger] nb[a] <= n[a] by {
                assert((n[a] - 1) / 8 + 1 <= n[a]) by (nonlinear_arith) requires n[a] >= 1;
            }
            assert(1 <= nb[0] * nb[1] <= n[0] * n[1]) by (nonlinear_arith)
                requires 1 <= nb[0] <= n[0], 1 <= nb[1] <= n[1];
            assert(nb[0] * nb[1] * nb[2] <= n[0] * n[1] * n[2]) by (nonlinear_arith)
                requires 1 <= nb[0] * nb[1] <= n[0] * n[1], 1 <= nb[2] <= n[2];
            assert(n[0] * n[1] * n[2] == self.keys@.len());
            assert(n[0] * n[1] <= n[0] * n[1] * n[2]) by (nonlinear_arith) requires n[0] * n[1] >= 0, n[2] >= 1;
            assert forall|b: [usize; 3]| SignGrid::block_in(n, b) <==> #[trigger] in_grid(nb, pt(b)) by {
                lemma_blocks_along(n[0], b[0]);
                lemma_blocks_along(n[1], b[1]);
                lemma_blocks_along(n[2], b[2]);
            }
        }
        let total: usize = nb[0] * nb[1] * nb[2];
        let mut flags: Vec<bool> = Vec::new();
        while flags.len() < total
            invariant
                flags.len() <= total,
                forall|k: int| 0 <= k < flags.len() ==> !flags@[k],
            decreases total - flags.len(),
        {
            flags.push(false);
        }
        proof {
            assert forall|c: [usize; 3]| #[trigger] in_grid(nb, pt(c)) implies
                (flags@[lin(nb, pt(c))] <==> exists|i: int| 0 <= i < 0 && next_to(c, #[trigger] self.near@[i])) by {
                lemma_lin(nb, pt(c));
            }
        }
        let mut j: usize = 0;
        while j < self.near.len()
            invariant
                self.wf(),
                n == self.n,
                nb[0] >= 1 && nb[1] >= 1 && nb[2] >= 1,
                total == nb[0] * nb[1] * nb[2],
                flags.len() == total,
                j <= self.near.len(),
                forall|c: [usize; 3]| #[trigger] in_grid(nb, pt(c)) ==>
                    (flags@[lin(nb, pt(c))] <==> exists|i: int| 0 <= i < j && next_to(c, #[trigger] self.near@[i])),
            decreases self.near.len() - j,
        {
            let m = self.near[j];
            proof {
                assert(SignGrid::block_in(n, self.near@[j as int]));
                assert forall|a: int| 0 <= a < 3 implies #[trigger] m[a] + 3 <= usize::MAX by {
                    assert(m[a] + 3 <= usize::MAX) by (nonlinear_arith) requires m[a] * 8 < n[a], n[a] <= usize::MAX;
                }
            }
            let ghost before = flags@;
            let mut d: usize = 0;
            while d < 27
                invariant
                    nb[0] >= 1 && nb[1] >= 1 && nb[2] >= 1,
                    total == nb[0] * nb[1] * nb[2],
                    flags.len() == total,
                    before.len() == total,
                    d <= 27,
                    m[0] + 3 <= usize::MAX && m[1] + 3 <= usize::MAX && m[2] + 3 <= usize::MAX,
                    forall|c: [usize; 3]| #[trigger] in_grid(nb, pt(c)) ==>
                        (flags@[lin(nb, pt(c))] <==> (before[lin(nb, pt(c))] || (next_to(c, m) && stage(c, m) < d))),
                decreases 27 - d,
            {
                let dz = d / 9;
                let dy = d / 3 % 3;
                let dx = d % 3;
                assert(d == 9 * dz + 3 * dy + dx && dz < 3 && dy < 3 && dx < 3) by (nonlinear_arith)
                    requires d < 27, dz == d / 9, dy == d / 3 % 3, dx == d % 3;
                let ghost f0 = flags@;
                if m[0] + dx >= 1 && m[0] + dx - 1 < nb[0] && m[1] + dy >= 1 && m[1] + dy - 1 < nb[1]
                    && m[2] + dz >= 1 && m[2] + dz - 1 < nb[2] {
                    let c: [usize; 3] = [m[0] + dx - 1, m[1] + dy - 1, m[2] + dz - 1];
                    proof { lemma_lin_parts(nb, pt(c)); }
                    let k = c[0] + nb[0] * (c[1] + nb[1] * c[2]);
                    flags.set(k, true);
                    proof {
                        assert(next_to(c, m) && stage(c, m) == d);
                        assert forall|e: [usize; 3]| #[trigger] in_grid(nb, pt(e)) implies
                            (flags@[lin(nb, pt(e))] <==> (before[lin(nb, pt(e))] || (next_to(e, m) && stage(e, m) < d + 1))) by {
                            lemma_lin(nb, pt(e));
                            if lin(nb, pt(e)) == k as int {
                                lemma_lin_injective(nb, pt(e), pt(c));
                                assert(e =~= c);
                            } else {
                                assert(flags@[lin(nb, pt(e))] == f0[lin(nb, pt(e))]);
                                if next_to(e, m) && stage(e, m) == d {
                                    assert(e[0] == c[0] && e[1] == c[1] && e[2] == c[2]);
                                    assert(e =~= c);
                                }
                            }
                        }
                    }
                } else {
                    proof {
                        assert forall|e: [usize; 3]| #[trigger] in_grid(nb, pt(e)) implies
                            (flags@[lin(nb, pt(e))] <==> (before[lin(nb, pt(e))] || (next_to(e, m) && stage(e, m) < d + 1))) by {
                            if next_to(e, m) && stage(e, m) == d {
                                assert(e[0] == m[0] + dx - 1 && e[1] == m[1] + dy - 1 && e[2] == m[2] + dz - 1);
                            }
                        }
                    }
                }
                d += 1;
            }
            proof {
                assert forall|c: [usize; 3]| #[trigger] in_grid(nb, pt(c)) implies
                    (flags@[lin(nb, pt(c))] <==> exists|i: int| 0 <= i < j + 1 && next_to(c, #[trigger] self.near@[i])) by {
                    if next_to(c, m) {
                        assert(stage(c, m) < 27);
                        assert(self.near@[j as int] == m);
                    }
                    if exists|i: int| 0 <= i < j + 1 && next_to(c, #[trigger] self.near@[i]) {
                        let i = choose|i: int| 0 <= i < j + 1 && next_to(c, #[trigger] self.near@[i]);
                        if i < j {
                            assert(exists|i2: int| 0 <= i2 < j && next_to(c, #[trigger] self.near@[i2]));
                        }
                    }
                }
            }
            j += 1;
        }
        let mut r: Vec<[usize; 3]> = Vec::new();
        let mut z: usize = 0;
        while z < nb[2]
            invariant
                nb[0] >= 1 && nb[1] >= 1 && nb[2] >= 1,
                total == nb[0] * nb[1] * nb[2],
                flags.len() == total,
                z <= nb[2],
                forall|c: [usize; 3]| #[trigger] in_grid(nb, pt(c)) ==>
                    (flags@[lin(nb, pt(c))] <==> exists|i: int| 0 <= i < self.near@.len() && next_to(c, #[trigger] self.near@[i])),
                forall|c: [usize; 3]| #[trigger] r@.contains(c) <==> (in_grid(nb, pt(c)) && flags@[lin(nb, pt(c))] && c[2] < z),
                forall|i: int, k: int| 0 <= i < k < r@.len() ==> zyx_lt(#[trigger] r@[i], #[trigger] r@[k]),
                forall|i: int| 0 <= i < r@.len() ==> (#[trigger] r@[i])[2] < z,
            decreases nb[2] - z,
        {
            let mut y: usize = 0;
            while y < nb[1]
                invariant
                    nb[0] >= 1 && nb[1] >= 1 && nb[2] >= 1,
                    total == nb[0] * nb[1] * nb[2],
                    flags.len() == total,
                    z < nb[2],
                    y <= nb[1],
                    forall|c: [usize; 3]| #[trigger] r@.contains(c) <==> (in_grid(nb, pt(c)) && flags@[lin(nb, pt(c))]
                        && (c[2] < z || (c[2] == z && c[1] < y))),
                    forall|i: int, k: int| 0 <= i < k < r@.len() ==> zyx_lt(#[trigger] r@[i], #[trigger] r@[k]),
                    forall|i: int| 0 <= i < r@.len() ==> (#[trigger] r@[i])[2] < z || (r@[i][2] == z && r@[i][1] < y),
                decreases nb[1] - y,
            {
                let mut x: usize = 0;
                while x < nb[0]
                    invariant
                        nb[0] >= 1 && nb[1] >= 1 && nb[2] >= 1,
                        total == nb[0] * nb[1] * nb[2],
                        flags.len() == total,
                        z < nb[2],
                        y < nb[1],
                        x <= nb[0],
                        forall|c: [usize; 3]| #[trigger] r@.contains(c) <==> (in_grid(nb, pt(c)) && flags@[lin(nb, pt(c))]
                            && (c[2] < z || (c[2] == z && (c[1] < y || (c[1] == y && c[0] < x))))),
                        forall|i: int, k: int| 0 <= i < k < r@.len() ==> zyx_lt(#[trigger] r@[i], #[trigger] r@[k]),
                        forall|i: int| 0 <= i < r@.len() ==> zyx_lt(#[trigger] r@[i], [x, y, z]),
                    decreases nb[0] - x,
                {
                    let c: [usize; 3] = [x, y, z];
                    proof { lemma_lin_parts(nb, pt(c)); }
                    let k = x + nb[0] * (y + nb[1] * z);
                    if flags[k] {
                        let ghost r0 = r@;
                        r.push(c);
                        proof {
                            assert forall|e: [usize; 3]| #[trigger] r@.contains(e) <==> (in_grid(nb, pt(e)) && flags@[lin(nb, pt(e))]
                                && (e[2] < z || (e[2] == z && (e[1] < y || (e[1] == y && e[0] < x + 1))))) by {
                                if r@.contains(e) && e != c {
                                    let i = choose|i: int| 0 <= i < r@.len() && r@[i] == e;
                                    assert(r0[i] == e);
                                    assert(r0.contains(e));
                                }
                                if in_grid(nb, pt(e)) && flags@[lin(nb, pt(e))]
                                    && (e[2] < z || (e[2] == z && (e[1] < y || (e[1] == y && e[0] < x)))) {
                                    assert(r0.contains(e));
                                    let i = choose|i: int| 0 <= i < r0.len() && r0[i] == e;
                                    assert(r@[i] == e);
                                }
                                if e[2] == z && e[1] == y && e[0] == x {
                                    assert(e =~= c);
                                    assert(r@[r0.len() as int] == c);
                                }
                            }
                        }
                    } else {
                        proof {
                            assert forall|e: [usize; 3]| #[trigger] r@.contains(e) <==> (in_grid(nb, pt(e)) && flags@[lin(nb, pt(e))]
                                && (e[2] < z || (e[2] == z && (e[1] < y || (e[1] == y && e[0] < x + 1))))) by {
                                if e[2] == z && e[1] == y && e[0] == x {
                                    assert(e =~= c);
                                }
                            }
                        }
                    }
                    x += 1;
                }
                y += 1;
            }
            z += 1;
        }
        proof {
            assert forall|b: [usize; 3]| #[trigger] r@.contains(b) <==> marked(self.n, self.near@, b) by {
                if r@.contains(b) {
                    assert(in_grid(nb, pt(b)));
                }
                if marked(self.n, self.near@, b) {
                    assert(in_grid(nb, pt(b)));
                }
            }
        }
        r
    }

    /// Every sample that is the base of a cell, lattice edge or voxel that may cross the
    /// surface: the samples of the blocks [`SignGrid::candidate_blocks`] gives, block by block.
    pub fn candidates(&self) -> (r: Vec<[usize; 3]>)
        requires
            self.wf(),
        ensures
            forall|c: [usize; 3]| #[trigger] r@.contains(c) <==> (in_grid(self.n, pt(c)) && marked(self.n, self.near@, block_of(c))),
            // Block by block, blocks and the samples in each in order, `z` slowest; so each once.
            forall|p: int, q: int| 0 <= p < q < r@.len() ==> sample_lt(#[trigger] r@[p], #[trigger] r@[q]),
    {
        let blocks = self.candidate_blocks();
        let mut r: Vec<[usize; 3]> = Vec::new();
        let mut i: usize = 0;
        while i < blocks.len()
            invariant
                self.wf(),
                i <= blocks.len(),
                forall|b: [usize; 3]| #[trigger] blocks@.contains(b) <==> marked(self.n, self.near@, b),
                forall|c: [usize; 3]| #[trigger] r@.contains(c) <==> (in_grid(self.n, pt(c))
                    && exists|k: int| 0 <= k < i && block_of(c) == #[trigger] blocks@[k]),
                forall|a: int, b: int| 0 <= a < b < blocks@.len() ==> zyx_lt(#[trigger] blocks@[a], #[trigger] blocks@[b]),
                forall|p: int, q: int| 0 <= p < q < r@.len() ==> sample_lt(#[trigger] r@[p], #[trigger] r@[q]),
                forall|p: int, k: int| 0 <= p < r@.len() && i <= k < blocks@.len()
                    ==> zyx_lt(block_of(#[trigger] r@[p]), #[trigger] blocks@[k]),
            decreases blocks.len() - i,
        {
            let b = blocks[i];
            assert(blocks@.contains(b));
            let mut samples = self.block_samples(b);
            let ghost r0 = r@;
            let ghost s0 = samples@;
            r.append(&mut samples);
            proof {
                assert(r@ =~= r0 + s0);
                assert forall|p: int| 0 <= p < s0.len() implies block_of(#[trigger] s0[p]) == b by {
                    lemma_in_block(self.n, b, s0[p]);
                }
                assert forall|p: int, q: int| 0 <= p < q < r@.len() implies sample_lt(#[trigger] r@[p], #[trigger] r@[q]) by {
                    if q < r0.len() {
                        assert(r@[p] == r0[p] && r@[q] == r0[q]);
                    } else if p < r0.len() {
                        assert(r@[p] == r0[p] && r@[q] == s0[q - r0.len()]);
                        assert(zyx_lt(block_of(r0[p]), blocks@[i as int]));
                    } else {
                        assert(r@[p] == s0[p - r0.len()] && r@[q] == s0[q - r0.len()]);
                        assert(zyx_lt(s0[p - r0.len()], s0[q - r0.len()]));
                    }
                }
                assert forall|p: int, k: int| 0 <= p < r@.len() && i + 1 <= k < blocks@.len()
                    implies zyx_lt(block_of(#[trigger] r@[p]), #[trigger] blocks@[k]) by {
                    if p < r0.len() {
                        assert(r@[p] == r0[p]);
                    } else {
                        assert(r@[p] == s0[p - r0.len()]);
                        assert(zyx_lt(blocks@[i as int], blocks@[k]));
                    }
                }
                assert forall|c: [usize; 3]| #[trigger] r@.contains(c) <==> (in_grid(self.n, pt(c))
                    && exists|k: int| 0 <= k < i + 1 && block_of(c) == #[trigger] blocks@[k]) by {
                    if r@.contains(c) {
                        let p = choose|p: int| 0 <= p < r@.len() && r@[p] == c;
                        if p < r0.len() {
                            assert(r0[p] == c);
                            assert(r0.contains(c));
                        } else {
                            assert(s0[p - r0.len()] == c);
                            assert(in_grid(self.n, pt(c)) && in_block(self.n, b, pt(c)));
                            lemma_in_block(self.n, b, c);
                            assert(block_of(c) == blocks@[i as int]);
                        }
                    }
                    if in_grid(self.n, pt(c)) && exists|k: int| 0 <= k < i + 1 && block_of(c) == #[trigger] blocks@[k] {
                        let k = choose|k: int| 0 <= k < i + 1 && block_of(c) == #[trigger] blocks@[k];
                        if k < i {
                            assert(r0.contains(c));
                            let p = choose|p: int| 0 <= p < r0.len() && r0[p] == c;
                            assert(r@[p] == c);
                        } else {
                            lemma_in_block(self.n, b, c);
                            assert(s0.contains(c));
                            let p = choose|p: int| 0 <= p < s0.len() && s0[p] == c;
                            assert(r@[r0.len() + p] == c);
                        }
                    }
                }
            }
            i += 1;
        }
        proof {
            assert forall|c: [usize; 3]| #[trigger] r@.contains(c) <==> (in_grid(self.n, pt(c)) && marked(self.n, self.near@, block_of(c))) by {
                if in_grid(self.n, pt(c)) && marked(self.n, self.near@, block_of(c)) {
                    assert(blocks@.contains(block_of(c)));
                    let k = choose|k: int| 0 <= k < blocks@.len() && blocks@[k] == block_of(c);
                    assert(block_of(c) == blocks@[k]);
                }
                if r@.contains(c) {
                    let k = choose|k: int| 0 <= k < blocks@.len() && block_of(c) == #[trigger] blocks@[k];
                    assert(blocks@.contains(blocks@[k]));
                }
            }
        }
        r
    }
}

} // verus!
