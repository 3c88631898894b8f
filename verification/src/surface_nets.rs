//! The cell topology of surface nets: which crossings in a cell belong to one loop.
//!
//! A cell has twelve edges, corner `c` at offset `(c & 1, c >> 1 & 1, c >> 2)`. Edge `4a + bu + 2bv`
//! runs along axis `a` at offsets `bu`, `bv` across it. Once the grid is clean each face holds at
//! most two crossings, so each face pairs its two and the pairs chain into loops; a vertex is made
//! per loop rather than per cell.

use vstd::prelude::*;
use vstd::set_lib::*;

verus! {

/// The label of an edge that no loop crosses.
pub const NO_LOOP: u8 = 255u8;

/// The two corners edge `e` joins.
pub open spec fn edge_ends(e: int) -> (int, int) {
    if e == 0 { (0, 1) } else if e == 1 { (2, 3) } else if e == 2 { (4, 5) } else if e == 3 { (6, 7) }
    else if e == 4 { (0, 2) } else if e == 5 { (1, 3) } else if e == 6 { (4, 6) } else if e == 7 { (5, 7) }
    else if e == 8 { (0, 4) } else if e == 9 { (1, 5) } else if e == 10 { (2, 6) } else { (3, 7) }
}

/// Face `f`'s `k`th edge, walking round it.
pub open spec fn face_edge(f: int, k: int) -> int {
    let face: (int, int, int, int) = if f == 0 { (4, 10, 6, 8) } else if f == 1 { (5, 11, 7, 9) }
        else if f == 2 { (0, 9, 2, 8) } else if f == 3 { (1, 11, 3, 10) }
        else if f == 4 { (0, 5, 1, 4) } else { (2, 7, 3, 6) };
    if k == 0 { face.0 } else if k == 1 { face.1 } else if k == 2 { face.2 } else { face.3 }
}

/// The two faces edge `e` lies on, the lower numbered first.
pub open spec fn faces_of(e: int) -> (int, int) {
    if e == 0 { (2, 4) } else if e == 1 { (3, 4) } else if e == 2 { (2, 5) } else if e == 3 { (3, 5) }
    else if e == 4 { (0, 4) } else if e == 5 { (1, 4) } else if e == 6 { (0, 5) } else if e == 7 { (1, 5) }
    else if e == 8 { (0, 2) } else if e == 9 { (1, 2) } else if e == 10 { (0, 3) } else { (1, 3) }
}

pub open spec fn on_face(e: int, f: int) -> bool {
    f == faces_of(e).0 || f == faces_of(e).1
}

/// Whether edge `e`'s corners lie on opposite sides of the surface.
pub open spec fn crosses(inside: [bool; 8], e: int) -> bool {
    inside[edge_ends(e).0] != inside[edge_ends(e).1]
}

/// How many of face `f`'s edges cross.
pub open spec fn crossings_on(inside: [bool; 8], f: int) -> int {
    (if crosses(inside, face_edge(f, 0)) { 1int } else { 0int })
        + (if crosses(inside, face_edge(f, 1)) { 1int } else { 0int })
        + (if crosses(inside, face_edge(f, 2)) { 1int } else { 0int })
        + (if crosses(inside, face_edge(f, 3)) { 1int } else { 0int })
}

/// What a clean grid guarantees a cell: no face with four crossings, which is a lattice square
/// whose corners alternate.
pub open spec fn clean_cell(inside: [bool; 8]) -> bool {
    forall|f: int| 0 <= f < 6 ==> #[trigger] crossings_on(inside, f) != 4
}

/// The crossing edge paired with `e` on face `f`: the other crossing edge there.
pub open spec fn mate(inside: [bool; 8], e: int, f: int) -> int {
    let a = face_edge(f, 0);
    let b = face_edge(f, 1);
    let c = face_edge(f, 2);
    let d = face_edge(f, 3);
    if a != e && crosses(inside, a) { a }
    else if b != e && crosses(inside, b) { b }
    else if c != e && crosses(inside, c) { c }
    else if d != e && crosses(inside, d) { d }
    else { -1 }
}

/// Edge `e`'s face that is not `f`.
pub open spec fn other_face(e: int, f: int) -> int {
    if faces_of(e).0 == f { faces_of(e).1 } else { faces_of(e).0 }
}

/// Whether `g` is `e`, or is reached from it by at most `n` pairings on the faces between.
pub open spec fn reach(inside: [bool; 8], e: int, g: int, n: nat) -> bool
    decreases n,
{
    e == g || (n > 0 && (reach(inside, mate(inside, e, faces_of(e).0), g, (n - 1) as nat)
        || reach(inside, mate(inside, e, faces_of(e).1), g, (n - 1) as nat)))
}

/// No crossing edge before `e` carries `e`'s label: `e` is where its loop was first met.
pub open spec fn first_of_label(inside: [bool; 8], id: [u8; 12], e: int) -> bool {
    forall|g: int| 0 <= g < e && crosses(inside, g) ==> id[g] != id[e]
}

/// Some crossing edge carries label `k`.
pub open spec fn label_used(inside: [bool; 8], id: [u8; 12], k: int) -> bool {
    exists|e: int| 0 <= e < 12 && #[trigger] crosses(inside, e) && id[e] == k
}

/// `id` labels each crossing edge with its loop and every other edge [`NO_LOOP`], and `count`
/// loops are numbered in the order their first edges come.
pub open spec fn labels_loops(inside: [bool; 8], id: [u8; 12], count: u8) -> bool {
    &&& forall|e: int| 0 <= e < 12 ==> (id[e] == NO_LOOP <==> !#[trigger] crosses(inside, e))
    &&& forall|e: int| 0 <= e < 12 && #[trigger] crosses(inside, e) ==> id[e] < count
    // Paired edges are on one loop.
    &&& forall|e: int| 0 <= e < 12 && #[trigger] crosses(inside, e)
        ==> id[mate(inside, e, faces_of(e).0)] == id[e] && id[mate(inside, e, faces_of(e).1)] == id[e]
    // And one loop is one chain of pairings.
    &&& forall|e: int, g: int| 0 <= e < 12 && 0 <= g < 12 && #[trigger] crosses(inside, e)
        && #[trigger] crosses(inside, g) && id[e] == id[g] ==> reach(inside, e, g, 12)
    &&& forall|k: int| 0 <= k < count ==> #[trigger] label_used(inside, id, k)
    &&& forall|e: int, g: int| 0 <= e < g < 12 && #[trigger] crosses(inside, e) && #[trigger] crosses(inside, g)
        && first_of_label(inside, id, e) && first_of_label(inside, id, g) ==> id[e] < id[g]
}

// ---- The cell's tables, as code.

fn ends(e: usize) -> (r: (usize, usize))
    requires e < 12,
    ensures r.0 as int == edge_ends(e as int).0, r.1 as int == edge_ends(e as int).1,
{
    match e {
        0 => (0, 1), 1 => (2, 3), 2 => (4, 5), 3 => (6, 7),
        4 => (0, 2), 5 => (1, 3), 6 => (4, 6), 7 => (5, 7),
        8 => (0, 4), 9 => (1, 5), 10 => (2, 6), _ => (3, 7),
    }
}

fn faces(e: usize) -> (r: (usize, usize))
    requires e < 12,
    ensures r.0 as int == faces_of(e as int).0, r.1 as int == faces_of(e as int).1,
{
    match e {
        0 => (2, 4), 1 => (3, 4), 2 => (2, 5), 3 => (3, 5),
        4 => (0, 4), 5 => (1, 4), 6 => (0, 5), 7 => (1, 5),
        8 => (0, 2), 9 => (1, 2), 10 => (0, 3), _ => (1, 3),
    }
}

fn edge_of_face(f: usize, k: usize) -> (r: usize)
    requires f < 6, k < 4,
    ensures r as int == face_edge(f as int, k as int), r < 12,
{
    let face: (usize, usize, usize, usize) = match f {
        0 => (4, 10, 6, 8), 1 => (5, 11, 7, 9), 2 => (0, 9, 2, 8),
        3 => (1, 11, 3, 10), 4 => (0, 5, 1, 4), _ => (2, 7, 3, 6),
    };
    match k { 0 => face.0, 1 => face.1, 2 => face.2, _ => face.3 }
}

fn crossing(inside: &[bool; 8], e: usize) -> (r: bool)
    requires e < 12,
    ensures r == crosses(*inside, e as int),
{
    let (a, b) = ends(e);
    inside[a] != inside[b]
}

fn mate_of(inside: &[bool; 8], e: usize, f: usize) -> (r: usize)
    requires e < 12, f < 6,
    ensures mate(*inside, e as int, f as int) >= 0 ==> r as int == mate(*inside, e as int, f as int),
{
    let mut k: usize = 0;
    while k < 4
        invariant
            k <= 4, f < 6, e < 12,
            forall|j: int| 0 <= j < k ==> !(face_edge(f as int, j) != e && crosses(*inside, face_edge(f as int, j))),
        decreases 4 - k,
    {
        let g = edge_of_face(f, k);
        if g != e && crossing(inside, g) {
            return g;
        }
        k += 1;
    }
    12
}

// ---- Facts about the tables.

/// Every edge lies on its two faces, and they differ.
proof fn lemma_faces(e: int)
    requires 0 <= e < 12,
    ensures
        0 <= faces_of(e).0 < faces_of(e).1 < 6,
        on_face(e, other_face(e, faces_of(e).0)),
        on_face(e, other_face(e, faces_of(e).1)),
        other_face(e, faces_of(e).0) == faces_of(e).1,
        other_face(e, faces_of(e).1) == faces_of(e).0,
{
}

/// Every edge of a face has that face among its two.
proof fn lemma_face_edges(f: int, k: int)
    requires 0 <= f < 6, 0 <= k < 4,
    ensures 0 <= face_edge(f, k) < 12, on_face(face_edge(f, k), f),
{
}

/// Two edges with the same two faces are the same edge.
proof fn lemma_faces_unique(e: int, g: int)
    requires 0 <= e < 12, 0 <= g < 12, on_face(e, faces_of(g).0), on_face(e, faces_of(g).1),
    ensures e == g,
{
}

/// Going round a face changes sides an even number of times.
proof fn lemma_even(inside: [bool; 8], f: int)
    requires 0 <= f < 6,
    ensures crossings_on(inside, f) == 0 || crossings_on(inside, f) == 2 || crossings_on(inside, f) == 4,
{
}

/// On a clean cell a crossing edge has a partner on each of its faces, which crosses, shares the
/// face, and has the edge for its partner there.
proof fn lemma_mate(inside: [bool; 8], e: int, f: int)
    requires
        clean_cell(inside),
        0 <= e < 12,
        crosses(inside, e),
        on_face(e, f),
    ensures
        0 <= mate(inside, e, f) < 12,
        mate(inside, e, f) != e,
        crosses(inside, mate(inside, e, f)),
        on_face(mate(inside, e, f), f),
        mate(inside, mate(inside, e, f), f) == e,
{
    lemma_faces(e);
    lemma_even(inside, f);
    assert(crossings_on(inside, f) != 4);
    lemma_face_edges(f, 0);
    lemma_face_edges(f, 1);
    lemma_face_edges(f, 2);
    lemma_face_edges(f, 3);
}

/// On a clean cell a crossing edge's partner on a face crosses, shares the face, and is not it.
pub(crate) proof fn lemma_mate_pub(inside: [bool; 8], e: int, f: int)
    requires
        clean_cell(inside),
        0 <= e < 12,
        crosses(inside, e),
        on_face(e, f),
    ensures
        0 <= mate(inside, e, f) < 12,
        mate(inside, e, f) != e,
        crosses(inside, mate(inside, e, f)),
        on_face(mate(inside, e, f), f),
{
    lemma_mate(inside, e, f);
}

/// `reach` only grows with the steps allowed.
proof fn lemma_reach_more(inside: [bool; 8], e: int, g: int, n: nat, m: nat)
    requires reach(inside, e, g, n), n <= m,
    ensures reach(inside, e, g, m),
    decreases n,
{
    if e != g {
        if reach(inside, mate(inside, e, faces_of(e).0), g, (n - 1) as nat) {
            lemma_reach_more(inside, mate(inside, e, faces_of(e).0), g, (n - 1) as nat, (m - 1) as nat);
        } else {
            lemma_reach_more(inside, mate(inside, e, faces_of(e).1), g, (n - 1) as nat, (m - 1) as nat);
        }
    }
}

/// A walk round the crossings: `path[j]` is `path[j - 1]`'s partner across the face it leaves
/// by, which is the one it did not arrive by; `vias[j]` is the face `path[j]` was arrived by.
pub open spec fn is_walk(inside: [bool; 8], path: Seq<int>, vias: Seq<int>) -> bool {
    &&& path.len() == vias.len()
    &&& path.len() >= 1
    &&& vias[0] == faces_of(path[0]).0
    &&& forall|j: int| 0 <= j < path.len() ==> 0 <= #[trigger] path[j] < 12 && crosses(inside, path[j])
        && on_face(path[j], vias[j])
    &&& forall|j: int| 1 <= j < path.len() ==> vias[j] == other_face(path[j - 1], vias[j - 1])
        && #[trigger] path[j] == mate(inside, path[j - 1], vias[j])
    &&& path.no_duplicates()
}

/// A walk goes on to where it goes next, when that is new.
proof fn lemma_walk_push(inside: [bool; 8], path: Seq<int>, vias: Seq<int>)
    requires
        is_walk(inside, path, vias),
        0 <= walk_next(inside, path, vias) < 12,
        crosses(inside, walk_next(inside, path, vias)),
        on_face(walk_next(inside, path, vias), other_face(path.last(), vias.last())),
        !path.contains(walk_next(inside, path, vias)),
    ensures
        is_walk(inside, path.push(walk_next(inside, path, vias)), vias.push(other_face(path.last(), vias.last()))),
{
    let x = walk_next(inside, path, vias);
    let p2 = path.push(x);
    let v2 = vias.push(other_face(path.last(), vias.last()));
    assert forall|j: int| 0 <= j < p2.len() implies 0 <= #[trigger] p2[j] < 12
        && crosses(inside, p2[j]) && on_face(p2[j], v2[j]) by {
        if j < path.len() { assert(p2[j] == path[j]); assert(v2[j] == vias[j]); }
    }
    assert forall|j: int| 1 <= j < p2.len() implies v2[j] == other_face(p2[j - 1], v2[j - 1])
        && #[trigger] p2[j] == mate(inside, p2[j - 1], v2[j]) by {
        if j < path.len() {
            assert(p2[j] == path[j]);
            assert(path[j] == mate(inside, path[j - 1], vias[j]));
        }
    }
    assert forall|a: int, b: int| 0 <= a < b < p2.len() implies p2[a] != p2[b] by {
        if b == p2.len() - 1 { assert(path.contains(p2[a])); }
        else { assert(path[a] != path[b]); }
    }
}

/// Where a walk goes next.
pub open spec fn walk_next(inside: [bool; 8], path: Seq<int>, vias: Seq<int>) -> int {
    mate(inside, path.last(), other_face(path.last(), vias.last()))
}

/// Along a walk each edge's partner on the face it was arrived by is the edge before it.
proof fn lemma_walk_back(inside: [bool; 8], path: Seq<int>, vias: Seq<int>, j: int)
    requires clean_cell(inside), is_walk(inside, path, vias), 1 <= j < path.len(),
    ensures mate(inside, path[j], vias[j]) == path[j - 1],
{
    assert(path[j] == mate(inside, path[j - 1], vias[j]));
    let p = path[j - 1];
    assert(0 <= p < 12);
    lemma_faces(p);
    lemma_mate(inside, p, vias[j]);
}

/// The first edge a walk comes back to is the one it started from.
proof fn lemma_walk_fresh(inside: [bool; 8], path: Seq<int>, vias: Seq<int>)
    requires clean_cell(inside), is_walk(inside, path, vias),
    ensures
        walk_next(inside, path, vias) == path[0] || !path.contains(walk_next(inside, path, vias)),
{
    let m = path.len() - 1;
    let pm = path[m];
    assert(0 <= pm < 12);
    let out_m = other_face(pm, vias[m]);
    let x = walk_next(inside, path, vias);
    lemma_faces(pm);
    lemma_mate(inside, pm, out_m);
    if path.contains(x) && x != path[0] {
        let j = choose|j: int| 0 <= j < path.len() && path[j] == x;
        assert(path[j] == x);
        assert(j >= 1);
        let in_j = vias[j];
        let out_j = other_face(x, in_j);
        lemma_faces(x);
        assert(mate(inside, x, out_m) == pm);
        lemma_walk_back(inside, path, vias, j);
        if out_m == in_j {
            assert(pm == path[j - 1]);
            assert(false);
        } else {
            assert(out_m == out_j);
            if j < m {
                assert(path[j + 1] == mate(inside, path[j], vias[j + 1]));
                assert(pm == path[j + 1]);
                assert(false);
            } else {
                assert(false);
            }
        }
    }
}

/// A closed walk: every edge on it has both its partners on it.
#[verifier::rlimit(40)]
proof fn lemma_walk_closed(inside: [bool; 8], path: Seq<int>, vias: Seq<int>, j: int)
    requires
        clean_cell(inside),
        is_walk(inside, path, vias),
        walk_next(inside, path, vias) == path[0],
        0 <= j < path.len(),
    ensures
        path.contains(mate(inside, path[j], faces_of(path[j]).0)),
        path.contains(mate(inside, path[j], faces_of(path[j]).1)),
{
    let m = path.len() - 1;
    let pj = path[j];
    assert(0 <= pj < 12);
    let out_j = other_face(pj, vias[j]);
    lemma_faces(pj);
    // Forwards: the next edge, or the first one again from the last.
    if j < m {
        assert(path[j + 1] == mate(inside, path[j], vias[j + 1]));
        assert(path.contains(mate(inside, pj, out_j)));
    } else {
        assert(path.contains(mate(inside, pj, out_j)));
    }
    // Backwards: the edge before, or the last one from the first.
    if j >= 1 {
        lemma_walk_back(inside, path, vias, j);
        assert(path.contains(mate(inside, pj, vias[j])));
    } else {
        let pm = path[m];
        assert(0 <= pm < 12);
        let out_m = other_face(pm, vias[m]);
        lemma_faces(pm);
        lemma_mate(inside, pm, out_m);
        assert(mate(inside, pj, out_m) == pm);
        if out_m != vias[0] {
            assert(out_m == out_j);
            if m == 0 {
                assert(false);
            } else {
                assert(path[1] == mate(inside, path[0], vias[1]));
                assert(pm == path[1]);
                // So `path[0]` and `path[1]` would lie on the same two faces.
                let p1 = path[1];
                lemma_faces(p1);
                lemma_mate(inside, pj, vias[1]);
                assert(on_face(pj, vias[1]));
                assert(on_face(pj, other_face(p1, vias[1])));
                lemma_faces_unique(pj, p1);
                assert(false);
            }
        }
        assert(path.contains(mate(inside, pj, vias[j])));
    }
}

/// Along a walk, each edge reaches every one after it, and every one before it.
#[verifier::spinoff_prover]
#[verifier::rlimit(30)]
proof fn lemma_walk_reach(inside: [bool; 8], path: Seq<int>, vias: Seq<int>, a: int, b: int)
    requires
        clean_cell(inside),
        is_walk(inside, path, vias),
        0 <= a < path.len(),
        0 <= b < path.len(),
    ensures reach(inside, path[a], path[b], if a <= b { (b - a) as nat } else { (a - b) as nat }),
    decreases if a <= b { b - a } else { a - b },
{
    let pa = path[a];
    assert(0 <= pa < 12);
    lemma_faces(pa);
    if a < b {
        lemma_walk_reach(inside, path, vias, a + 1, b);
        assert(path[a + 1] == mate(inside, path[a], vias[a + 1]));
        assert(reach(inside, pa, path[b], (b - a) as nat));
    } else if a > b {
        lemma_walk_reach(inside, path, vias, a - 1, b);
        lemma_walk_back(inside, path, vias, a);
        assert(reach(inside, pa, path[b], (a - b) as nat));
    }
}

/// A walk never has more edges than the cell.
proof fn lemma_short(path: Seq<int>)
    requires
        path.no_duplicates(),
        forall|j: int| 0 <= j < path.len() ==> 0 <= #[trigger] path[j] < 12,
    ensures path.len() <= 12,
{
    path.unique_seq_to_set();
    lemma_int_range(0, 12);
    assert forall|x: int| path.to_set().contains(x) implies set_int_range(0, 12).contains(x) by {
        assert(path.contains(x));
        let j = choose|j: int| 0 <= j < path.len() && path[j] == x;
        assert(0 <= path[j] < 12);
    }
    lemma_len_subset(path.to_set(), set_int_range(0, 12));
}

/// Labels that only crossing edges carry, each below `count`.
pub open spec fn marks_crossings(inside: [bool; 8], id: [u8; 12], count: int) -> bool {
    forall|e: int| 0 <= e < 12 ==> (!crosses(inside, e) ==> #[trigger] id[e] == NO_LOOP)
        && (id[e] != NO_LOOP ==> crosses(inside, e) && id[e] < count)
}

/// A labelled edge's partners carry its label.
pub open spec fn consistent(inside: [bool; 8], id: [u8; 12]) -> bool {
    forall|e: int| 0 <= e < 12 && #[trigger] id[e] != NO_LOOP
        ==> id[mate(inside, e, faces_of(e).0)] == id[e] && id[mate(inside, e, faces_of(e).1)] == id[e]
}

/// Edges with one label reach each other.
pub open spec fn connected_labels(inside: [bool; 8], id: [u8; 12]) -> bool {
    forall|e: int, g: int| 0 <= e < 12 && 0 <= g < 12 && #[trigger] id[e] != NO_LOOP && #[trigger] id[g] == id[e]
        ==> reach(inside, e, g, 12)
}

/// The edge a walk comes to next carries no label from before it, when none of the walk did and
/// the labels from before are closed under pairing.
proof fn lemma_next_unlabelled(inside: [bool; 8], before: [u8; 12], path: Seq<int>, vias: Seq<int>)
    requires
        clean_cell(inside),
        is_walk(inside, path, vias),
        consistent(inside, before),
        forall|j: int| 0 <= j < path.len() ==> before[#[trigger] path[j]] == NO_LOOP,
    ensures
        0 <= walk_next(inside, path, vias) < 12,
        crosses(inside, walk_next(inside, path, vias)),
        on_face(walk_next(inside, path, vias), other_face(path.last(), vias.last())),
        before[walk_next(inside, path, vias)] == NO_LOOP,
{
    let m = path.len() - 1;
    let last = path[m];
    assert(0 <= last < 12);
    let out = other_face(last, vias[m]);
    lemma_faces(last);
    lemma_mate(inside, last, out);
    let x = walk_next(inside, path, vias);
    lemma_faces(x);
    if before[x] != NO_LOOP {
        assert(mate(inside, x, out) == last);
        assert(before[last] == before[x]);
        assert(false);
    }
}

/// Labelling a closed walk with a new label keeps the labels closed under pairing, and each
/// label one chain.
proof fn lemma_label_loop(inside: [bool; 8], before: [u8; 12], id: [u8; 12], path: Seq<int>, vias: Seq<int>, count: int)
    requires
        clean_cell(inside),
        is_walk(inside, path, vias),
        walk_next(inside, path, vias) == path[0],
        0 <= count < NO_LOOP,
        marks_crossings(inside, before, count),
        consistent(inside, before),
        connected_labels(inside, before),
        forall|j: int| 0 <= j < path.len() ==> before[#[trigger] path[j]] == NO_LOOP,
        forall|e: int| 0 <= e < 12 ==> #[trigger] id[e] == (if path.contains(e) { count as u8 } else { before[e] }),
    ensures
        marks_crossings(inside, id, count + 1),
        consistent(inside, id),
        connected_labels(inside, id),
{
    assert forall|e: int| 0 <= e < 12 && #[trigger] id[e] != NO_LOOP implies
        id[mate(inside, e, faces_of(e).0)] == id[e] && id[mate(inside, e, faces_of(e).1)] == id[e] by {
        lemma_faces(e);
        if path.contains(e) {
            let j = choose|j: int| 0 <= j < path.len() && path[j] == e;
            lemma_walk_closed(inside, path, vias, j);
            lemma_mate(inside, e, faces_of(e).0);
            lemma_mate(inside, e, faces_of(e).1);
        } else {
            assert(before[e] != NO_LOOP);
            lemma_mate(inside, e, faces_of(e).0);
            lemma_mate(inside, e, faces_of(e).1);
            let a = mate(inside, e, faces_of(e).0);
            let b = mate(inside, e, faces_of(e).1);
            if path.contains(a) {
                let j = choose|j: int| 0 <= j < path.len() && path[j] == a;
                assert(before[path[j]] == NO_LOOP);
                assert(false);
            }
            if path.contains(b) {
                let j = choose|j: int| 0 <= j < path.len() && path[j] == b;
                assert(before[path[j]] == NO_LOOP);
                assert(false);
            }
        }
    }
    assert forall|e: int, g: int| 0 <= e < 12 && 0 <= g < 12 && #[trigger] id[e] != NO_LOOP && #[trigger] id[g] == id[e]
        implies reach(inside, e, g, 12) by {
        if path.contains(e) {
            let a = choose|j: int| 0 <= j < path.len() && path[j] == e;
            if !path.contains(g) {
                assert(before[g] == count as u8);
                assert(false);
            }
            let b = choose|j: int| 0 <= j < path.len() && path[j] == g;
            lemma_walk_reach(inside, path, vias, a, b);
            lemma_short(path);
            lemma_reach_more(inside, e, g, if a <= b { (b - a) as nat } else { (a - b) as nat }, 12);
        } else if path.contains(g) {
            assert(before[e] == count as u8);
            assert(false);
        } else {
            assert(before[e] != NO_LOOP && before[g] == before[e]);
        }
    }
    assert forall|e: int| 0 <= e < 12 implies (!crosses(inside, e) ==> #[trigger] id[e] == NO_LOOP)
        && (id[e] != NO_LOOP ==> crosses(inside, e) && id[e] < count + 1) by {
        if path.contains(e) {
            let j = choose|j: int| 0 <= j < path.len() && path[j] == e;
            assert(crosses(inside, path[j]));
        }
    }
}

/// Walk the loop through `start`, labelling it `count`. Returns the labels, with the walk for
/// the proof.
fn walk_loop(inside: &[bool; 8], id: &mut [u8; 12], start: usize, count: u8) -> (walk: Ghost<(Seq<int>, Seq<int>)>)
    requires
        clean_cell(*inside),
        start < 12,
        count < NO_LOOP,
        crosses(*inside, start as int),
        old(id)[start as int] == NO_LOOP,
        consistent(*inside, *old(id)),
    ensures
        is_walk(*inside, walk@.0, walk@.1),
        walk@.0[0] == start,
        walk_next(*inside, walk@.0, walk@.1) == start,
        forall|j: int| 0 <= j < walk@.0.len() ==> old(id)[#[trigger] walk@.0[j]] == NO_LOOP,
        forall|e: int| 0 <= e < 12 ==> #[trigger] final(id)[e]
            == (if walk@.0.contains(e) { count } else { old(id)[e] }),
{
    let ghost before = *id;
    let ghost mut path: Seq<int> = Seq::empty();
    let ghost mut vias: Seq<int> = Seq::empty();
    let (first_face, _) = faces(start);
    let mut edge: usize = start;
    let mut via: usize = first_face;
    proof { lemma_faces(start as int); }
    loop
        invariant_except_break
            (edge < 12),
            (via < 6),
            crosses(*inside, edge as int),
            on_face(edge as int, via as int),
            before[edge as int] == NO_LOOP,
            !path.contains(edge as int),
            path.len() == 0 ==> edge == start && via as int == faces_of(start as int).0,
            path.len() > 0 ==> edge as int == walk_next(*inside, path, vias)
                && via as int == other_face(path.last(), vias.last()),
        invariant
            start < 12,
            vias.len() == path.len(),
            clean_cell(*inside),
            consistent(*inside, before),
            path.len() > 0 ==> is_walk(*inside, path, vias) && path[0] == start,
            forall|j: int| 0 <= j < path.len() ==> before[#[trigger] path[j]] == NO_LOOP,
            forall|e: int| 0 <= e < 12 ==> #[trigger] id[e] == (if path.contains(e) { count } else { before[e] }),
        ensures
            path.len() > 0,
            walk_next(*inside, path, vias) == start,
        decreases 12 - path.len(),
    {
        proof {
            let p2 = path.push(edge as int);
            assert forall|a: int, b: int| 0 <= a < b < p2.len() implies p2[a] != p2[b] by {
                if b == p2.len() - 1 { assert(path.contains(p2[a])); }
            }
            assert forall|j: int| 0 <= j < p2.len() implies 0 <= #[trigger] p2[j] < 12 by {
                if j < path.len() { assert(p2[j] == path[j]); }
            }
            lemma_short(p2);
        }
        id[edge] = count;
        proof {
            let old_path = path;
            let old_vias = vias;
            path = path.push(edge as int);
            vias = vias.push(via as int);
            assert forall|e: int| 0 <= e < 12 implies #[trigger] id[e] == (if path.contains(e) { count } else { before[e] }) by {
                if e != edge as int {
                    assert(path.contains(e) == old_path.contains(e)) by {
                        if old_path.contains(e) {
                            let j = choose|j: int| 0 <= j < old_path.len() && old_path[j] == e;
                            assert(path[j] == e);
                        }
                        if path.contains(e) {
                            let j = choose|j: int| 0 <= j < path.len() && path[j] == e;
                            assert(j < old_path.len());
                            assert(old_path[j] == e);
                        }
                    }
                } else {
                    assert(path[path.len() - 1] == e);
                }
            }
            assert forall|j: int| 0 <= j < path.len() implies before[#[trigger] path[j]] == NO_LOOP by {
                if j < old_path.len() { assert(path[j] == old_path[j]); }
            }
            if old_path.len() == 0 {
                assert(path =~= seq![edge as int]);
                assert(vias =~= seq![via as int]);
                assert(path.no_duplicates());
            } else {
                lemma_walk_push(*inside, old_path, old_vias);
            }
            assert(path[0] == start);
        }
        let (fa, fb) = faces(edge);
        let leave: usize = if fa == via { fb } else { fa };
        proof {
            lemma_faces(edge as int);
            lemma_next_unlabelled(*inside, before, path, vias);
            lemma_walk_fresh(*inside, path, vias);
        }
        let next = mate_of(inside, edge, leave);
        via = leave;
        edge = next;
        if edge == start {
            break;
        }
    }
    Ghost((path, vias))
}

/// Whether a cell's corners leave no face with four crossings: what [`loops`] asks of a cell,
/// and what a cleaned grid gives every cell.
pub fn is_clean_cell(inside: [bool; 8]) -> (r: bool)
    ensures
        r == clean_cell(inside),
{
    let mut f: usize = 0;
    while f < 6
        invariant
            f <= 6,
            forall|g: int| 0 <= g < f ==> #[trigger] crossings_on(inside, g) != 4,
        decreases 6 - f,
    {
        let all = crossing(&inside, edge_of_face(f, 0)) && crossing(&inside, edge_of_face(f, 1))
            && crossing(&inside, edge_of_face(f, 2)) && crossing(&inside, edge_of_face(f, 3));
        if all {
            assert(crossings_on(inside, f as int) == 4);
            return false;
        }
        f += 1;
    }
    true
}

/// Which loop of crossings each edge is on, from the cell's corner signs, and how many loops
/// there are. Each face holds at most two crossings once the grid is clean, so each pairs its
/// two and the pairs chain into loops. An edge no loop crosses is [`NO_LOOP`].
pub fn loops(inside: [bool; 8]) -> (res: ([u8; 12], u8))
    requires
        clean_cell(inside),
    ensures
        labels_loops(inside, res.0, res.1),
        res.1 <= 12,
{
    let mut id: [u8; 12] = [255u8; 12];
    let mut count: u8 = 0;
    let ghost mut leads: Seq<int> = Seq::empty();
    let mut start: usize = 0;
    while start < 12
        invariant
            start <= 12,
            clean_cell(inside),
            count as int == leads.len(),
            count <= start,
            marks_crossings(inside, id, count as int),
            consistent(inside, id),
            connected_labels(inside, id),
            forall|e: int| 0 <= e < start && crosses(inside, e) ==> #[trigger] id[e] != NO_LOOP,
            forall|k: int| 0 <= k < leads.len() ==> 0 <= #[trigger] leads[k] < start && id[leads[k]] == k
                && first_of_label(inside, id, leads[k]),
            forall|k: int, l: int| 0 <= k < l < leads.len() ==> leads[k] < leads[l],
        decreases 12 - start,
    {
        if !crossing(&inside, start) || id[start] != 255 {
            start += 1;
            continue;
        }
        let ghost before = id;
        let walk = walk_loop(&inside, &mut id, start, count);
        proof {
            let (path, vias) = walk@;
            lemma_label_loop(inside, before, id, path, vias, count as int);
            assert(path[0] == start as int);
            assert(id[start as int] == count);
            assert forall|e: int| 0 <= e < start && crosses(inside, e) implies #[trigger] id[e] != NO_LOOP
                && id[e] != count by {
                if path.contains(e) {
                    let j = choose|j: int| 0 <= j < path.len() && path[j] == e;
                    assert(before[path[j]] == NO_LOOP);
                    assert(false);
                }
                assert(id[e] == before[e]);
            }
            assert forall|k: int| 0 <= k < leads.len() implies id[#[trigger] leads[k]] == k
                && first_of_label(inside, id, leads[k]) by {
                let lk = leads[k];
                assert(id[lk] == before[lk]);
                assert forall|g: int| 0 <= g < lk && crosses(inside, g) implies id[g] != id[lk] by {
                    assert(id[g] == before[g]);
                }
            }
            assert(first_of_label(inside, id, start as int));
            leads = leads.push(start as int);
            assert forall|k: int| 0 <= k < leads.len() implies 0 <= #[trigger] leads[k] < start + 1
                && id[leads[k]] == k && first_of_label(inside, id, leads[k]) by {
                if k < leads.len() - 1 {
                    assert(leads[k] == leads.drop_last()[k]);
                }
            }
        }
        count += 1;
        start += 1;
    }
    proof {
        assert forall|k: int| 0 <= k < count implies #[trigger] label_used(inside, id, k) by {
            assert(crosses(inside, leads[k]) && id[leads[k]] == k);
        }
        assert forall|e: int, g: int| 0 <= e < g < 12 && #[trigger] crosses(inside, e) && #[trigger] crosses(inside, g)
            && first_of_label(inside, id, e) && first_of_label(inside, id, g) implies id[e] < id[g] by {
            let ke = id[e] as int;
            let kg = id[g] as int;
            assert(id[e] != NO_LOOP);
            assert(id[g] != NO_LOOP);
            // A first edge of its label is that label's lead.
            assert(leads[ke] == e) by {
                if leads[ke] < e { assert(id[leads[ke]] == id[e]); }
                if leads[ke] > e { assert(id[e] == id[leads[ke]]); }
            }
            assert(leads[kg] == g) by {
                if leads[kg] < g { assert(id[leads[kg]] == id[g]); }
                if leads[kg] > g { assert(id[g] == id[leads[kg]]); }
            }
            if ke > kg { assert(leads[kg] < leads[ke]); }
        }
        assert forall|e: int| 0 <= e < 12 && #[trigger] crosses(inside, e)
            implies id[mate(inside, e, faces_of(e).0)] == id[e] && id[mate(inside, e, faces_of(e).1)] == id[e] by {
            assert(id[e] != NO_LOOP);
        }
        assert forall|e: int, g: int| 0 <= e < 12 && 0 <= g < 12 && #[trigger] crosses(inside, e)
            && #[trigger] crosses(inside, g) && id[e] == id[g] implies reach(inside, e, g, 12) by {
            assert(id[e] != NO_LOOP);
        }
    }
    (id, count)
}

/// How many edges below `m` start a loop: cross, and are the first with their label.
pub open spec fn firsts_below(inside: [bool; 8], id: [u8; 12], m: int) -> int
    decreases m,
{
    if m <= 0 {
        0
    } else {
        firsts_below(inside, id, m - 1)
            + if crosses(inside, m - 1) && first_of_label(inside, id, m - 1) { 1int } else { 0int }
    }
}

/// Edges joined by pairings carry one label.
proof fn lemma_reach_label(inside: [bool; 8], id: [u8; 12], count: u8, e: int, g: int, n: nat)
    requires
        clean_cell(inside),
        labels_loops(inside, id, count),
        0 <= e < 12,
        crosses(inside, e),
        reach(inside, e, g, n),
    ensures
        0 <= g < 12,
        crosses(inside, g),
        id[g] == id[e],
    decreases n,
{
    if e != g {
        let f0 = faces_of(e).0;
        let f1 = faces_of(e).1;
        lemma_mate_pub(inside, e, f0);
        lemma_mate_pub(inside, e, f1);
        if reach(inside, mate(inside, e, f0), g, (n - 1) as nat) {
            lemma_reach_label(inside, id, count, mate(inside, e, f0), g, (n - 1) as nat);
        } else {
            lemma_reach_label(inside, id, count, mate(inside, e, f1), g, (n - 1) as nat);
        }
    }
}

/// Every crossing edge's label starts at an edge at or below it.
proof fn lemma_first_of(inside: [bool; 8], id: [u8; 12], e: int) -> (g: int)
    requires
        0 <= e < 12,
        crosses(inside, e),
    ensures
        0 <= g <= e,
        crosses(inside, g),
        id[g] == id[e],
        first_of_label(inside, id, g),
    decreases e,
{
    if first_of_label(inside, id, e) {
        e
    } else {
        let h = choose|h: int| 0 <= h < e && crosses(inside, h) && id[h] == id[e];
        lemma_first_of(inside, id, h)
    }
}

/// No edge below `f` starts a loop when none is counted.
proof fn lemma_none_below(inside: [bool; 8], id: [u8; 12], f: int)
    requires
        0 <= f <= 12,
        firsts_below(inside, id, f) == 0,
    ensures
        forall|h: int| 0 <= h < f ==> !(crosses(inside, h) && first_of_label(inside, id, h)),
    decreases f,
{
    if f > 0 {
        lemma_firsts_nonneg(inside, id, f - 1);
        lemma_none_below(inside, id, f - 1);
    }
}

proof fn lemma_firsts_nonneg(inside: [bool; 8], id: [u8; 12], f: int)
    ensures
        firsts_below(inside, id, f) >= 0,
    decreases f,
{
    if f > 0 {
        lemma_firsts_nonneg(inside, id, f - 1);
    }
}

/// The last edge below `f` to start a loop, with none between it and `f`.
proof fn lemma_last_first(inside: [bool; 8], id: [u8; 12], f: int) -> (g: int)
    requires
        0 < f <= 12,
        firsts_below(inside, id, f) > 0,
    ensures
        0 <= g < f,
        crosses(inside, g),
        first_of_label(inside, id, g),
        firsts_below(inside, id, f) == firsts_below(inside, id, g) + 1,
        forall|h: int| g < h < f ==> !(crosses(inside, h) && first_of_label(inside, id, h)),
    decreases f,
{
    if crosses(inside, f - 1) && first_of_label(inside, id, f - 1) {
        f - 1
    } else {
        if f - 1 == 0 {
            assert(firsts_below(inside, id, 0) == 0);
        }
        lemma_last_first(inside, id, f - 1)
    }
}

/// The label of an edge that starts a loop is how many edges below it start one.
proof fn lemma_rank(inside: [bool; 8], id: [u8; 12], count: u8, f: int)
    requires
        labels_loops(inside, id, count),
        0 <= f < 12,
        crosses(inside, f),
        first_of_label(inside, id, f),
    ensures
        id[f] == firsts_below(inside, id, f),
    decreases f,
{
    assert(id[f] < count);
    if firsts_below(inside, id, f) == 0 {
        lemma_none_below(inside, id, f);
        if id[f] > 0 {
            assert(label_used(inside, id, 0));
            let e = choose|e: int| 0 <= e < 12 && #[trigger] crosses(inside, e) && id[e] == 0;
            let g = lemma_first_of(inside, id, e);
            if g > f {
                assert(id[f] < id[g]);
            }
        }
    } else {
        lemma_firsts_nonneg(inside, id, f);
        let fs = lemma_last_first(inside, id, f);
        lemma_rank(inside, id, count, fs);
        assert(id[fs] < id[f]);
        if id[f] > id[fs] + 1 {
            let l = id[fs] + 1;
            assert(label_used(inside, id, l));
            let e = choose|e: int| 0 <= e < 12 && #[trigger] crosses(inside, e) && id[e] == l;
            let g = lemma_first_of(inside, id, e);
            if g < fs {
                assert(id[g] < id[fs]);
            } else if g > f {
                assert(id[f] < id[g]);
            }
        }
    }
}

/// Two labellings with the same loops count the edges that start one alike.
proof fn lemma_firsts_same(inside: [bool; 8], a: [u8; 12], b: [u8; 12], m: int)
    requires
        forall|e: int| 0 <= e < 12 && crosses(inside, e) ==> first_of_label(inside, a, e) == first_of_label(inside, b, e),
        m <= 12,
    ensures
        firsts_below(inside, a, m) == firsts_below(inside, b, m),
    decreases m,
{
    if m > 0 {
        lemma_firsts_same(inside, a, b, m - 1);
    }
}

/// A cell's loops are labelled one way only: the loops are the edges' pairings, and each is
/// numbered by where its first edge comes.
pub proof fn law_a_cell_is_labelled_one_way(inside: [bool; 8], a: [u8; 12], ca: u8, b: [u8; 12], cb: u8)
    requires
        clean_cell(inside),
        labels_loops(inside, a, ca),
        labels_loops(inside, b, cb),
    ensures
        a == b,
        ca == cb,
{
    // One partition: the same edges share a label in both.
    assert forall|e: int, g: int| 0 <= e < 12 && 0 <= g < 12 && #[trigger] crosses(inside, e) && #[trigger] crosses(inside, g)
        implies (a[e] == a[g] <==> b[e] == b[g]) by {
        if a[e] == a[g] {
            lemma_reach_label(inside, b, cb, e, g, 12);
        }
        if b[e] == b[g] {
            lemma_reach_label(inside, a, ca, e, g, 12);
        }
    }
    assert forall|e: int| 0 <= e < 12 && crosses(inside, e) implies first_of_label(inside, a, e) == first_of_label(inside, b, e) by {
        assert forall|h: int| 0 <= h < e && crosses(inside, h) implies (a[h] != a[e] <==> b[h] != b[e]) by {
            assert(crosses(inside, h) && crosses(inside, e));
        }
    }
    assert forall|e: int| 0 <= e < 12 implies a[e] == b[e] by {
        if crosses(inside, e) {
            let g = lemma_first_of(inside, a, e);
            lemma_rank(inside, a, ca, g);
            lemma_rank(inside, b, cb, g);
            lemma_firsts_same(inside, a, b, g);
            assert(crosses(inside, g) && crosses(inside, e));
        }
    }
    assert(a =~= b);
    if ca > cb {
        assert(label_used(inside, a, cb as int));
        let e = choose|e: int| 0 <= e < 12 && #[trigger] crosses(inside, e) && a[e] == cb;
        assert(b[e] < cb);
    } else if cb > ca {
        assert(label_used(inside, b, ca as int));
        let e = choose|e: int| 0 <= e < 12 && #[trigger] crosses(inside, e) && b[e] == ca;
        assert(a[e] < ca);
    }
}

/// Pairings reach alike in two cells whose edges cross alike.
proof fn lemma_reach_alike(inside: [bool; 8], other: [bool; 8], n: nat)
    requires
        forall|e: int| #[trigger] crosses(other, e) == crosses(inside, e),
    ensures
        forall|e: int, g: int| #[trigger] reach(other, e, g, n) == reach(inside, e, g, n),
    decreases n,
{
    assert forall|e: int, f: int| #[trigger] mate(other, e, f) == mate(inside, e, f) by {
        assert(crosses(other, face_edge(f, 0)) == crosses(inside, face_edge(f, 0)));
        assert(crosses(other, face_edge(f, 1)) == crosses(inside, face_edge(f, 1)));
        assert(crosses(other, face_edge(f, 2)) == crosses(inside, face_edge(f, 2)));
        assert(crosses(other, face_edge(f, 3)) == crosses(inside, face_edge(f, 3)));
    }
    if n > 0 {
        lemma_reach_alike(inside, other, (n - 1) as nat);
    }
    assert forall|e: int, g: int| #[trigger] reach(other, e, g, n) == reach(inside, e, g, n) by {
        if n > 0 {
            assert(mate(other, e, faces_of(e).0) == mate(inside, e, faces_of(e).0));
            assert(mate(other, e, faces_of(e).1) == mate(inside, e, faces_of(e).1));
            assert(reach(other, mate(inside, e, faces_of(e).0), g, (n - 1) as nat)
                == reach(inside, mate(inside, e, faces_of(e).0), g, (n - 1) as nat));
            assert(reach(other, mate(inside, e, faces_of(e).1), g, (n - 1) as nat)
                == reach(inside, mate(inside, e, faces_of(e).1), g, (n - 1) as nat));
        }
    }
}

/// Whether an edge starts a loop, and whether a label is used, read alike in two cells whose
/// edges cross alike; and so does a labelling.
proof fn lemma_labels_transfer(x: [bool; 8], y: [bool; 8], id: [u8; 12], count: u8)
    requires
        forall|e: int| #[trigger] crosses(y, e) == crosses(x, e),
        forall|e: int, f: int| #[trigger] mate(y, e, f) == mate(x, e, f),
        forall|e: int, g: int| #[trigger] reach(y, e, g, 12) == reach(x, e, g, 12),
        labels_loops(x, id, count),
    ensures
        labels_loops(y, id, count),
{
    assert forall|e: int| 0 <= e < 12 implies (id[e] == NO_LOOP <==> !#[trigger] crosses(y, e)) by {
        assert(crosses(x, e) == crosses(y, e));
    }
    assert forall|e: int| 0 <= e < 12 && #[trigger] crosses(y, e) implies id[e] < count by {
        assert(crosses(x, e));
    }
    assert forall|e: int| 0 <= e < 12 && #[trigger] crosses(y, e) implies
        id[mate(y, e, faces_of(e).0)] == id[e] && id[mate(y, e, faces_of(e).1)] == id[e] by {
        assert(crosses(x, e));
        assert(mate(y, e, faces_of(e).0) == mate(x, e, faces_of(e).0));
        assert(mate(y, e, faces_of(e).1) == mate(x, e, faces_of(e).1));
    }
    assert forall|e: int, g: int| 0 <= e < 12 && 0 <= g < 12 && #[trigger] crosses(y, e)
        && #[trigger] crosses(y, g) && id[e] == id[g] implies reach(y, e, g, 12) by {
        assert(crosses(x, e) && crosses(x, g));
        assert(reach(y, e, g, 12) == reach(x, e, g, 12));
    }
    assert forall|k: int| 0 <= k < count implies #[trigger] label_used(y, id, k) by {
        assert(label_used(x, id, k));
        let e = choose|e: int| 0 <= e < 12 && #[trigger] crosses(x, e) && id[e] == k;
        assert(crosses(y, e));
    }
    assert forall|e: int| 0 <= e < 12 implies #[trigger] first_of_label(y, id, e) == first_of_label(x, id, e) by {
        if first_of_label(x, id, e) {
            assert forall|g: int| 0 <= g < e && crosses(y, g) implies id[g] != id[e] by {
                assert(crosses(x, g));
            }
        }
        if first_of_label(y, id, e) {
            assert forall|g: int| 0 <= g < e && crosses(x, g) implies id[g] != id[e] by {
                assert(crosses(y, g));
            }
        }
    }
    assert forall|e: int, g: int| 0 <= e < g < 12 && #[trigger] crosses(y, e) && #[trigger] crosses(y, g)
        && first_of_label(y, id, e) && first_of_label(y, id, g) implies id[e] < id[g] by {
        assert(crosses(x, e) && crosses(x, g));
        assert(first_of_label(x, id, e) && first_of_label(x, id, g));
    }
}

/// Only which edges cross matters to a cell's loops: swapping inside and outside at every
/// corner keeps the cell clean or not, and keeps every labelling of its loops.
pub proof fn law_loops_see_only_crossings(inside: [bool; 8], other: [bool; 8], id: [u8; 12], count: u8)
    requires
        forall|k: int| 0 <= k < 8 ==> other[k] == !inside[k],
    ensures
        clean_cell(other) == clean_cell(inside),
        labels_loops(other, id, count) == labels_loops(inside, id, count),
{
    assert forall|e: int| #[trigger] crosses(other, e) == crosses(inside, e) by {
        let (x, y) = edge_ends(e);
        assert(0 <= x < 8 && 0 <= y < 8);
    }
    assert forall|e: int| #[trigger] crosses(inside, e) == crosses(other, e) by {
        assert(crosses(other, e) == crosses(inside, e));
    }
    lemma_reach_alike(inside, other, 12);
    lemma_reach_alike(other, inside, 12);
    assert forall|e: int, f: int| #[trigger] mate(other, e, f) == mate(inside, e, f) by {
        assert(crosses(other, face_edge(f, 0)) == crosses(inside, face_edge(f, 0)));
        assert(crosses(other, face_edge(f, 1)) == crosses(inside, face_edge(f, 1)));
        assert(crosses(other, face_edge(f, 2)) == crosses(inside, face_edge(f, 2)));
        assert(crosses(other, face_edge(f, 3)) == crosses(inside, face_edge(f, 3)));
    }
    assert forall|e: int, f: int| #[trigger] mate(inside, e, f) == mate(other, e, f) by {
        assert(mate(other, e, f) == mate(inside, e, f));
    }
    assert forall|f: int| #[trigger] crossings_on(other, f) == crossings_on(inside, f) by {
        assert(crosses(other, face_edge(f, 0)) == crosses(inside, face_edge(f, 0)));
        assert(crosses(other, face_edge(f, 1)) == crosses(inside, face_edge(f, 1)));
        assert(crosses(other, face_edge(f, 2)) == crosses(inside, face_edge(f, 2)));
        assert(crosses(other, face_edge(f, 3)) == crosses(inside, face_edge(f, 3)));
    }
    if clean_cell(inside) {
        assert forall|f: int| 0 <= f < 6 implies #[trigger] crossings_on(other, f) != 4 by {
            assert(crossings_on(inside, f) != 4);
        }
    }
    if clean_cell(other) {
        assert forall|f: int| 0 <= f < 6 implies #[trigger] crossings_on(inside, f) != 4 by {
            assert(crossings_on(other, f) != 4);
        }
    }
    if labels_loops(inside, id, count) {
        lemma_labels_transfer(inside, other, id, count);
    }
    if labels_loops(other, id, count) {
        lemma_labels_transfer(other, inside, id, count);
    }
}

/// So a cell's loops, labels and count alike, are those of the cell with every corner's side
/// swapped: whatever labels one and whatever labels the other agree.
pub proof fn law_flipping_a_cell_keeps_its_loops(inside: [bool; 8], other: [bool; 8], a: [u8; 12], ca: u8, b: [u8; 12], cb: u8)
    requires
        forall|k: int| 0 <= k < 8 ==> other[k] == !inside[k],
        clean_cell(inside),
        labels_loops(inside, a, ca),
        labels_loops(other, b, cb),
    ensures
        a == b,
        ca == cb,
{
    law_loops_see_only_crossings(inside, other, b, cb);
    law_a_cell_is_labelled_one_way(inside, a, ca, b, cb);
}

} // verus!
