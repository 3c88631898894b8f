//! The truss a refit step stands up: girders on a fixed lattice, each going up at a hashed share
//! of its band, drawn as six-sided tubes with an octahedron at each node.
//!
//! Here are the girders' identities, their hashed order, and the triangles of a tube and of a
//! knuckle; the geometry they are laid over is the caller's.

use vstd::prelude::*;
use vstd::wrapping::u64_specs::{wrapping_add, wrapping_mul};

verus! {

/// Sides of a girder's tube.
pub const SIDES: u32 = 6;

/// The girder from `node` one pitch along `axis` (0, 1 or 2).
#[derive(Clone, Copy, Debug, PartialEq, Eq, Hash, PartialOrd, Ord)]
pub struct Girder {
    pub node: [i64; 3],
    pub axis: u64,
}

/// The splitmix64 finaliser.
pub open spec fn mix_spec(z: u64) -> u64 {
    let z1 = wrapping_add(z, 0x9e37_79b9_7f4a_7c15u64);
    let z2 = wrapping_mul(z1 ^ (z1 >> 30u64), 0xbf58_476d_1ce4_e5b9u64);
    let z3 = wrapping_mul(z2 ^ (z2 >> 27u64), 0x94d0_49bb_1331_11ebu64);
    z3 ^ (z3 >> 31u64)
}

pub fn mix(z: u64) -> (r: u64)
    ensures
        r == mix_spec(z),
{
    let z1 = z.wrapping_add(0x9e37_79b9_7f4a_7c15);
    let z2 = (z1 ^ (z1 >> 30)).wrapping_mul(0xbf58_476d_1ce4_e5b9);
    let z3 = (z2 ^ (z2 >> 27)).wrapping_mul(0x94d0_49bb_1331_11eb);
    z3 ^ (z3 >> 31)
}

/// A girder's hash: its axis folded with each coordinate of its node in turn.
pub open spec fn girder_hash(g: Girder) -> u64 {
    let h0 = 0x9e37_79b9_7f4a_7c15u64 ^ g.axis;
    let h1 = mix_spec(h0 ^ (g.node[0] as u64));
    let h2 = mix_spec(h1 ^ (g.node[1] as u64));
    mix_spec(h2 ^ (g.node[2] as u64))
}

impl Girder {
    /// When it goes up, as the top 53 bits of its hash: the share of its band that must have
    /// passed is `(key + 0.5) / 2^53`, which is never 0 or 1.
    pub fn threshold_key(&self) -> (k: u64)
        ensures
            k == girder_hash(*self) >> 11u64,
            k < 0x20_0000_0000_0000,
    {
        let mut h: u64 = 0x9e37_79b9_7f4a_7c15u64 ^ self.axis;
        h = mix(h ^ (self.node[0] as u64));
        h = mix(h ^ (self.node[1] as u64));
        h = mix(h ^ (self.node[2] as u64));
        assert(h >> 11u64 < 0x20_0000_0000_0000u64) by (bit_vector);
        h >> 11
    }
}

/// The six triangles' corners of a tube whose vertices start at `base`: vertex `base + 2k` is
/// side `k` at the girder's first end and `base + 2k + 1` the same side at its second.
pub open spec fn tube_corner(base: int, t: int) -> int {
    let k = t / 6;
    let c = t % 6;
    let i0 = base + 2 * k;
    let i1 = base + 2 * ((k + 1) % 6);
    if c == 0 { i0 } else if c == 1 { i1 } else if c == 2 { i0 + 1 }
    else if c == 3 { i1 } else if c == 4 { i1 + 1 } else { i0 + 1 }
}

/// The index list of a tube whose twelve vertices start at `base`: two triangles a side,
/// wound outward.
pub fn tube_indices(base: u32) -> (r: Vec<u32>)
    requires
        base + 12 <= u32::MAX,
    ensures
        r@.len() == 36,
        forall|t: int| 0 <= t < 36 ==> r@[t] == tube_corner(base as int, t),
{
    let mut r: Vec<u32> = Vec::new();
    let mut k: u32 = 0;
    while k < SIDES
        invariant
            k <= 6,
            base + 12 <= u32::MAX,
            r@.len() == 6 * k,
            forall|t: int| 0 <= t < 6 * k ==> r@[t] == tube_corner(base as int, t),
        decreases 6 - k,
    {
        let i0 = base + 2 * k;
        let i1 = base + 2 * ((k + 1) % SIDES);
        r.push(i0);
        r.push(i1);
        r.push(i0 + 1);
        r.push(i1);
        r.push(i1 + 1);
        r.push(i0 + 1);
        proof {
            assert forall|t: int| 6 * k <= t < 6 * k + 6 implies r@[t] == tube_corner(base as int, t) by {
                assert(t / 6 == k as int) by (nonlinear_arith)
                    requires 6 * k <= t < 6 * k + 6;
                assert(t % 6 == t - 6 * k) by (nonlinear_arith)
                    requires 6 * k <= t < 6 * k + 6;
            }
        }
        k += 1;
    }
    r
}

/// The octahedron's eight faces, as corners among its six tips (+x, -x, +y, -y, +z, -z).
pub open spec fn knuckle_face(f: int) -> (int, int, int) {
    if f == 0 { (0, 2, 4) } else if f == 1 { (2, 1, 4) } else if f == 2 { (1, 3, 4) }
    else if f == 3 { (3, 0, 4) } else if f == 4 { (2, 0, 5) } else if f == 5 { (1, 2, 5) }
    else if f == 6 { (3, 1, 5) } else { (0, 3, 5) }
}

/// The index list of a knuckle whose six tips start at `base`.
pub fn knuckle_indices(base: u32) -> (r: Vec<u32>)
    requires
        base + 6 <= u32::MAX,
    ensures
        r@.len() == 24,
        forall|f: int| 0 <= f < 8 ==> {
            &&& r@[3 * f] == base + knuckle_face(f).0
            &&& r@[3 * f + 1] == base + knuckle_face(f).1
            &&& r@[3 * f + 2] == base + knuckle_face(f).2
        },
{
    let faces: [(u32, u32, u32); 8] = [(0, 2, 4), (2, 1, 4), (1, 3, 4), (3, 0, 4), (2, 0, 5), (1, 2, 5), (3, 1, 5), (0, 3, 5)];
    let mut r: Vec<u32> = Vec::new();
    let mut f: usize = 0;
    while f < 8
        invariant
            f <= 8,
            base + 6 <= u32::MAX,
            faces@ == seq![(0u32, 2u32, 4u32), (2, 1, 4), (1, 3, 4), (3, 0, 4), (2, 0, 5), (1, 2, 5), (3, 1, 5), (0, 3, 5)],
            r@.len() == 3 * f,
            forall|g: int| 0 <= g < f ==> {
                &&& r@[3 * g] == base + knuckle_face(g).0
                &&& r@[3 * g + 1] == base + knuckle_face(g).1
                &&& r@[3 * g + 2] == base + knuckle_face(g).2
            },
        decreases 8 - f,
    {
        let (a, b, c) = faces[f];
        r.push(base + a);
        r.push(base + b);
        r.push(base + c);
        f += 1;
    }
    r
}

} // verus!
