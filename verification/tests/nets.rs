use std::collections::HashMap;

use lc_client::grid::SignGrid;
use lc_client::nets::{extractable, nets};

/// A cube lattice `n` on a side, with `inside` inside and every block near.
fn lattice(n: usize, inside: &[[usize; 3]]) -> SignGrid {
    let mut keys = vec![50i32; n * n * n];
    for c in inside {
        keys[c[0] + n * (c[1] + n * c[2])] = -50;
    }
    let blocks = (n - 1) / 8 + 1;
    let mut near = Vec::new();
    for z in 0..blocks {
        for y in 0..blocks {
            for x in 0..blocks {
                near.push([x, y, z]);
            }
        }
    }
    SignGrid { n: [n, n, n], keys, near }
}

/// Every edge of the mesh's faces is shared by exactly two faces, once each way round.
fn closed(quads: &[[u32; 4]]) -> bool {
    let mut edges: HashMap<(u32, u32), i32> = HashMap::new();
    for q in quads {
        for k in 0..4 {
            let (a, b) = (q[k], q[(k + 1) % 4]);
            *edges.entry((a, b)).or_insert(0) += 1;
        }
    }
    edges.iter().all(|(&(a, b), &count)| count == 1 && edges.get(&(b, a)) == Some(&1))
}

/// The faces at each vertex make one fan: from any of them every other is reached through
/// faces at the vertex that share an edge there.
fn one_fan_each(quads: &[[u32; 4]]) -> bool {
    let mut at: HashMap<u32, Vec<usize>> = HashMap::new();
    for (k, q) in quads.iter().enumerate() {
        for &v in q {
            at.entry(v).or_default().push(k);
        }
    }
    // The other ends of the edges of face `k` at `v`.
    let ends = |k: usize, v: u32| -> Vec<u32> {
        let q = quads[k];
        let mut out = Vec::new();
        for i in 0..4 {
            if q[i] == v {
                out.push(q[(i + 1) % 4]);
                out.push(q[(i + 3) % 4]);
            }
        }
        out
    };
    at.iter().all(|(&v, faces)| {
        let mut seen = vec![faces[0]];
        let mut todo = vec![faces[0]];
        while let Some(k) = todo.pop() {
            for &l in faces {
                if !seen.contains(&l) && ends(k, v).iter().any(|w| ends(l, v).contains(w)) {
                    seen.push(l);
                    todo.push(l);
                }
            }
        }
        seen.len() == faces.len()
    })
}

#[test]
fn one_sample_inside_is_a_closed_octahedron() {
    let mut g = lattice(4, &[[1, 1, 1]]);
    let turned = g.clean(-1);
    assert!(turned.is_empty());
    assert!(extractable(&g));
    let mesh = nets(&g);
    assert_eq!(mesh.cells.len(), 8);
    assert_eq!(mesh.vertices, 8);
    assert_eq!(mesh.quads.len(), 6);
    let quads: Vec<[u32; 4]> = mesh.quads.iter().map(|q| q.corners).collect();
    assert!(quads.iter().all(|q| q.iter().all(|&v| v < mesh.vertices)));
    assert!(closed(&quads), "{quads:?}");
    assert!(one_fan_each(&quads), "{quads:?}");
}

#[test]
fn a_slab_is_closed_too() {
    let mut inside = Vec::new();
    for x in 1..5 {
        for y in 1..4 {
            inside.push([x, y, 2]);
        }
    }
    let mut g = lattice(6, &inside);
    g.clean(-1);
    let mesh = nets(&g);
    let quads: Vec<[u32; 4]> = mesh.quads.iter().map(|q| q.corners).collect();
    // Every crossing edge is one quad: the slab's faces, 4x3 above and below and its rim.
    assert_eq!(quads.len(), 2 * 12 + 2 * (4 + 3));
    assert!(closed(&quads), "{quads:?}");
    assert!(one_fan_each(&quads), "{quads:?}");
}

#[test]
fn two_samples_diagonal_across_a_square_are_cleaned_into_one_surface() {
    let mut g = lattice(5, &[[1, 1, 2], [2, 2, 2]]);
    let turned = g.clean(-1);
    assert!(!turned.is_empty());
    let mesh = nets(&g);
    let quads: Vec<[u32; 4]> = mesh.quads.iter().map(|q| q.corners).collect();
    assert!(closed(&quads), "{quads:?}");
    assert!(one_fan_each(&quads), "{quads:?}");
    assert!(mesh.cells.iter().all(|c| c.count >= 1));
}

#[test]
fn nothing_inside_is_nothing_drawn() {
    let mut g = lattice(4, &[]);
    g.clean(-1);
    let mesh = nets(&g);
    assert!(mesh.cells.is_empty() && mesh.quads.is_empty());
    assert_eq!(mesh.vertices, 0);
}

#[test]
fn the_candidates_are_the_blocks_beside_a_near_one() {
    let g = SignGrid { n: [20, 9, 9], keys: vec![1; 20 * 9 * 9], near: vec![[2, 0, 0]] };
    let blocks = g.candidate_blocks();
    assert_eq!(blocks, vec![[1, 0, 0], [2, 0, 0], [1, 1, 0], [2, 1, 0], [1, 0, 1], [2, 0, 1], [1, 1, 1], [2, 1, 1]]);
    let samples = g.candidates();
    assert_eq!(samples.len(), (20 - 8) * 9 * 9);
    assert!(samples.iter().all(|c| c[0] >= 8));
}

#[test]
fn an_uncleaned_or_uncovered_lattice_is_not_extractable() {
    let g = lattice(5, &[[1, 1, 2], [2, 2, 2]]);
    assert!(!extractable(&g), "a square alternates");
    let mut far = lattice(4, &[[1, 1, 1]]);
    far.near.clear();
    assert!(!extractable(&far), "no near block covers the crossings");
    let mut edge = lattice(4, &[[0, 1, 1]]);
    edge.near = vec![[0, 0, 0]];
    assert!(!extractable(&edge), "a boundary sample is inside");
}

#[test]
fn samples_diagonal_across_a_cell_meet_in_two_vertices_there() {
    let mut g = lattice(5, &[[1, 1, 1], [2, 2, 2]]);
    let turned = g.clean(-1);
    assert!(turned.is_empty());
    let mesh = nets(&g);
    // The cell between them holds a loop about each sample, so a vertex for each.
    assert!(mesh.cells.iter().any(|c| c.base == [1, 1, 1] && c.count == 2));
    let quads: Vec<[u32; 4]> = mesh.quads.iter().map(|q| q.corners).collect();
    assert_eq!(quads.len(), 12);
    assert!(closed(&quads), "{quads:?}");
    assert!(one_fan_each(&quads), "{quads:?}");
}

#[test]
fn cleaning_turns_the_outside_corner_nearer_the_surface() {
    for (near_one, far_one) in [([1, 2, 2], [2, 1, 2]), ([2, 1, 2], [1, 2, 2])] {
        let mut g = lattice(5, &[[1, 1, 2], [2, 2, 2]]);
        g.keys[near_one[0] + 5 * (near_one[1] + 5 * near_one[2])] = 10;
        g.keys[far_one[0] + 5 * (far_one[1] + 5 * far_one[2])] = 30;
        let turned = g.clean(-7);
        assert_eq!(turned, vec![near_one]);
        assert_eq!(g.keys[near_one[0] + 5 * (near_one[1] + 5 * near_one[2])], -7);
    }
}

#[test]
fn candidates_come_block_by_block_z_slowest_each_once() {
    let mut g = lattice(20, &[[9, 9, 9]]);
    g.near = vec![[1, 1, 1]];
    let cand = g.candidates();
    let block = |c: [usize; 3]| [c[2] / 8, c[1] / 8, c[0] / 8];
    let zyx = |c: [usize; 3]| [c[2], c[1], c[0]];
    assert!(cand.windows(2).all(|w| (block(w[0]), zyx(w[0])) < (block(w[1]), zyx(w[1]))));
    assert_eq!(cand.len(), 20 * 20 * 20);
    let inside = g.block_samples([2, 2, 2]);
    assert!(inside.windows(2).all(|w| zyx(w[0]) < zyx(w[1])));
    assert_eq!(inside.len(), 4 * 4 * 4);
}

#[test]
fn a_lattice_is_well_formed_only_with_a_key_for_each_sample() {
    let mut g = lattice(9, &[]);
    assert!(g.well_formed());
    g.near.push([2, 0, 0]);
    assert!(!g.well_formed());
    let mut g = lattice(9, &[]);
    g.keys.pop();
    assert!(!g.well_formed());
}

#[test]
fn a_lattice_is_extracted_to_one_mesh_every_time() {
    let mut inside = Vec::new();
    for x in 2..6 {
        inside.push([x, 3, 3]);
    }
    inside.push([4, 4, 3]);
    let mut g = lattice(9, &inside);
    g.clean(-1);
    let a = nets(&g);
    let b = nets(&g);
    assert_eq!(a.vertices, b.vertices);
    assert_eq!(a.cells.len(), b.cells.len());
    for (p, q) in a.cells.iter().zip(b.cells.iter()) {
        assert_eq!((p.base, p.inside, p.loops, p.count, p.first), (q.base, q.inside, q.loops, q.count, q.first));
    }
    let corners = |m: &lc_client::nets::Mesh| m.quads.iter().map(|q| (q.base, q.axis, q.corners)).collect::<Vec<_>>();
    assert_eq!(corners(&a), corners(&b));
    assert!(!a.quads.is_empty());
}
