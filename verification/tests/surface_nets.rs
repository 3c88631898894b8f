use lc_client::grid::SignGrid;
use lc_client::surface_nets::{is_clean_cell, loops, NO_LOOP};

fn corners(mask: u8) -> [bool; 8] {
    std::array::from_fn(|c| mask >> c & 1 == 1)
}

#[test]
fn one_corner_inside_is_one_loop_of_three() {
    let (id, count) = loops(corners(0b0000_0001));
    assert_eq!(count, 1);
    // Corner 0's edges are 0, 4 and 8.
    for e in 0..12 {
        let expected = if e == 0 || e == 4 || e == 8 { 0 } else { NO_LOOP };
        assert_eq!(id[e], expected, "edge {e}");
    }
}

#[test]
fn opposite_corners_make_two_loops() {
    let (id, count) = loops(corners(0b1000_0001));
    assert_eq!(count, 2);
    assert_eq!([id[0], id[4], id[8]], [0, 0, 0]);
    // Corner 7's edges are 3, 7 and 11.
    assert_eq!([id[3], id[7], id[11]], [1, 1, 1]);
}

#[test]
fn half_a_cell_inside_is_one_loop_of_four() {
    // The x = 0 face inside: corners 0, 2, 4, 6.
    let (id, count) = loops(corners(0b0101_0101));
    assert_eq!(count, 1);
    assert_eq!(id.iter().filter(|&&l| l == 0).count(), 4);
    assert_eq!([id[0], id[1], id[2], id[3]], [0, 0, 0, 0]);
}

#[test]
fn an_empty_or_full_cell_has_no_loop() {
    assert_eq!(loops(corners(0)), ([NO_LOOP; 12], 0));
    assert_eq!(loops(corners(u8::MAX)), ([NO_LOOP; 12], 0));
}

#[test]
fn a_face_whose_corners_alternate_is_not_clean() {
    // Corners 0 and 3 inside, 1 and 2 out: the z = 0 face alternates.
    assert!(!is_clean_cell(corners(0b0000_1001)));
    assert!(is_clean_cell(corners(0b0000_0001)));
    assert!(is_clean_cell(corners(0b1000_0001)));
    // Every cell that passes gives a labelling.
    for mask in 0..=u8::MAX {
        let inside = corners(mask);
        if is_clean_cell(inside) {
            let (id, count) = loops(inside);
            assert!(id.iter().all(|&l| l == NO_LOOP || l < count));
        }
    }
}

fn grid(n: usize, inside: &[[usize; 3]]) -> SignGrid {
    let mut keys = vec![100i32; n * n * n];
    for c in inside {
        keys[c[0] + n * (c[1] + n * c[2])] = -100;
    }
    SignGrid { n: [n, n, n], keys, near: vec![[0, 0, 0]] }
}

#[test]
fn cleaning_turns_a_corner_of_an_alternating_square() {
    // Two samples diagonally across one lattice square.
    let mut g = grid(5, &[[1, 1, 2], [2, 2, 2]]);
    let turned = g.clean(-1);
    assert!(!turned.is_empty());
    for t in &turned {
        assert_eq!(g.keys[g.index(*t)], -1);
        assert!(t.iter().all(|&c| c > 0 && c < 4), "a boundary sample turned: {t:?}");
    }
    // What is left has no square whose corners alternate.
    for z in 0..5 {
        for y in 0..5 {
            for x in 0..4 {
                if y + 1 < 5 {
                    let q = [[x, y, z], [x + 1, y, z], [x, y + 1, z], [x + 1, y + 1, z]].map(|c| g.inside(c));
                    assert!(!(q[0] == q[3] && q[1] == q[2] && q[0] != q[1]), "{x} {y} {z}");
                }
            }
        }
    }
}

#[test]
fn a_clean_grid_is_left_alone() {
    let mut g = grid(4, &[[1, 1, 1], [2, 1, 1]]);
    let before = g.keys.clone();
    let turned = g.clean(-1);
    assert!(turned.is_empty());
    assert_eq!(g.keys, before);
    assert_eq!(g.near, vec![[0, 0, 0]]);
}

#[test]
fn swapping_inside_and_outside_keeps_a_cells_loops() {
    for bits in 0u32..256 {
        let inside: [bool; 8] = std::array::from_fn(|k| bits >> k & 1 == 1);
        let other = inside.map(|b| !b);
        assert_eq!(is_clean_cell(other), is_clean_cell(inside));
        if is_clean_cell(inside) {
            assert_eq!(loops(other), loops(inside), "{inside:?}");
        }
    }
}
