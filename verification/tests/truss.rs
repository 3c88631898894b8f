use lc_client::plume::seed_cell;
use lc_client::truss::{knuckle_indices, mix, tube_indices, Girder};

fn threshold(g: &Girder) -> f64 {
    (g.threshold_key() as f64 + 0.5) / (1u64 << 53) as f64
}

#[test]
fn thresholds_are_spread_and_never_at_the_ends() {
    let mut sum = 0.0;
    let n = 2000;
    for i in 0..n {
        let t = threshold(&Girder { node: [i, -i / 3, 7], axis: (i % 3) as u64 });
        assert!(t > 0.0 && t < 1.0);
        sum += t;
    }
    assert!((sum / n as f64 - 0.5).abs() < 0.03, "{}", sum / n as f64);
}

#[test]
fn the_mix_is_splitmix() {
    // The first output of SplitMix64 seeded with zero.
    assert_eq!(mix(0), 0xe220_a839_7b1d_cdaf);
}

#[test]
fn a_tube_is_two_triangles_a_side() {
    let t = tube_indices(10);
    assert_eq!(t.len(), 36);
    assert_eq!(&t[..6], &[10, 12, 11, 12, 13, 11]);
    assert_eq!(&t[30..], &[20, 10, 21, 10, 11, 21]);
    assert!(t.iter().all(|&i| (10..22).contains(&i)));
}

#[test]
fn a_knuckle_is_eight_faces_over_six_tips() {
    let k = knuckle_indices(100);
    assert_eq!(k.len(), 24);
    assert_eq!(&k[..3], &[100, 102, 104]);
    assert_eq!(&k[21..], &[100, 103, 105]);
    for tip in 100..106 {
        assert_eq!(k.iter().filter(|&&i| i == tip).count(), 4, "every tip is on four faces");
    }
}

#[test]
fn every_craft_gets_its_own_streaks() {
    let period = 1.0f64;
    let seeds: Vec<f64> = (0..64u64)
        .map(|n| seed_cell(Some(n)))
        .chain([seed_cell(None)])
        .map(|c| c as f64 / (1u64 << 24) as f64 * period)
        .collect();
    assert!(seeds.iter().all(|s| (0.0..period).contains(s)), "{seeds:?}");
    let mut sorted = seeds.clone();
    sorted.sort_by(f64::total_cmp);
    assert!(sorted.windows(2).all(|w| w[0] != w[1]), "two craft share a seed");
    for eighth in 0..8 {
        let low = period * eighth as f64 / 8.0;
        assert!(
            seeds.iter().any(|s| *s >= low && *s < low + period / 8.0),
            "nothing in the {eighth}th of the period",
        );
    }
}
