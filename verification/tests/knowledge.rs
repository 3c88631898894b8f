use lc_client::pick::Target;
use lc_client::range::{describe, short, sources as star_sources, who, Distance, Sighted};
use lc_client::system_panel::{
    bodies_label, orientation_text, plane_text, settle_pick, ships_label, sources, Method, Orientation, Plane,
    Provenance,
};
use lc_client::telescope::{names, Naming};

fn belief(method: Option<Method>, stated_by: Option<u64>, hops: u64) -> Provenance {
    Provenance { method, stated_by, hops }
}

#[test]
fn a_transits_distance_is_marked_as_resting_on_a_prior() {
    let mine = sources(&belief(Some(Method::Transit), Some(1), 0), 1);
    assert!(mine.iter().any(|n| n.contains("settled transit")), "{mine:?}");
    assert!(mine.iter().any(|n| n.contains("Measured by this ship")), "{mine:?}");
    assert!(mine.iter().any(|n| n.contains("prior")), "{mine:?}");

    let fitted = sources(&belief(Some(Method::Astrometric), Some(1), 0), 1);
    assert!(!fitted.iter().any(|n| n.contains("prior")), "{fitted:?}");
}

#[test]
fn a_relayed_orbit_names_its_witness_and_its_hops() {
    let notes = sources(&belief(Some(Method::Claim), Some(12), 2), 1);
    assert!(notes.iter().any(|n| n.contains("craft 12")), "{notes:?}");
    assert!(notes.iter().any(|n| n == "Relayed 2 times"), "{notes:?}");
    assert!(notes.iter().any(|n| n.contains("no measurements")), "{notes:?}");
}

#[test]
fn the_sources_come_in_order() {
    assert_eq!(
        sources(&belief(Some(Method::Claim), Some(12), 2), 1),
        vec!["Orbit stated, with no measurements behind it", "On craft 12's word", "Relayed 2 times"]
    );
    assert_eq!(sources(&belief(None, None, 1), 1), vec!["No orbit held", "Relayed once"]);
    assert_eq!(
        sources(&belief(Some(Method::Transit), None, 0), 1),
        vec!["Orbit from a settled transit", "Distance through the star's mass, which is a prior"]
    );
}

#[test]
fn a_phantom_row_can_be_picked_and_stays_picked() {
    let (real, phantom) = (1u64, 7u64);
    let target = Target::Body("Aa".to_string());
    let bodies = vec![real, phantom];
    let held = vec![(real, target.clone())];

    assert_eq!(settle_pick(&None, Some(phantom), &bodies, &held), Some(phantom));
    assert_eq!(settle_pick(&Some(target.clone()), Some(phantom), &bodies, &held), Some(real));
    assert_eq!(settle_pick(&Some(Target::Band(0)), Some(real), &bodies, &held), None);
}

#[test]
fn a_pick_that_left_the_list_is_dropped() {
    let gone = 7u64;
    assert_eq!(settle_pick(&None, Some(gone), &Vec::new(), &Vec::new()), None);
}

#[test]
fn the_tabs_count_what_is_here() {
    assert_eq!(bodies_label(0), "0 bodies");
    assert_eq!(bodies_label(1), "1 body");
    assert_eq!(bodies_label(12), "12 bodies");
    assert_eq!(ships_label(0), "no ships");
    assert_eq!(ships_label(1), "1 ship");
    assert_eq!(ships_label(3), "3 ships");
}

const CHARTS: u64 = 0;

fn told_by_the_charts() -> Sighted {
    Sighted {
        sightings: 1,
        witnesses: 1,
        baseline: None,
        hops: 0,
        distance: Distance::Measured { range: "4.00".to_string(), sigma: "0.04".to_string() },
        claimed_by: Some(CHARTS),
        triangulated: false,
        floor: None,
    }
}

#[test]
fn a_range_says_where_it_came_from() {
    assert_eq!(describe(None, 1, CHARTS), "not detected");
    let bearing = Sighted { distance: Distance::Unknown, claimed_by: None, ..told_by_the_charts() };
    assert_eq!(describe(Some(&bearing), 1, CHARTS), "bearing only");
    let told = told_by_the_charts();
    assert!(describe(Some(&told), 1, CHARTS).contains("on the charts' word"));
    let measured = Sighted {
        sightings: 2,
        baseline: Some("206″".to_string()),
        distance: Distance::Measured { range: "4.00".to_string(), sigma: "0.00".to_string() },
        claimed_by: None,
        triangulated: true,
        ..told_by_the_charts()
    };
    let text = describe(Some(&measured), 1, CHARTS);
    assert!(text.starts_with("4.00") && text.contains("baseline apart"), "{text}");
    assert_eq!(text, "4.00 ± 0.00 ly, from bearings a 206″ baseline apart");
}

#[test]
fn a_short_range_leaves_its_sources_apart() {
    let notes = star_sources(&told_by_the_charts(), 1, CHARTS);
    assert!(notes.iter().any(|n| n == "Distance on the charts' word"), "{notes:?}");
    assert!(notes.iter().any(|n| n == "Seen from this ship"), "{notes:?}");
    assert_eq!(notes[0], "1 bearings from 1 instrument");
}

#[test]
fn a_floor_and_a_baseline_are_noted() {
    let b = Sighted {
        sightings: 5,
        witnesses: 2,
        baseline: Some("3.0′".to_string()),
        hops: 3,
        distance: Distance::AtLeast("12.5".to_string()),
        claimed_by: None,
        triangulated: false,
        floor: Some("9.0".to_string()),
    };
    assert_eq!(
        star_sources(&b, 1, CHARTS),
        vec![
            "5 bearings from 2 instruments",
            "Bearings 3.0′ apart",
            "Relayed 3 times",
            "No parallax over the baseline, so past 12.5 ly",
            "This ship's own bearings put it beyond 9.0 ly",
        ]
    );
}

#[test]
fn a_witness_is_named_from_this_ship() {
    assert_eq!(who(4, 4, CHARTS), "this ship");
    assert_eq!(who(CHARTS, 4, CHARTS), "the charts");
    assert_eq!(who(9, 4, CHARTS), "craft 9");
    assert!(describe(Some(&Sighted { claimed_by: Some(9), ..told_by_the_charts() }), 4, CHARTS)
        .ends_with("on craft 9's word"));
}

#[test]
fn chosen_names_come_first_and_each_once() {
    let held = vec![
        Naming { name: "HD 1".to_string(), chosen: false },
        Naming { name: "Kettle".to_string(), chosen: true },
        Naming { name: "HD 1".to_string(), chosen: false },
        Naming { name: "Pot".to_string(), chosen: true },
        Naming { name: "Kettle".to_string(), chosen: false },
    ];
    assert_eq!(names(&held, "fallback".to_string()), vec!["Kettle", "Pot", "HD 1"]);
    assert_eq!(names(&Vec::new(), "LC 12".to_string()), vec!["LC 12"]);
}

#[test]
fn the_plane_line_distinguishes_unknown_from_unresolved() {
    let known = plane_text(&Plane::Known { sigma_degrees: format!("{:.1}", 0.02f64.to_degrees()) });
    assert!(known.contains("1.1°"), "{known}");
    assert!(plane_text(&Plane::Circle).contains("circle"));
    assert!(plane_text(&Plane::Unknown).contains("unknown"));
}

#[test]
fn an_orientation_reads_as_how_much_of_it_is_held() {
    let known = orientation_text(&Orientation::Known { sigma_degrees: "2.5".to_string() });
    assert_eq!(known, "known ± 2.5°");
    assert_eq!(orientation_text(&Orientation::EdgeOnTo), "edge-on to one line of sight");
    assert_eq!(orientation_text(&Orientation::Unknown), "unknown");
    assert_eq!(plane_text(&Plane::Known { sigma_degrees: "0.3".to_string() }), "System plane solved to ± 0.3°");
}

#[test]
fn a_range_alone_says_what_is_known_of_the_distance() {
    assert_eq!(short(None), "not detected");
    assert_eq!(short(Some(&told_by_the_charts())), "4.00 ± 0.04 ly");
    let bound = Sighted { distance: Distance::AtLeast("12.5".to_string()), ..told_by_the_charts() };
    assert_eq!(short(Some(&bound)), "beyond 12.5 ly");
    assert_eq!(describe(Some(&bound), 1, CHARTS), "beyond 12.5 ly");
    let floored = Sighted { claimed_by: None, floor: Some("9.0".to_string()), ..told_by_the_charts() };
    assert_eq!(
        describe(Some(&floored), 1, CHARTS),
        "4.00 ± 0.04 ly, from bearings — though this ship's own bearings put it beyond 9.0 ly"
    );
}
