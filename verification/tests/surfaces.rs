use std::collections::HashMap;

use lc_client::procedural::{Bakes, Format, Shape, Target};
use lc_client::surfaces::{
    climate_target, keyframe_seed, ready, slot_of, weather_target, Bound, Deck, Drawn, Giants, Ground, Grounds, Look,
    routing, ManifestState, Rocky, Routing, Slot, SurfaceManifest,
};

const WEATHERED: u32 = 1;
const ROCK: u32 = 2;

#[test]
fn a_body_named_in_the_manifest_takes_its_own_graph() {
    let manifest = SurfaceManifest {
        classes: HashMap::from([(WEATHERED, "surfaces/weathered.tgraph".to_string())]),
        bodies: vec![("Earth".to_string(), "worlds/earthlike.tgraph".to_string())],
        clouds: vec![("Earth".to_string(), "worlds/earthlike-clouds.tgraph".to_string())],
        rocky: Some(Rocky { ground: "worlds/rocky.tgraph".to_string(), clouds: "worlds/clouds.tgraph".to_string() }),
        giants: None,
    };
    assert_eq!(
        manifest.look_for("Kettle e", WEATHERED, true, false),
        Some(Look { ground: Ground::Color("worlds/rocky.tgraph"), clouds: Some("worlds/clouds.tgraph") })
    );
    assert_eq!(
        manifest.look_for("Earth", WEATHERED, true, false),
        Some(Look { ground: Ground::Color("worlds/earthlike.tgraph"), clouds: Some("worlds/earthlike-clouds.tgraph") })
    );
    assert_eq!(
        manifest.look_for("Mercury", WEATHERED, false, false),
        Some(Look { ground: Ground::Pattern("surfaces/weathered.tgraph"), clouds: None })
    );
    assert_eq!(manifest.look_for("Mercury", ROCK, false, false), None);
}

#[test]
fn the_weather_slots_cycle_through_three() {
    assert_eq!(slot_of(0), 0);
    assert_eq!(slot_of(4), 1);
    assert_eq!(slot_of(-1), 2);
    assert_eq!(slot_of(i64::MIN), (i64::MIN).rem_euclid(3) as usize);
    assert_eq!(keyframe_seed(5, 0), 5);
    assert_eq!(keyframe_seed(0, 1), (0x9E37_79B9_7F4A_7C15u64 >> 32) as u32);
    assert_ne!(keyframe_seed(7, 1), keyframe_seed(7, 2));
}

#[test]
fn a_deck_asks_only_for_the_keyframes_it_lacks() {
    let mut bakes: Bakes<Vec<f32>> = Bakes::new();
    let weather = Target::new(Shape::Plane(16));
    let mut deck = Deck { graph: 3, seed: 11, holds: [None, None, None] };
    deck.refresh(0, &mut bakes, [100, 101, 102], weather);
    assert_eq!(deck.holds, [Some(0), Some(1), Some(2)]);
    assert_eq!(bakes.waiting().len(), 3);
    assert_eq!(bakes.waiting()[1].image, 101);
    assert_eq!(bakes.waiting()[1].seed, keyframe_seed(11, 1));

    deck.refresh(1, &mut bakes, [100, 101, 102], weather);
    assert_eq!(deck.holds, [Some(3), Some(1), Some(2)]);
    assert_eq!(bakes.waiting().len(), 4, "only keyframe 3 was missing");
    assert_eq!(bakes.waiting()[3].image, 100);
    assert_eq!(bakes.waiting()[3].seed, keyframe_seed(11, 3));
}

#[test]
fn a_keyframe_asked_for_is_not_settled_until_its_bake_lands() {
    let mut bakes: Bakes<Vec<f32>> = Bakes::new();
    let weather = Target::new(Shape::Plane(16));
    let mut deck = Deck { graph: 3, seed: 11, holds: [Some(0), None, None] };
    deck.refresh(0, &mut bakes, [100, 101, 102], weather);
    assert!(bakes.settled(100), "keyframe 0 was held already");
    assert!(!bakes.settled(101) && !bakes.settled(102));
    // Refreshing again, every frame, asks nothing more and counts nothing more.
    deck.refresh(0, &mut bakes, [100, 101, 102], weather);
    assert_eq!(bakes.waiting().len(), 2);
    bakes.settle(101);
    assert!(bakes.settled(101) && !bakes.settled(102));
}

fn full_manifest() -> SurfaceManifest {
    SurfaceManifest {
        classes: HashMap::from([(WEATHERED, "surfaces/weathered.tgraph".to_string())]),
        bodies: vec![("Earth".to_string(), "worlds/earthlike.tgraph".to_string())],
        clouds: vec![("Earth".to_string(), "worlds/earthlike-clouds.tgraph".to_string())],
        rocky: Some(Rocky { ground: "worlds/rocky.tgraph".to_string(), clouds: "worlds/clouds.tgraph".to_string() }),
        giants: Some(Giants { graph: "worlds/giant.tgraph".to_string() }),
    }
}

#[test]
fn a_rocky_world_with_air_bakes_its_masks_from_its_climate() {
    let m = full_manifest();
    let look = m.look_for("Kettle e", WEATHERED, true, false).unwrap();
    let (drawn, asks) = m.route(&look, true, false);
    assert_eq!(drawn, Drawn { color: true, clouds: true, grounds: true, layers: false });
    let layers: Vec<Option<&str>> = asks.iter().map(|a| a.target.layer).collect();
    assert_eq!(layers, vec![Some("land"), Some("ice"), Some("green"), Some("sand amount"), None, Some("drive term 1")]);
    assert!(asks[..4].iter().all(|a| a.path == "worlds/rocky.tgraph" && a.bound == Bound::Climate && a.target.shape == Shape::Cube(512)));
    assert_eq!(asks[2].slot, Slot::Mask(2));
    assert_eq!(asks[4].slot, Slot::Color);
    assert_eq!(asks[4].target.shape, Shape::Cube(1024));
    assert!(matches!(asks[4].target.format, Format::Color));
    assert_eq!((asks[5].path, asks[5].slot, asks[5].bound), ("worlds/clouds.tgraph", Slot::Climate, Bound::Nothing));
    assert_eq!(asks[5].target.shape, climate_target().shape);
}

#[test]
fn a_giant_bakes_its_own_layers_and_a_named_world_none() {
    let m = full_manifest();
    let look = m.look_for("Jove", ROCK, false, true).unwrap();
    let (drawn, asks) = m.route(&look, false, true);
    assert_eq!(drawn, Drawn { color: true, clouds: false, grounds: false, layers: true });
    let layers: Vec<Option<&str>> = asks.iter().map(|a| a.target.layer).collect();
    assert_eq!(layers, vec![Some("belt"), Some("storm"), Some("polar"), None]);

    let earth = m.look_for("Earth", WEATHERED, true, false).unwrap();
    let (drawn, asks) = m.route(&earth, true, false);
    assert_eq!(drawn, Drawn { color: true, clouds: true, grounds: false, layers: false });
    assert_eq!(asks.len(), 2);
    assert_eq!(asks[0].path, "worlds/earthlike.tgraph");

    let mercury = m.look_for("Mercury", WEATHERED, false, false).unwrap();
    let (drawn, asks) = m.route(&mercury, false, false);
    assert_eq!(drawn, Drawn { color: false, clouds: false, grounds: false, layers: false });
    assert_eq!((asks.len(), asks[0].slot, asks[0].target.shape), (1, Slot::Pattern, Shape::Cube(512)));
}

#[test]
fn a_body_is_ready_once_its_ground_and_clouds_land() {
    let mut bakes: Bakes<Vec<f32>> = Bakes::new();
    let g = Grounds { pattern: 1, color: 2, climate: 3 };
    assert!(ready(None, &bakes));
    assert!(!ready(Some((None, g)), &bakes));
    let d = Drawn { color: true, clouds: true, grounds: false, layers: false };
    assert!(ready(Some((Some(d), g)), &bakes));
    bakes.request(0, 0, weather_target(), 3);
    assert!(!ready(Some((Some(d), g)), &bakes), "the clouds' climate is out");
    assert!(ready(Some((Some(Drawn { clouds: false, ..d }), g)), &bakes));
    bakes.settle(3);
    bakes.request(0, 0, Target::new(Shape::Cube(8)), 1);
    assert!(ready(Some((Some(d), g)), &bakes), "only the pattern is out, and this body is in color");
}

#[test]
fn a_manifest_keys_each_name_once() {
    let mut m = full_manifest();
    assert!(m.keyed_once());
    m.clouds.push(("Mars".to_string(), "worlds/mars-clouds.tgraph".to_string()));
    assert!(m.keyed_once());
    m.bodies.push(("Earth".to_string(), "worlds/other.tgraph".to_string()));
    assert!(!m.keyed_once());
}

#[test]
fn a_failed_manifest_draws_every_body_flat_and_a_loading_one_waits() {
    let some = Drawn { color: true, clouds: false, grounds: false, layers: false };
    let drawn = vec![Some(some), None, None, Some(some)];
    assert!(matches!(routing(ManifestState::Failed, &drawn), Routing::AllFlat));
    assert!(matches!(routing(ManifestState::Loading, &drawn), Routing::Wait));
    assert!(matches!(routing(ManifestState::Loaded, &drawn), Routing::Route(v) if v == vec![1, 2]));
    // Once every body is drawn there is nothing to do, whatever the manifest.
    let all = vec![Some(some); 3];
    assert!(matches!(routing(ManifestState::Failed, &all), Routing::Wait));
    assert!(matches!(routing(ManifestState::Loaded, &all), Routing::Wait));
}

#[test]
fn a_body_the_manifest_names_nothing_for_is_drawn_flat() {
    let m = SurfaceManifest { classes: HashMap::new(), ..full_manifest() };
    let (drawn, asks) = m.route_body("Vulcan", ROCK, false, false);
    assert_eq!(drawn, Drawn { color: false, clouds: false, grounds: false, layers: false });
    assert!(asks.is_empty());
    let (drawn, asks) = m.route_body("Earth", ROCK, false, false);
    assert!(drawn.color && drawn.clouds && !drawn.grounds);
    assert!(!asks.is_empty());
}
