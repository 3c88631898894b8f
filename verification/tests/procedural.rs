use lc_client::procedural::{layout, Filter, placeholder, plan, Bakes, Format, Outcome, Pass, ScalarFormat, Shape, Target};

#[test]
fn a_forgotten_image_is_not_baked_and_counts_as_settled() {
    let mut bakes: Bakes<Vec<(u64, f32)>> = Bakes::new();
    let target = Target::new(Shape::Cube(4));
    let (kept, forgotten) = (11u64, 12u64);
    bakes.request(0, 1, target, kept);
    bakes.request(0, 1, target, forgotten);
    bakes.forget(&[forgotten]);
    assert_eq!(bakes.waiting().len(), 1);
    assert_eq!(bakes.waiting()[0].image, kept);
    assert!(bakes.settled(forgotten) && !bakes.settled(kept));
}

#[test]
fn a_target_knows_its_size() {
    assert_eq!(Target::new(Shape::Cube(1024)).color().bytes(), 6 * 1024 * 1024 * 4);
    assert_eq!(Target::new(Shape::Cube(512)).bytes(), 6 * 512 * 512);
    let relief = Target::new(Shape::Cube(1024)).format(ScalarFormat::R16Float);
    assert_eq!(relief.bytes(), 6 * 1024 * 1024 * 2);
}

#[test]
fn a_bake_settles_once_per_request() {
    let mut bakes: Bakes<Vec<u8>> = Bakes::new();
    let target = Target::new(Shape::Plane(8));
    bakes.request(3, 9, target, 1);
    bakes.request(3, 9, target, 1);
    let taken = bakes.take_waiting();
    assert_eq!(taken.len(), 2);
    assert!(bakes.waiting().is_empty());
    bakes.settle(1);
    assert!(!bakes.settled(1), "one bake of two is still out");
    bakes.settle(1);
    assert!(bakes.settled(1));
    bakes.settle(1);
    assert!(bakes.settled(1), "settling what is settled changes nothing");
}

#[test]
fn a_placeholder_is_half_way_everywhere() {
    let (t, bytes) = placeholder(Target::new(Shape::Cube(256)));
    assert_eq!(t.shape, Shape::Cube(1));
    assert_eq!(bytes, vec![128u8; 6]);
    let (t, bytes) = placeholder(Target::new(Shape::Volume(32)).format(ScalarFormat::R16Float));
    assert_eq!(t.shape, Shape::Volume(1));
    assert_eq!(bytes.len(), 2);
    let (_, bytes) = placeholder(Target::new(Shape::Plane(64)).color());
    assert_eq!(bytes.len(), 4);
}

#[test]
fn a_cube_is_six_layers_and_a_plane_repeats() {
    let cube = layout(Target::new(Shape::Cube(64)));
    assert_eq!((cube.width, cube.height, cube.layers, cube.cube_view), (64, 64, 6, true));
    let plane = layout(Target::new(Shape::Plane(32)));
    assert!(plane.repeats && !plane.volume && plane.layers == 1);
    let volume = layout(Target::new(Shape::Volume(16)));
    assert!(volume.volume && volume.layers == 16);
    for l in [cube, plane, volume] {
        assert_eq!((l.mag_filter, l.min_filter), (Filter::Linear, Filter::Linear));
    }
}

#[test]
fn a_bake_is_planned_from_its_layer() {
    let layers = vec![("height".to_string(), 4u64), ("cloud".to_string(), 9u64)];
    assert_eq!(
        plan(Target::new(Shape::Cube(8)).layer("cloud"), &layers, Some(1)),
        Ok(Pass::ScalarCube { layer: 9, n: 8, format: ScalarFormat::R8Unorm })
    );
    assert_eq!(
        plan(Target::new(Shape::Plane(8)), &layers, Some(1)),
        Ok(Pass::ScalarPlane { layer: 1, n: 8, format: ScalarFormat::R8Unorm })
    );
    assert_eq!(
        plan(Target::new(Shape::Plane(8)).layer("rock"), &layers, Some(1)),
        Err("the graph has no layer named \"rock\"".to_string())
    );
    assert_eq!(plan(Target::new(Shape::Plane(8)), &layers, None), Err("the graph's output has no color layer".to_string()));
    assert_eq!(plan(Target::new(Shape::Cube(8)).color(), &layers, None), Ok(Pass::ColorCube(8)));
    assert_eq!(
        plan(Target::new(Shape::Volume(8)).color(), &layers, None),
        Err("a color bake is on a sphere or a plane".to_string())
    );
    assert_eq!(
        plan(Target::new(Shape::Plane(8)).color().layer("cloud"), &layers, None),
        Err("a color bake is of a graph's output".to_string())
    );
    assert!(matches!(Target::new(Shape::Cube(2)).color().format, Format::Color));
}

#[test]
fn a_pass_settles_what_failed_requeues_what_loads_and_hands_back_what_started() {
    let mut bakes: Bakes<Vec<u8>> = Bakes::new();
    let target = Target::new(Shape::Plane(8));
    for image in 1..=4 {
        bakes.request(image, 0, target, image);
    }
    let outcomes = [Outcome::GraphFailed, Outcome::GraphLoading, Outcome::Started, Outcome::Refused];
    let mut reading = Vec::new();
    for (request, outcome) in bakes.take_waiting().into_iter().zip(outcomes) {
        if let Some(r) = bakes.dispose(request, outcome) {
            reading.push(r.image);
        }
    }
    assert_eq!(reading, vec![3]);
    assert_eq!(bakes.waiting().iter().map(|r| r.image).collect::<Vec<_>>(), vec![2]);
    assert!(bakes.settled(1) && bakes.settled(4));
    assert!(!bakes.settled(2) && !bakes.settled(3));
    bakes.settle(3);
    assert!(bakes.settled(3));
}
