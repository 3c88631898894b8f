use lc_client::refit::{step_name, Change, form_fault, part, shortfall, FormFault, Shortfall};

#[test]
fn a_refused_form_names_the_part() {
    let malformed = FormFault::Malformed { part: 3, number: "tilt".to_string() };
    assert_eq!(form_fault(malformed), "part 3 has a malformed tilt");
    assert_eq!(form_fault(FormFault::EngineBlocked(2)), "something is in part 2's exhaust cone");
}

#[test]
fn a_shortfall_says_what_is_short() {
    assert_eq!(shortfall(Shortfall::NoDrones(3)), "no drones left to work on part 3: keep some until the build");
    assert_eq!(shortfall(Shortfall::Energy), "not enough energy, even taking apart what is not wanted");
}

#[test]
fn every_fault_reads_as_something_to_act_on() {
    assert_eq!(part(12), "part 12");
    assert_eq!(form_fault(FormFault::TooManyParts { found: 300, most: 256 }), "300 parts, at most 256");
    assert_eq!(form_fault(FormFault::SecondMind { first: 1, second: 4 }), "part 4 is a second Mind beside part 1");
    assert_eq!(form_fault(FormFault::MissingParent { part: 5, parent: 9 }), "part 5 hangs from part 9, which does not exist");
    assert_eq!(form_fault(FormFault::MindPlaced(1)), "the Mind, part 1, has a parent");
    assert_eq!(form_fault(FormFault::NoMind), "no Mind");
    assert_eq!(form_fault(FormFault::OtherMind(6)), "part 6 is not this ship's Mind, which it keeps");
}

#[test]
fn a_step_says_what_it_does_to_which_part() {
    assert_eq!(step_name(Change::Add, 4, "Cylinder"), "building part 4 (Cylinder)");
    assert_eq!(step_name(Change::Remove, 12, "Bay"), "taking apart part 12 (Bay)");
    assert_eq!(step_name(Change::Move, 0, "Engine"), "moving part 0 (Engine)");
    assert_eq!(step_name(Change::Grow, 1, "Tank"), "growing part 1 (Tank)");
    assert_eq!(step_name(Change::Shrink, 2, "Tank"), "shrinking part 2 (Tank)");
}
