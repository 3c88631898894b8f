use lc_client::ship_hull::{let_go, needs_form, placeholder_step, shown, take_form, unready_while_baking, PlaceholderStep};

#[test]
fn hulls_stay_unready_while_the_palette_bakes_if_anything_has_a_form() {
    assert!(!unready_while_baking(false, false, &vec![false, false]));
    assert!(unready_while_baking(false, true, &vec![]));
    assert!(unready_while_baking(false, false, &vec![false, true]));
    assert!(unready_while_baking(true, false, &vec![]));
}

#[test]
fn hulls_of_craft_no_longer_wanted_are_let_go() {
    let hulls = vec![None, Some(7u64), Some(9)];
    assert_eq!(let_go(&hulls, &vec![Some(9), None]), vec![false, true, false]);
    assert_eq!(let_go(&hulls, &vec![]), vec![true, true, true]);
}

#[test]
fn a_new_form_is_handed_over_once_its_roll_is_known() {
    assert!(needs_form::<f64>(None, 5));
    assert!(needs_form(Some((4u64, 0.5f64)), 5));
    assert!(!needs_form(Some((5u64, 0.5f64)), 5));
    assert_eq!(take_form(Some((4u64, 0.5f64)), 5, None), (Some((4, 0.5)), false), "the roll is still being worked out");
    assert_eq!(take_form(Some((4u64, 0.5f64)), 5, Some(1.25)), (Some((5, 1.25)), true));
    assert_eq!(take_form(Some((5u64, 0.5f64)), 5, Some(1.25)), (Some((5, 0.5)), false), "an unchanged form is left alone");
}

#[test]
fn a_new_roll_is_shown_only_once_its_mesh_is_current() {
    // The mesh of the old form is still up: the old roll stays.
    let s = shown(false, false, true, Some((true, 4)), Some((5u64, 1.25f64)), 0.5, false);
    assert!(s.visible && s.drawn && !s.unready);
    assert_eq!(s.shown_roll, 0.5);
    assert_eq!(s.own_current, None);
    // The new form's mesh lands.
    let s = shown(false, false, true, Some((true, 5)), Some((5u64, 1.25f64)), 0.5, false);
    assert_eq!(s.shown_roll, 1.25);
    // The player's own, stood aside by a refit, is current but hidden.
    let s = shown(true, true, true, Some((true, 5)), Some((5u64, 0.0f64)), 0.0, false);
    assert!(!s.visible && s.drawn);
    assert_eq!(s.own_current, Some(5));
    // No mesh yet and none settled: the hulls are unready.
    let s = shown(false, false, false, None, Some((5u64, 1.0f64)), 0.0, false);
    assert!(!s.visible && !s.drawn && s.unready);
    // A mesh that failed is settled.
    let s = shown(false, false, false, Some((true, 5)), Some((5u64, 1.0f64)), 0.0, false);
    assert!(!s.unready);
}

#[test]
fn placeholders_stand_until_the_mesh_lands() {
    assert_eq!(placeholder_step(false, false, None, 5), (PlaceholderStep::Rebuild { let_go_held: false }, Some(5)));
    assert_eq!(placeholder_step(false, false, Some(5), 5), (PlaceholderStep::Relight, Some(5)));
    assert_eq!(placeholder_step(false, false, Some(4), 5), (PlaceholderStep::Rebuild { let_go_held: true }, Some(5)));
    assert_eq!(placeholder_step(false, true, Some(5), 5), (PlaceholderStep::LetGo, None));
    assert_eq!(placeholder_step(false, true, None, 5), (PlaceholderStep::Nothing, None));
    assert_eq!(placeholder_step(true, false, Some(5), 5), (PlaceholderStep::LetGo, None), "the player's are drawn elsewhere");
}
