use lc_client::parts::{parts_step, PartsStep};

#[test]
fn the_parts_are_built_once_and_then_only_placed() {
    assert_eq!(parts_step(false, false, false, &vec![], None), PartsStep::Nothing);
    assert_eq!(parts_step(false, true, false, &vec![None], None), PartsStep::Clear, "the form is gone");
    assert_eq!(parts_step(true, false, true, &vec![None], None), PartsStep::Clear, "a refit draws it on the hulls");
    assert_eq!(parts_step(true, false, false, &vec![], None), PartsStep::Rebuild);
    assert_eq!(parts_step(true, false, false, &vec![None], None), PartsStep::Refresh);
    assert_eq!(parts_step(true, true, false, &vec![None], None), PartsStep::Rebuild, "a changed form is built again");
    assert_eq!(parts_step(true, false, false, &vec![Some((1, Some(2)))], None), PartsStep::Rebuild);
    assert_eq!(parts_step(true, false, false, &vec![Some((1, Some(2)))], Some((1, Some(2)))), PartsStep::Refresh);
}
