use lc_client::rolls::{Ask, Rolls, ROLLS_KEPT};

#[test]
fn a_forms_roll_is_started_once_and_kept_once_it_lands() {
    let mut rolls: Rolls<f64> = Rolls::new();
    assert!(matches!(rolls.get(7), Ask::Start));
    assert!(matches!(rolls.get(7), Ask::Wait));
    rolls.land(&vec![], &vec![7]);
    assert!(matches!(rolls.get(7), Ask::Wait));
    rolls.land(&vec![(7, 0.25)], &vec![7]);
    assert!(matches!(rolls.get(7), Ask::Ready(r) if r == 0.25));
    assert!(matches!(rolls.get(8), Ask::Start));
}

#[test]
fn a_finished_task_for_a_form_not_asked_for_is_passed_over() {
    let mut rolls: Rolls<f64> = Rolls::new();
    rolls.land(&vec![(9, 1.0)], &vec![9]);
    assert!(matches!(rolls.get(9), Ask::Start));
    // Only the first of two reports for one form lands.
    rolls.land(&vec![(9, 2.0), (9, 3.0)], &vec![9]);
    assert!(matches!(rolls.get(9), Ask::Ready(r) if r == 2.0));
}

#[test]
fn past_the_limit_only_the_wanted_forms_rolls_are_kept() {
    let mut rolls: Rolls<u32> = Rolls::new();
    let all: Vec<u64> = (0..ROLLS_KEPT as u64).collect();
    for &h in &all {
        assert!(matches!(rolls.get(h), Ask::Start));
    }
    rolls.land(&all.iter().map(|&h| (h, h as u32)).collect(), &vec![]);
    // At the limit nothing is let go.
    assert!(all.iter().all(|&h| matches!(rolls.get(h), Ask::Ready(r) if r == h as u32)));
    let extra = ROLLS_KEPT as u64;
    assert!(matches!(rolls.get(extra), Ask::Start));
    rolls.land(&vec![(extra, 99)], &vec![3, extra]);
    assert!(matches!(rolls.get(3), Ask::Ready(3)));
    assert!(matches!(rolls.get(extra), Ask::Ready(99)));
    assert!(matches!(rolls.get(4), Ask::Start));
}
