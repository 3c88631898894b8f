use lc_client::panels::{closer, Closeness};
use lc_client::radio::{aim_of, line_text, parties, resend_hint, room_note, settle_aim, Aim, Aimed};

#[test]
fn a_beam_goes_where_it_can_and_a_shout_otherwise() {
    assert_eq!(aim_of(Aimed::Omni, Some(4), Some(9)), Aim::Omni);
    assert_eq!(aim_of(Aimed::AtThem, Some(4), Some(9)), Aim::Ship(4));
    assert_eq!(aim_of(Aimed::AtThem, None, Some(9)), Aim::Omni);
    assert_eq!(aim_of(Aimed::AtTheSelectedStar, Some(4), Some(9)), Aim::Star(9));
    assert_eq!(aim_of(Aimed::AtTheSelectedStar, Some(4), None), Aim::Omni);
}

#[test]
fn a_withdrawn_choice_falls_back_to_a_shout() {
    assert_eq!(settle_aim(Aimed::AtThem, false, Some(1)), Aimed::Omni);
    assert_eq!(settle_aim(Aimed::AtThem, true, None), Aimed::AtThem);
    assert_eq!(settle_aim(Aimed::AtTheSelectedStar, true, None), Aimed::Omni);
    assert_eq!(settle_aim(Aimed::AtTheSelectedStar, false, Some(2)), Aimed::AtTheSelectedStar);
    assert_eq!(settle_aim(Aimed::Omni, false, None), Aimed::Omni);
}

#[test]
fn everyone_talked_to_comes_first_then_everyone_in_sight() {
    let talked = vec![(3, "Cass".to_string()), (1, "Ada".to_string())];
    let contacts = vec![(1, "Ada".to_string()), (5, "Eve".to_string()), (5, "Eve".to_string()), (2, "Bo".to_string())];
    let list = parties(talked, &contacts);
    assert_eq!(
        list,
        vec![(3, "Cass".to_string()), (1, "Ada".to_string()), (5, "Eve".to_string()), (2, "Bo".to_string())]
    );
}

#[test]
fn a_resend_says_how_often_it_went() {
    assert_eq!(resend_hint(1), "Not ACKed. Click to re-send.");
    assert_eq!(resend_hint(3), "Not ACKed. Click to re-send. (sent 3 times)");
}

#[test]
fn a_line_says_what_crossed() {
    assert_eq!(line_text(None, true, true, Some("Ada".to_string())), "sent key to Ada");
    assert_eq!(line_text(None, true, true, None), "sent key");
    assert_eq!(line_text(Some("hi".to_string()), true, false, None), "sent this ship its key");
    assert_eq!(line_text(Some("hi".to_string()), false, false, None), "hi");
    assert_eq!(line_text(None, false, false, None), "(encrypted, and not for this ship)");
}

#[test]
fn the_room_left_shows_near_the_limit() {
    assert_eq!(room_note(500, 10), None);
    assert_eq!(room_note(500, 430).as_deref(), Some("70 characters left"));
    assert_eq!(room_note(500, 900).as_deref(), Some("0 characters left"));
}

#[test]
fn the_pursuit_button_toggles() {
    let (label, hint, next) = closer(Closeness::Company);
    assert_eq!((label, hint, next), ("close in", "within sight: a kilometre between hulls", Closeness::Intimate));
    let (label, _, back) = closer(next);
    assert_eq!(label, "stand off");
    assert_eq!(back, Closeness::Company);
}
