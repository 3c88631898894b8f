use lc_client::pick::{selected, Select, Subject, Target};

#[test]
fn a_star_is_matched_by_identity_and_not_by_name() {
    let id = 7u64;
    assert!(Subject::Star(id, String::new()).is(&Subject::Star(id, "Sol".to_string())));
    assert!(!Subject::Star(id, "Sol".to_string()).is(&Subject::Body("Sol".to_string())));
    assert!(!Subject::Star(id, "Sol".to_string()).is(&Subject::Star(8, "Sol".to_string())));
}

#[test]
fn a_click_sends_the_action_the_list_sends() {
    let body = Subject::Body("Earth".to_string());
    assert!(matches!(body.select(), Select::FocusTarget(Some(Target::Body(ref n))) if n == "Earth"));

    let star = Subject::Star(7, "Sol".to_string());
    assert!(matches!(star.select(), Select::SelectTarget(Some(7))));

    let belt = Subject::Swarm(2, "main belt".to_string());
    assert!(matches!(belt.select(), Select::FocusTarget(Some(Target::Band(2)))));
}

#[test]
fn what_is_selected_is_the_focus_before_the_star() {
    assert!(matches!(selected(&Some(Target::Band(3)), Some(9)), Some(Subject::Swarm(3, ref n)) if n.is_empty()));
    assert!(matches!(selected(&Some(Target::Body("Io".to_string())), None), Some(Subject::Body(ref n)) if n == "Io"));
    assert!(matches!(selected(&None, Some(9)), Some(Subject::Star(9, _))));
    assert!(selected(&None, None).is_none());
}

#[test]
fn targets_are_the_same_place_by_name_or_index() {
    assert!(Target::Body("Io".to_string()).same(&Target::Body("Io".to_string())));
    assert!(!Target::Body("Io".to_string()).same(&Target::Body("Europa".to_string())));
    assert!(Target::Band(1).same(&Target::Band(1)));
    assert!(!Target::Band(1).same(&Target::Body("1".to_string())));
}
