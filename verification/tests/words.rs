use lc_client::fixture::fixture_parts;
use lc_client::refit::part;
use lc_client::system_panel::bodies_label;
use lc_client::words::{decimal_text, is_blank, is_white_space, possessive, trim};

#[test]
fn a_name_ending_in_s_takes_a_bare_apostrophe() {
    assert_eq!(possessive("the charts"), "the charts'");
    assert_eq!(possessive("this ship"), "this ship's");
    assert_eq!(possessive("craft 12"), "craft 12's");
    assert_eq!(possessive(""), "'s");
}

#[test]
fn trimming_drops_white_space_at_both_ends() {
    for s in ["  Ada  ", "\tA b\n", "", "   ", "\u{3000}x\u{a0}", "x"] {
        assert_eq!(trim(s), s.trim(), "{s:?}");
        assert_eq!(is_blank(s), s.trim().is_empty(), "{s:?}");
    }
}

#[test]
fn white_space_is_what_unicode_says() {
    for c in ['\t', '\n', ' ', '\u{85}', '\u{a0}', '\u{2003}', '\u{3000}', 'a', '_', '\u{200b}'] {
        assert_eq!(is_white_space(c), c.is_whitespace(), "{c:?}");
    }
}

#[test]
fn a_number_is_written_in_decimal() {
    assert_eq!(part(0), "part 0");
    assert_eq!(part(1234567), "part 1234567");
    assert_eq!(part(u64::MAX), format!("part {}", u64::MAX));
    assert_eq!(bodies_label(20), "20 bodies");
    assert_eq!(decimal_text(0), "0");
    assert_eq!(decimal_text(1234567), "1234567");
    assert_eq!(decimal_text(u64::MAX), u64::MAX.to_string());
}

#[test]
fn a_form_spelling_splits_at_its_first_star() {
    assert_eq!(fixture_parts("default"), ("default".to_string(), None));
    assert_eq!(fixture_parts("corvette*40"), ("corvette".to_string(), Some("40".to_string())));
    assert_eq!(fixture_parts("a*2*3"), ("a".to_string(), Some("2*3".to_string())));
    assert_eq!(fixture_parts("*"), (String::new(), Some(String::new())));
}
