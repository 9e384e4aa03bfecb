use tayb::phrase::Phrase;

#[test]
fn whole_fragment_matches_any_case() {
    assert_eq!(Phrase::get_reply("is that OK"), Some(String::from("6yb")));
    assert_eq!(Phrase::get_reply("6YB"), Some(String::from("6yb")));
    assert_eq!(Phrase::get_reply("well Yep indeed"), Some(String::from("YEBB")));
}

#[test]
fn substring_does_not_match() {
    assert_eq!(Phrase::get_reply("okay"), None);
    assert_eq!(Phrase::get_reply("yeppers"), None);
    assert_eq!(Phrase::get_reply("a6yb"), None);
}

#[test]
fn earlier_rule_wins() {
    assert_eq!(Phrase::get_reply("ok yep"), Some(String::from("6yb")));
    assert_eq!(Phrase::get_reply("yep ok"), Some(String::from("6yb")));
}

#[test]
fn non_ascii_trigger() {
    assert_eq!(Phrase::get_reply("طيب"), Some(String::from("6yb")));
    assert_eq!(Phrase::get_reply("well طيب then"), Some(String::from("6yb")));
}

#[test]
fn second_rule_triggers() {
    assert_eq!(Phrase::get_reply("yebb"), Some(String::from("YEBB")));
}

#[test]
fn empty_and_plain_text() {
    assert_eq!(Phrase::get_reply(""), None);
    assert_eq!(Phrase::get_reply("nothing to see here"), None);
}

#[test]
fn whitespace_delimiters() {
    assert_eq!(Phrase::get_reply("a\tok\nb"), Some(String::from("6yb")));
    assert_eq!(Phrase::get_reply("ok"), Some(String::from("6yb")));
}
