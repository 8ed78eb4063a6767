use reco_forge::tags::{is_none_request, parse_tags, tags_match};
use reco_forge::through_filter;

fn strings(v: &[&str]) -> Vec<String> {
    v.iter().map(|s| s.to_string()).collect()
}

#[test]
fn tag_filter_examples() {
    let tags = strings(&["action", "rpg"]);
    assert!(through_filter(&tags, "Action"));
    assert!(!through_filter(&tags, "action,strategy"));
    assert!(through_filter(&tags, "NONE"));
    assert!(through_filter(&strings(&[]), "NONE"));
}

#[test]
fn tag_filter_needs_every_tag() {
    let tags = strings(&["Action", "RPG", "Indie"]);
    assert!(through_filter(&tags, " rpg , action "));
    assert!(!through_filter(&tags, "rpg,puzzle"));
    assert!(!through_filter(&strings(&[]), "rpg"));
}

#[test]
fn empty_pieces_ask_for_nothing() {
    let tags = strings(&["action"]);
    assert!(through_filter(&tags, "action,"));
    assert!(through_filter(&tags, ",,"));
    assert_eq!(parse_tags("a,,B , "), strings(&["a", "b"]));
}

#[test]
fn request_parsing() {
    assert_eq!(parse_tags(" Sci-Fi ,Drama"), strings(&["sci-fi", "drama"]));
    assert!(is_none_request("NONE"));
    assert!(!is_none_request("none"));
    assert!(!is_none_request("NONE,"));
}

#[test]
fn matching_is_exact_after_normalizing() {
    assert!(tags_match(&strings(&["a", "b"]), &strings(&["b", "c", "a"])));
    assert!(!tags_match(&strings(&["a", "d"]), &strings(&["b", "c", "a"])));
    assert!(tags_match(&strings(&[]), &strings(&[])));
}
