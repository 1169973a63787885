use name_tags::tag_set::TagSet;

fn set_of(items: &[&str]) -> TagSet {
    let mut set = TagSet::new();
    for item in items {
        set.insert(item.to_string());
    }
    set
}

#[test]
fn new_set_holds_nothing() {
    let set = TagSet::new();
    assert!(!set.contains(&"".to_string()));
    assert!(!set.contains(&"ing".to_string()));
}

#[test]
fn inserted_tags_are_found() {
    let set = set_of(&["ing", "ロス", "ing"]);
    assert!(set.contains(&"ing".to_string()));
    assert!(set.contains(&"ロス".to_string()));
    assert!(!set.contains(&"in".to_string()));
    assert!(!set.contains(&"ng".to_string()));
}

#[test]
fn candidate_without_minted_suffix_stays() {
    let set = set_of(&["ing", "FM"]);
    assert_eq!(set.canonical_tag("ro".to_string()), "ro");
    assert_eq!(set.canonical_tag("in".to_string()), "in");
    assert_eq!(TagSet::new().canonical_tag("ning".to_string()), "ning");
}

#[test]
fn candidate_gives_way_to_the_minted_tag_it_ends_with() {
    let set = set_of(&["ing", "FM"]);
    assert_eq!(set.canonical_tag("ning".to_string()), "ing");
    assert_eq!(set.canonical_tag("ing".to_string()), "ing");
    assert_eq!(set.canonical_tag(" FM".to_string()), "FM");
}

#[test]
fn shortest_minted_suffix_wins_whatever_the_order() {
    assert_eq!(set_of(&["ng", "ing", "g"]).canonical_tag("ring".to_string()), "g");
    assert_eq!(set_of(&["g", "ing", "ng"]).canonical_tag("ring".to_string()), "g");
    assert_eq!(set_of(&["ing", "ng"]).canonical_tag("ring".to_string()), "ng");
    assert_eq!(set_of(&["ng", "ing"]).canonical_tag("ring".to_string()), "ng");
}

#[test]
fn suffix_test_is_by_characters() {
    // "é" (U+00E9) is not a suffix of "e" followed by U+0301, nor the other way.
    let set = set_of(&["\u{e9}"]);
    assert_eq!(set.canonical_tag("ae\u{301}".to_string()), "ae\u{301}");
    let set = set_of(&["ス"]);
    assert_eq!(set.canonical_tag("ロス".to_string()), "ス");
}
