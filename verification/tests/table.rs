use name_tags::table::{insert_check_map, rewrite_entries};
use name_tags::tag_set::TagSet;
use std::collections::HashMap;

fn table_of(entries: &[(usize, &str)]) -> HashMap<usize, String> {
    entries.iter().map(|(k, v)| (*k, v.to_string())).collect()
}

#[test]
fn prefix_tag_goes_to_both_positions() {
    let mut table = table_of(&[(0, "old"), (5, "kept")]);
    let mut minted = TagSet::new();
    insert_check_map(&mut table, &mut minted, 0, 3, "AA ".to_string(), true);
    assert_eq!(table, table_of(&[(0, "AA "), (3, "AA "), (5, "kept")]));
    assert!(!minted.contains(&"AA ".to_string()));
}

#[test]
fn first_suffix_tag_of_a_name_is_minted_as_it_is() {
    let mut table = table_of(&[(1, "e"), (7, "xing")]);
    let mut minted = TagSet::new();
    minted.insert("ng".to_string());
    insert_check_map(&mut table, &mut minted, 2, 1, "ing".to_string(), false);
    // No canonical replacement and no rewrite on this branch.
    assert_eq!(table, table_of(&[(1, "ing"), (2, "ing"), (7, "xing")]));
    assert!(minted.contains(&"ing".to_string()));
    assert!(minted.contains(&"ng".to_string()));
}

#[test]
fn longer_entry_discards_the_candidate() {
    let mut table = table_of(&[(2, "abcd"), (4, "zz")]);
    let mut minted = TagSet::new();
    insert_check_map(&mut table, &mut minted, 2, 4, "d".to_string(), false);
    assert_eq!(table, table_of(&[(2, "abcd"), (4, "zz")]));
    assert!(!minted.contains(&"d".to_string()));
}

#[test]
fn length_is_compared_in_bytes() {
    // "ロ" takes three bytes and "ab" two, so the entry is the longer one.
    let mut table = table_of(&[(0, "ロ")]);
    let mut minted = TagSet::new();
    insert_check_map(&mut table, &mut minted, 0, 1, "ab".to_string(), false);
    assert_eq!(table, table_of(&[(0, "ロ")]));
    // "abc" takes as many bytes as "ロ": the candidate is recorded.
    insert_check_map(&mut table, &mut minted, 0, 1, "abc".to_string(), false);
    assert_eq!(table, table_of(&[(0, "abc"), (1, "abc")]));
    assert!(minted.contains(&"abc".to_string()));
}

#[test]
fn candidate_of_equal_length_is_recorded_and_rewrites() {
    let mut table = table_of(&[(0, "ing"), (3, "ring"), (4, "rin"), (6, "ng")]);
    let mut minted = TagSet::new();
    insert_check_map(&mut table, &mut minted, 0, 1, "ing".to_string(), false);
    assert_eq!(
        table,
        table_of(&[(0, "ing"), (1, "ing"), (3, "ing"), (4, "rin"), (6, "ng")])
    );
    assert!(minted.contains(&"ing".to_string()));
}

#[test]
fn candidate_gives_way_to_minted_suffix_before_it_is_recorded() {
    let mut table = table_of(&[(8, "ing"), (6, "ing"), (2, "eing")]);
    let mut minted = TagSet::new();
    minted.insert("ing".to_string());
    insert_check_map(&mut table, &mut minted, 8, 7, "ning".to_string(), false);
    assert_eq!(table, table_of(&[(8, "ing"), (6, "ing"), (7, "ing"), (2, "ing")]));
    assert!(minted.contains(&"ing".to_string()));
    assert!(!minted.contains(&"ning".to_string()));
}

#[test]
fn pair_of_one_position_is_accepted() {
    let mut table = HashMap::new();
    let mut minted = TagSet::new();
    insert_check_map(&mut table, &mut minted, 4, 4, "x".to_string(), false);
    assert_eq!(table, table_of(&[(4, "x")]));
}

#[test]
fn rewrite_replaces_entries_that_end_with_the_tag() {
    let mut table = table_of(&[(0, "xing"), (1, "ing"), (2, "in"), (3, "g"), (4, "ingx"), (9, "")]);
    rewrite_entries(&mut table, &"ing".to_string());
    assert_eq!(
        table,
        table_of(&[(0, "ing"), (1, "ing"), (2, "in"), (3, "g"), (4, "ingx"), (9, "")])
    );
}

#[test]
fn rewrite_by_the_empty_tag_empties_every_entry() {
    let mut table = table_of(&[(0, "a"), (1, "bc")]);
    rewrite_entries(&mut table, &"".to_string());
    assert_eq!(table, table_of(&[(0, ""), (1, "")]));
}

#[test]
fn rewrite_of_an_empty_table_does_nothing() {
    let mut table: HashMap<usize, String> = HashMap::new();
    rewrite_entries(&mut table, &"a".to_string());
    assert!(table.is_empty());
}
