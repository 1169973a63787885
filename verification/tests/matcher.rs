use name_tags::extract::{assign_tags, collect_tags, extract_tags_from_clusters};
use name_tags::matcher::{check_prefix_suffix, shared_run_len};
use std::collections::{HashMap, HashSet};

fn clusters(name: &str) -> Vec<String> {
    name.chars().map(|c| c.to_string()).collect()
}

fn names(items: &[&str]) -> Vec<Vec<String>> {
    items.iter().map(|s| clusters(s)).collect()
}

fn table_of(entries: &[(usize, &str)]) -> HashMap<usize, String> {
    entries.iter().map(|(k, v)| (*k, v.to_string())).collect()
}

fn set_of(items: &[&str]) -> HashSet<String> {
    items.iter().map(|s| s.to_string()).collect()
}

#[test]
fn shared_run_from_the_start() {
    assert_eq!(shared_run_len(&clusters("AA Cynda"), &clusters("AA Dugo"), true), 3);
    assert_eq!(shared_run_len(&clusters("BE naari"), &clusters("BE"), true), 2);
    assert_eq!(shared_run_len(&clusters("abc"), &clusters("xbc"), true), 0);
}

#[test]
fn shared_run_from_the_end() {
    assert_eq!(shared_run_len(&clusters("beginning"), &clusters("ending"), false), 3);
    assert_eq!(shared_run_len(&clusters("beginning"), &clusters("evening"), false), 4);
    assert_eq!(shared_run_len(&clusters("abc"), &clusters("abx"), false), 0);
}

#[test]
fn shared_run_of_equal_names_is_their_length() {
    assert_eq!(shared_run_len(&clusters("X"), &clusters("X"), true), 1);
    assert_eq!(shared_run_len(&clusters("same"), &clusters("same"), false), 4);
    assert_eq!(shared_run_len(&clusters(""), &clusters(""), true), 0);
    assert_eq!(shared_run_len(&clusters(""), &clusters("a"), false), 0);
}

#[test]
fn shared_run_compares_whole_clusters() {
    let accented = vec!["e\u{301}".to_string(), "x".to_string()];
    let plain = vec!["e".to_string(), "x".to_string()];
    assert_eq!(shared_run_len(&accented, &plain, true), 0);
    assert_eq!(shared_run_len(&accented, &plain, false), 1);
}

#[test]
fn prefix_pass_fills_an_empty_table() {
    let list = names(&["AAA", "AAAA", "AAAGGGAAA", "ending", "evening", "beginning"]);
    let mut table = HashMap::new();
    check_prefix_suffix(&list, &mut table, true);
    assert_eq!(
        table,
        table_of(&[(0, "AAA"), (1, "AAA"), (2, "AAA"), (3, "e"), (4, "e")])
    );
}

#[test]
fn later_partner_overwrites_the_tag_of_the_first_name() {
    let list = names(&["abc", "abd", "abcx"]);
    let mut table = HashMap::new();
    check_prefix_suffix(&list, &mut table, true);
    assert_eq!(table, table_of(&[(0, "abc"), (1, "ab"), (2, "abc")]));
}

#[test]
fn pass_skips_names_that_hold_a_tag() {
    let list = names(&["ending", "evening", "beginning"]);
    let mut table = table_of(&[(0, "e"), (1, "e")]);
    check_prefix_suffix(&list, &mut table, false);
    assert_eq!(table, table_of(&[(0, "ing"), (1, "ing"), (2, "ing")]));
    // With every name tagged, a further pass changes nothing.
    check_prefix_suffix(&list, &mut table, false);
    assert_eq!(table, table_of(&[(0, "ing"), (1, "ing"), (2, "ing")]));
}

#[test]
fn accepted_partner_is_not_matched_again_in_the_pass() {
    // The first name claims the second with "abcd", then the third with the
    // candidate "d", which the longer entry keeps out of the table. When the
    // third name has its turn, both partners are already claimed.
    let list = names(&["xabcd", "yabcd", "zd"]);
    let mut table = HashMap::new();
    check_prefix_suffix(&list, &mut table, false);
    assert_eq!(table, table_of(&[(0, "abcd"), (1, "abcd")]));
}

#[test]
fn one_name_may_pair_with_several_partners() {
    let list = names(&["ab1", "ab2", "b2", "xb2"]);
    let mut table = HashMap::new();
    check_prefix_suffix(&list, &mut table, false);
    assert_eq!(table, table_of(&[(1, "b2"), (2, "b2"), (3, "b2")]));
}

#[test]
fn both_passes_share_one_table() {
    let list = names(&["ending", "evening", "beginning"]);
    assert_eq!(assign_tags(&list), table_of(&[(0, "ing"), (1, "ing"), (2, "ing")]));
    let list = names(&["AA 1", "AA 2", "zebra"]);
    assert_eq!(assign_tags(&list), table_of(&[(0, "AA "), (1, "AA ")]));
    assert_eq!(assign_tags(&names(&[])), HashMap::new());
}

#[test]
fn collected_tags_are_trimmed_and_distinct() {
    let table = table_of(&[(0, "AA "), (1, "AA "), (2, " AA"), (3, "\tFM\n"), (4, "  ")]);
    assert_eq!(collect_tags(&table), set_of(&["AA", "FM", ""]));
    assert_eq!(collect_tags(&HashMap::new()), HashSet::new());
}

#[test]
fn trimming_follows_the_white_space_property() {
    // U+3000 (ideographic space) and U+00A0 (no-break space) are whitespace;
    // U+200B (zero width space) is not.
    let table = table_of(&[(0, "\u{3000}あい\u{a0}"), (1, "\u{200b}x\u{200b}")]);
    assert_eq!(collect_tags(&table), set_of(&["あい", "\u{200b}x\u{200b}"]));
}

#[test]
fn tags_from_clusters_match_tags_from_text() {
    let list = names(&["OtM 1", "OtM 2", "RR 1", "RR 2"]);
    assert_eq!(extract_tags_from_clusters(&list), set_of(&["OtM", "RR"]));
}

#[test]
fn clusters_decide_what_is_shared() {
    // Held as single clusters the two names differ as wholes; held letter by
    // letter they share "ab".
    let whole = vec![vec!["abc".to_string()], vec!["abd".to_string()]];
    assert_eq!(extract_tags_from_clusters(&whole), HashSet::new());
    assert_eq!(extract_tags_from_clusters(&names(&["abc", "abd"])), set_of(&["ab"]));
}
