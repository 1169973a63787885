//! The tag extractor: a prefix pass and a suffix pass over one assignment
//! table, and the set of trimmed tags that the table holds at the end.

use crate::graphemes::{segment_names, segmented};
use crate::laws::{
    has_partner, is_shared_affix, is_shared_run, law_lone_name_holds_no_tag,
    law_shared_run_is_shared_affix, law_tags_are_trimmed, law_tags_stem_from_shared_runs,
};
use crate::matcher::{check_prefix_suffix, pass};
use crate::table::table_view;
use crate::text::{trim, trimmed};
use std::collections::{HashMap, HashSet};
use vstd::prelude::*;
use vstd::std_specs::iter::IteratorSpec;

verus! {

broadcast use vstd::std_specs::hash::group_hash_axioms;

/// The assignment table for `names`: what the suffix pass leaves of the
/// table that the prefix pass has filled.
pub open spec fn assignments(names: Seq<Seq<Seq<char>>>) -> Map<int, Seq<char>> {
    pass(names, pass(names, Map::empty(), true), false)
}

/// The distinct tags of a table, each trimmed of surrounding whitespace.
pub open spec fn tags_of(table: Map<int, Seq<char>>) -> Set<Seq<char>> {
    table.values().map(|held: Seq<char>| trimmed(held))
}

/// The tags of a list of names that are given by their grapheme clusters.
pub open spec fn extracted_tags(names: Seq<Seq<Seq<char>>>) -> Set<Seq<char>> {
    tags_of(assignments(names))
}

/// Collects strings into a `HashSet` through its `FromIterator` impl.
/// Nothing here is proved: the set holds the text of every string of `tags`
/// and no other.
#[verifier::external_body]
fn into_set(tags: Vec<String>) -> (set: HashSet<String>)
    ensures
        set.deep_view() == tags.deep_view().to_set(),
{
    HashSet::from_iter(tags)
}

/// Runs the prefix pass and then the suffix pass on an empty table. Only a
/// name that shares its first or its last cluster with a name at another
/// position comes to hold a tag.
pub fn assign_tags(names: &Vec<Vec<String>>) -> (checked_map: HashMap<usize, String>)
    ensures
        table_view(checked_map@) == assignments(names.deep_view()),
        forall|i: int| #[trigger]
            table_view(checked_map@).contains_key(i) ==> 0 <= i < names.len() && has_partner(
                names.deep_view(),
                i,
            ),
{
    let mut checked_map: HashMap<usize, String> = HashMap::new();
    assert(table_view(checked_map@) =~= Map::<int, Seq<char>>::empty());
    check_prefix_suffix(names, &mut checked_map, true);
    check_prefix_suffix(names, &mut checked_map, false);
    proof {
        law_lone_name_holds_no_tag(names.deep_view());
        assert(names.deep_view().len() == names.len());
    }
    checked_map
}

/// The set of the table's tags, each trimmed of surrounding whitespace.
pub fn collect_tags(checked_map: &HashMap<usize, String>) -> (tags: HashSet<String>)
    ensures
        tags.deep_view() == tags_of(table_view(checked_map@)),
{
    let ghost held = vstd::std_specs::hash::spec_values_iter(checked_map).remaining();
    let mut found: Vec<String> = Vec::new();
    for tag in it: checked_map.values()
        invariant
            it.seq() == held,
            found.len() == it.index(),
            forall|n: int| 0 <= n < found.len() ==> (#[trigger] found[n])@ == trimmed(it.seq()[n]@),
    {
        found.push(String::from_str(trim(tag.as_str())));
    }
    proof {
        let got = found.deep_view().to_set();
        let want = tags_of(table_view(checked_map@));
        let table = table_view(checked_map@);
        assert(held.unref().to_set() == checked_map@.values());
        assert forall|t: Seq<char>| got.contains(t) implies want.contains(t) by {
            let n = choose|n: int| 0 <= n < found.deep_view().len() && found.deep_view()[n] == t;
            assert(held.unref()[n] == *held[n]);
            assert(held.unref().to_set().contains(*held[n]));
            let key = choose|key: usize|
                checked_map@.contains_key(key) && checked_map@[key] == *held[n];
            assert(table.contains_key(key as int) && table[key as int] == held[n]@);
            assert(table.values().contains(held[n]@));
        }
        assert forall|t: Seq<char>| want.contains(t) implies got.contains(t) by {
            let text = choose|text: Seq<char>| table.values().contains(text) && trimmed(text) == t;
            let key = choose|key: int| table.contains_key(key) && table[key] == text;
            assert(checked_map@.values().contains(checked_map@[key as usize]));
            assert(held.unref().contains(checked_map@[key as usize]));
            let n = choose|n: int|
                0 <= n < held.unref().len() && held.unref()[n] == checked_map@[key as usize];
            assert(found.deep_view()[n] == t);
        }
        assert(got =~= want);
    }
    into_set(found)
}

/// The tags of names that are given by their grapheme clusters: the distinct
/// trimmed entries of the table after the prefix pass and the suffix pass.
/// Each of them is trimmed, and stems from a run of whole clusters that two
/// names at different positions share.
pub fn extract_tags_from_clusters(names: &Vec<Vec<String>>) -> (tags: HashSet<String>)
    ensures
        tags.deep_view() == extracted_tags(names.deep_view()),
        forall|tag: Seq<char>| #[trigger] tags.deep_view().contains(tag) ==> trimmed(tag) == tag,
        forall|tag: Seq<char>| #[trigger]
            tags.deep_view().contains(tag) ==> exists|run: Seq<char>| #[trigger]
                is_shared_run(names.deep_view(), run) && tag == trimmed(run),
{
    let checked_map = assign_tags(names);
    proof {
        law_tags_are_trimmed(names.deep_view());
        law_tags_stem_from_shared_runs(names.deep_view());
    }
    collect_tags(&checked_map)
}

/// Clusters `names` by shared leading or trailing runs of extended grapheme
/// clusters and returns one trimmed tag per group. Each tag is the trimmed
/// form of a string that starts two of the names, or ends two of them, at
/// different positions of the list.
pub fn extract_tags(names: Vec<String>) -> (tags: HashSet<String>)
    ensures
        tags.deep_view() == extracted_tags(segmented(names.deep_view())),
        forall|tag: Seq<char>| #[trigger] tags.deep_view().contains(tag) ==> trimmed(tag) == tag,
        forall|tag: Seq<char>| #[trigger]
            tags.deep_view().contains(tag) ==> exists|run: Seq<char>| #[trigger]
                is_shared_affix(names.deep_view(), run) && tag == trimmed(run),
{
    let clusters = segment_names(&names);
    let tags = extract_tags_from_clusters(&clusters);
    proof {
        assert forall|tag: Seq<char>| #[trigger] tags.deep_view().contains(tag) implies exists|
            run: Seq<char>,
        | #[trigger] is_shared_affix(names.deep_view(), run) && tag == trimmed(run) by {
            let run = choose|run: Seq<char>| #[trigger]
                is_shared_run(clusters.deep_view(), run) && tag == trimmed(run);
            law_shared_run_is_shared_affix(names.deep_view(), clusters.deep_view(), run);
        }
    }
    tags
}

} // verus!
