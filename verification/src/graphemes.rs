//! Names as sequences of grapheme clusters, and direction-aware access to
//! them. A tag is cut at cluster boundaries only, so every function here
//! works on a name that has already been split into its clusters.

use unicode_segmentation::UnicodeSegmentation;
use vstd::prelude::*;

verus! {

/// The extended grapheme clusters of `s`, in order, as
/// `UnicodeSegmentation::graphemes(s, true)` yields them.
pub uninterp spec fn extended_graphemes(s: Seq<char>) -> Seq<Seq<char>>;

/// Calls `UnicodeSegmentation::graphemes` with `is_extended = true` and
/// collects the clusters. Nothing here is proved. The iterator hands out
/// consecutive slices of `name` from its start to its end, so the clusters
/// joined together give `name` back.
#[verifier::external_body]
pub(crate) fn graphemes(name: &str) -> (clusters: Vec<String>)
    ensures
        clusters.deep_view() == extended_graphemes(name@),
        clusters.deep_view().flatten() == name@,
{
    name.graphemes(true).map(String::from).collect()
}

/// The cluster at position `index` counted from the start of the name
/// (`is_prefix`) or from its end, where position 0 is the last cluster.
pub open spec fn nth_from(clusters: Seq<Seq<char>>, index: int, is_prefix: bool) -> Option<
    Seq<char>,
> {
    if 0 <= index < clusters.len() {
        if is_prefix {
            Some(clusters[index])
        } else {
            Some(clusters[clusters.len() - 1 - index])
        }
    } else {
        None
    }
}

/// How many clusters a tag of `cursor` clusters can take from a name.
pub open spec fn run_len(clusters: Seq<Seq<char>>, cursor: int) -> int {
    if cursor < 0 {
        0
    } else if cursor <= clusters.len() {
        cursor
    } else {
        clusters.len() as int
    }
}

/// The clusters that make up the first (`is_prefix`) or last `cursor`
/// clusters of a name, in the order in which the name has them.
pub open spec fn run_of(clusters: Seq<Seq<char>>, cursor: int, is_prefix: bool) -> Seq<Seq<char>> {
    let k = run_len(clusters, cursor);
    if is_prefix {
        clusters.take(k)
    } else {
        clusters.skip(clusters.len() - k)
    }
}

/// The text of the first (`is_prefix`) or last `cursor` clusters of a name.
pub open spec fn tag_text(clusters: Seq<Seq<char>>, cursor: int, is_prefix: bool) -> Seq<char> {
    run_of(clusters, cursor, is_prefix).flatten()
}

/// The names of a list, each split into its extended grapheme clusters.
pub open spec fn segmented(names: Seq<Seq<char>>) -> Seq<Seq<Seq<char>>> {
    names.map_values(|name: Seq<char>| extended_graphemes(name))
}

/// Splits every name into its extended grapheme clusters. The clusters of a
/// name, joined in order, spell the name.
pub fn segment_names(names: &Vec<String>) -> (clusters: Vec<Vec<String>>)
    ensures
        clusters.deep_view() == segmented(names.deep_view()),
        forall|i: int|
            0 <= i < names.len() ==> (#[trigger] clusters.deep_view()[i]).flatten()
                == names.deep_view()[i],
{
    let mut split: Vec<Vec<String>> = Vec::new();
    let mut i: usize = 0;
    while i < names.len()
        invariant
            i <= names.len(),
            split.len() == i,
            forall|k: int|
                0 <= k < i ==> (#[trigger] split[k]).deep_view() == extended_graphemes(
                    names[k]@,
                ),
            forall|k: int| 0 <= k < i ==> (#[trigger] split[k]).deep_view().flatten() == names[k]@,
        decreases names.len() - i,
    {
        let clusters = graphemes(names[i].as_str());
        split.push(clusters);
        i += 1;
    }
    assert(split.deep_view() =~= segmented(names.deep_view()));
    split
}

/// The grapheme cluster at `index`, counted from the start of the name when
/// `is_prefix` holds and from its end otherwise; `None` when the name has no
/// more than `index` clusters.
pub fn grapheme_nth(clusters: &Vec<String>, index: usize, is_prefix: bool) -> (found: Option<
    &String,
>)
    ensures
        found.deep_view() == nth_from(clusters.deep_view(), index as int, is_prefix),
{
    let count = clusters.len();
    if index >= count {
        None
    } else if is_prefix {
        Some(&clusters[index])
    } else {
        Some(&clusters[count - index - 1])
    }
}

/// The text of the first (`is_prefix`) or last `cursor` clusters of the name,
/// in the name's own order. A `cursor` beyond the name takes all of it.
pub fn take_tag(clusters: &Vec<String>, cursor: usize, is_prefix: bool) -> (tag: String)
    ensures
        tag@ == tag_text(clusters.deep_view(), cursor as int, is_prefix),
{
    let count = clusters.len();
    let taken = if cursor <= count {
        cursor
    } else {
        count
    };
    let start = if is_prefix {
        0
    } else {
        count - taken
    };
    let ghost all = clusters.deep_view();
    let mut tag = String::new();
    let mut k: usize = 0;
    while k < taken
        invariant
            k <= taken,
            start + taken <= count,
            count == clusters.len(),
            all == clusters.deep_view(),
            tag@ == all.subrange(start as int, start + k).flatten(),
        decreases taken - k,
    {
        proof {
            let done = all.subrange(start as int, start + k);
            assert(all.subrange(start as int, start + k + 1) =~= done.push(all[start + k]));
            done.lemma_flatten_push(all[start + k]);
        }
        tag.append(clusters[start + k].as_str());
        k += 1;
    }
    proof {
        assert(all.subrange(start as int, start + taken) =~= run_of(all, cursor as int, is_prefix));
    }
    tag
}

} // verus!
