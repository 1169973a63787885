//! What holds of every extraction: tags are trimmed, every tag stems from a
//! run of whole clusters that two names share, and a name that shares nothing
//! with any other holds no tag.

use crate::extract::{assignments, extracted_tags};
use crate::graphemes::{nth_from, run_of, tag_text};
use crate::matcher::{pair_step, pass, pass_start, row, rows, run_from, shared_run, PassState};
use crate::tag_set::{canonical, is_canonical_for};
use crate::text::{lemma_trimmed_idempotent, trimmed};
use vstd::prelude::*;
use vstd::seq_lib::lemma_flatten_concat;

verus! {

/// Whether the names at the distinct positions `a` and `b` both have at
/// least `cursor` clusters, agree on their first (`is_prefix`) or last
/// `cursor` clusters, and `tag` is the text of that run.
pub open spec fn shares_run(
    names: Seq<Seq<Seq<char>>>,
    a: int,
    b: int,
    cursor: int,
    is_prefix: bool,
    tag: Seq<char>,
) -> bool {
    &&& 0 <= a < names.len()
    &&& 0 <= b < names.len()
    &&& a != b
    &&& 1 <= cursor <= names[a].len()
    &&& cursor <= names[b].len()
    &&& run_of(names[a], cursor, is_prefix) == run_of(names[b], cursor, is_prefix)
    &&& tag == tag_text(names[a], cursor, is_prefix)
}

/// Whether `tag` is a leading or a trailing run of whole clusters of two
/// names at different positions.
pub open spec fn is_shared_run(names: Seq<Seq<Seq<char>>>, tag: Seq<char>) -> bool {
    exists|a: int, b: int, cursor: int, is_prefix: bool|
        shares_run(names, a, b, cursor, is_prefix, tag)
}

/// Whether the name at position `i` shares its first or its last cluster
/// with a name at another position.
pub open spec fn has_partner(names: Seq<Seq<Seq<char>>>, i: int) -> bool {
    exists|j: int, is_prefix: bool|
        0 <= j < names.len() && j != i && #[trigger] shared_run(names[i], names[j], is_prefix) > 0
}

/// Whether `tag` starts (`is_prefix`) or ends the texts of the names at the
/// distinct positions `a` and `b`.
pub open spec fn shares_affix(
    names: Seq<Seq<char>>,
    a: int,
    b: int,
    is_prefix: bool,
    tag: Seq<char>,
) -> bool {
    &&& 0 <= a < names.len()
    &&& 0 <= b < names.len()
    &&& a != b
    &&& if is_prefix {
        tag.is_prefix_of(names[a]) && tag.is_prefix_of(names[b])
    } else {
        tag.is_suffix_of(names[a]) && tag.is_suffix_of(names[b])
    }
}

/// Whether `tag` starts two names at different positions, or ends two names
/// at different positions, where each name is given as its text.
pub open spec fn is_shared_affix(names: Seq<Seq<char>>, tag: Seq<char>) -> bool {
    exists|a: int, b: int, is_prefix: bool| shares_affix(names, a, b, is_prefix, tag)
}

/// The comparison of two names stops within both names, and every position
/// that it has passed holds the same cluster in both.
pub proof fn lemma_run_from(a: Seq<Seq<char>>, b: Seq<Seq<char>>, is_prefix: bool, cursor: nat)
    requires
        cursor <= a.len(),
        cursor <= b.len(),
    ensures
        cursor <= run_from(a, b, is_prefix, cursor) <= a.len(),
        run_from(a, b, is_prefix, cursor) <= b.len(),
        forall|c: int|
            cursor <= c < run_from(a, b, is_prefix, cursor) ==> nth_from(a, c, is_prefix)
                == nth_from(b, c, is_prefix),
        run_from(a, b, is_prefix, cursor) == run_from(b, a, is_prefix, cursor),
        run_from(a, b, is_prefix, cursor) < a.len() && run_from(a, b, is_prefix, cursor) < b.len()
            ==> nth_from(a, run_from(a, b, is_prefix, cursor) as int, is_prefix) != nth_from(
            b,
            run_from(a, b, is_prefix, cursor) as int,
            is_prefix,
        ),
    decreases a.len() - cursor,
{
    if cursor < a.len() && cursor < b.len() && nth_from(a, cursor as int, is_prefix) == nth_from(
        b,
        cursor as int,
        is_prefix,
    ) {
        lemma_run_from(a, b, is_prefix, cursor + 1);
    }
}

/// Two names agree on the whole run that they share and differ right after
/// it, unless one of them ends there; and they share as much with each other
/// whichever of them comes first.
pub proof fn lemma_shared_run(a: Seq<Seq<char>>, b: Seq<Seq<char>>, is_prefix: bool)
    ensures
        shared_run(a, b, is_prefix) <= a.len(),
        shared_run(a, b, is_prefix) <= b.len(),
        shared_run(a, b, is_prefix) == shared_run(b, a, is_prefix),
        shared_run(a, b, is_prefix) < a.len() && shared_run(a, b, is_prefix) < b.len() ==> nth_from(
            a,
            shared_run(a, b, is_prefix) as int,
            is_prefix,
        ) != nth_from(b, shared_run(a, b, is_prefix) as int, is_prefix),
        run_of(a, shared_run(a, b, is_prefix) as int, is_prefix) == run_of(
            b,
            shared_run(a, b, is_prefix) as int,
            is_prefix,
        ),
{
    lemma_run_from(a, b, is_prefix, 0);
    let run = shared_run(a, b, is_prefix) as int;
    let left = run_of(a, run, is_prefix);
    let right = run_of(b, run, is_prefix);
    assert(left.len() == right.len());
    assert forall|k: int| 0 <= k < left.len() implies left[k] == right[k] by {
        if is_prefix {
            assert(nth_from(a, k, is_prefix) == nth_from(b, k, is_prefix));
        } else {
            let c = run - 1 - k;
            assert(nth_from(a, c, is_prefix) == nth_from(b, c, is_prefix));
        }
    }
    assert(left =~= right);
}

/// The text of a leading run of clusters starts the text of the name, and
/// the text of a trailing run ends it.
pub proof fn lemma_run_is_affix(clusters: Seq<Seq<char>>, cursor: int, is_prefix: bool)
    ensures
        is_prefix ==> tag_text(clusters, cursor, is_prefix).is_prefix_of(clusters.flatten()),
        !is_prefix ==> tag_text(clusters, cursor, is_prefix).is_suffix_of(clusters.flatten()),
{
    let run = run_of(clusters, cursor, is_prefix);
    if is_prefix {
        let rest = clusters.skip(run.len() as int);
        assert(run + rest =~= clusters);
        lemma_flatten_concat(run, rest);
        assert(run.flatten() =~= clusters.flatten().subrange(0, run.flatten().len() as int));
    } else {
        let rest = clusters.take(clusters.len() - run.len());
        assert(rest + run =~= clusters);
        lemma_flatten_concat(rest, run);
        assert(run.flatten() =~= clusters.flatten().subrange(
            clusters.flatten().len() - run.flatten().len(),
            clusters.flatten().len() as int,
        ));
    }
}

/// Some tag is canonical for every candidate: among the minted tags that
/// the candidate ends with, if there are any, one is shortest.
pub proof fn lemma_canonical_exists(minted: Set<Seq<char>>, candidate: Seq<char>)
    ensures
        is_canonical_for(minted, candidate, canonical(minted, candidate)),
        canonical(minted, candidate) == candidate || minted.contains(canonical(minted, candidate)),
{
    if exists|m: Seq<char>| minted.contains(m) && #[trigger] m.is_suffix_of(candidate) {
        let some = choose|m: Seq<char>| minted.contains(m) && #[trigger] m.is_suffix_of(candidate);
        let least = lemma_shortest_suffix(minted, candidate, some, some.len());
        assert(is_canonical_for(minted, candidate, least));
    } else {
        assert(is_canonical_for(minted, candidate, candidate));
    }
}

/// Finds a shortest minted suffix of `candidate`, given one of them and a
/// bound below which none is shorter than the result.
proof fn lemma_shortest_suffix(
    minted: Set<Seq<char>>,
    candidate: Seq<char>,
    known: Seq<char>,
    below: nat,
) -> (least: Seq<char>)
    requires
        minted.contains(known),
        known.is_suffix_of(candidate),
        below <= known.len(),
        forall|m: Seq<char>|
            minted.contains(m) && #[trigger] m.is_suffix_of(candidate) && below <= m.len()
                ==> known.len() <= m.len(),
    ensures
        minted.contains(least),
        least.is_suffix_of(candidate),
        forall|m: Seq<char>|
            minted.contains(m) && #[trigger] m.is_suffix_of(candidate) ==> least.len() <= m.len(),
    decreases below,
{
    if below == 0 {
        known
    } else {
        let shorter = (below - 1) as nat;
        if exists|m: Seq<char>|
            minted.contains(m) && #[trigger] m.is_suffix_of(candidate) && m.len() == shorter {
            let next = choose|m: Seq<char>|
                minted.contains(m) && #[trigger] m.is_suffix_of(candidate) && m.len() == shorter;
            lemma_shortest_suffix(minted, candidate, next, shorter)
        } else {
            lemma_shortest_suffix(minted, candidate, known, shorter)
        }
    }
}

/// Whether every position of the table lies in the list and has a partner,
/// and every tag of the table and every minted tag is a shared run.
pub open spec fn sound(names: Seq<Seq<Seq<char>>>, state: PassState) -> bool {
    &&& forall|k: int| #[trigger]
        state.table.contains_key(k) ==> 0 <= k < names.len() && has_partner(names, k)
            && is_shared_run(names, state.table[k])
    &&& forall|m: Seq<char>| #[trigger] state.minted.contains(m) ==> is_shared_run(names, m)
}

/// Holding one name against another keeps the state sound.
pub proof fn lemma_pair_step_sound(
    names: Seq<Seq<Seq<char>>>,
    state: PassState,
    i: int,
    j: int,
    is_prefix: bool,
)
    requires
        sound(names, state),
        0 <= i < names.len(),
        0 <= j < names.len(),
    ensures
        sound(names, pair_step(names, state, i, j, is_prefix)),
{
    let run = shared_run(names[i], names[j], is_prefix);
    if !(i == j || state.accepted.contains(j) || run == 0) {
        let candidate = tag_text(names[i], run as int, is_prefix);
        lemma_shared_run(names[i], names[j], is_prefix);
        assert(shares_run(names, i, j, run as int, is_prefix, candidate));
        assert(has_partner(names, i));
        assert(shared_run(names[j], names[i], is_prefix) > 0);
        assert(has_partner(names, j));
        lemma_canonical_exists(state.minted, candidate);
        let tag = canonical(state.minted, candidate);
        assert(is_shared_run(names, tag));
        let next = pair_step(names, state, i, j, is_prefix);
        assert forall|k: int| #[trigger] next.table.contains_key(k) implies 0 <= k < names.len()
            && has_partner(names, k) && is_shared_run(names, next.table[k]) by {
            if k != i && k != j {
                assert(state.table.contains_key(k));
            }
        }
        assert forall|m: Seq<char>| #[trigger] next.minted.contains(m) implies is_shared_run(
            names,
            m,
        ) by {
            if m != candidate && m != tag {
                assert(state.minted.contains(m));
            }
        }
    }
}

/// Holding one name against the first `upto` names keeps the state sound.
pub proof fn lemma_row_sound(
    names: Seq<Seq<Seq<char>>>,
    state: PassState,
    i: int,
    upto: nat,
    is_prefix: bool,
)
    requires
        sound(names, state),
        0 <= i < names.len(),
        upto <= names.len(),
    ensures
        sound(names, row(names, state, i, upto, is_prefix)),
    decreases upto,
{
    if upto > 0 {
        lemma_row_sound(names, state, i, (upto - 1) as nat, is_prefix);
        lemma_pair_step_sound(
            names,
            row(names, state, i, (upto - 1) as nat, is_prefix),
            i,
            upto - 1,
            is_prefix,
        );
    }
}

/// The turns of the first `upto` names keep the state sound.
pub proof fn lemma_rows_sound(
    names: Seq<Seq<Seq<char>>>,
    state: PassState,
    upto: nat,
    is_prefix: bool,
)
    requires
        sound(names, state),
        upto <= names.len(),
    ensures
        sound(names, rows(names, state, upto, is_prefix)),
    decreases upto,
{
    if upto > 0 {
        lemma_rows_sound(names, state, (upto - 1) as nat, is_prefix);
        let before = rows(names, state, (upto - 1) as nat, is_prefix);
        if !before.table.contains_key(upto - 1) {
            lemma_row_sound(names, before, upto - 1, names.len(), is_prefix);
        }
    }
}

/// Every position of the table for a list of names lies in the list and has
/// a partner, and holds a run that two names share.
pub proof fn lemma_assignments_sound(names: Seq<Seq<Seq<char>>>)
    ensures
        forall|k: int| #[trigger]
            assignments(names).contains_key(k) ==> 0 <= k < names.len() && has_partner(names, k)
                && is_shared_run(names, assignments(names)[k]),
{
    let empty = pass_start(Map::<int, Seq<char>>::empty());
    lemma_rows_sound(names, empty, names.len(), true);
    let first = pass(names, Map::empty(), true);
    lemma_rows_sound(names, pass_start(first), names.len(), false);
    let last = rows(names, pass_start(first), names.len(), false);
    assert forall|k: int| #[trigger] assignments(names).contains_key(k) implies 0 <= k
        < names.len() && has_partner(names, k) && is_shared_run(names, assignments(names)[k]) by {
        assert(last.table.contains_key(k));
    }
}

/// Every returned tag is its own trimmed form: it has neither leading nor
/// trailing whitespace.
pub proof fn law_tags_are_trimmed(names: Seq<Seq<Seq<char>>>)
    ensures
        forall|tag: Seq<char>| #[trigger] extracted_tags(names).contains(tag) ==> trimmed(tag) == tag,
{
    assert forall|tag: Seq<char>| #[trigger] extracted_tags(names).contains(tag) implies trimmed(
        tag,
    ) == tag by {
        let held = choose|held: Seq<char>|
            assignments(names).values().contains(held) && trimmed(held) == tag;
        lemma_trimmed_idempotent(held);
    }
}

/// Every returned tag is the trimmed form of a leading or trailing run of
/// whole clusters that two names at different positions share. The run
/// splits no cluster of those two names.
pub proof fn law_tags_stem_from_shared_runs(names: Seq<Seq<Seq<char>>>)
    ensures
        forall|tag: Seq<char>| #[trigger]
            extracted_tags(names).contains(tag) ==> exists|run: Seq<char>| #[trigger]
                is_shared_run(names, run) && tag == trimmed(run),
{
    lemma_assignments_sound(names);
    let table = assignments(names);
    assert forall|tag: Seq<char>| #[trigger] extracted_tags(names).contains(tag) implies exists|
        run: Seq<char>,
    | #[trigger] is_shared_run(names, run) && tag == trimmed(run) by {
        let held = choose|held: Seq<char>| table.values().contains(held) && trimmed(held) == tag;
        let k = choose|k: int| table.contains_key(k) && table[k] == held;
        assert(is_shared_run(names, held));
    }
}

/// Where no tag of the table has leading or trailing whitespace, every
/// returned tag is itself a leading or trailing run of whole clusters that
/// two names at different positions share.
pub proof fn law_tags_are_shared_runs(names: Seq<Seq<Seq<char>>>)
    requires
        forall|k: int| #[trigger]
            assignments(names).contains_key(k) ==> trimmed(assignments(names)[k]) == assignments(
                names,
            )[k],
    ensures
        forall|tag: Seq<char>| #[trigger]
            extracted_tags(names).contains(tag) ==> is_shared_run(names, tag),
{
    lemma_assignments_sound(names);
    let table = assignments(names);
    assert forall|tag: Seq<char>| #[trigger] extracted_tags(names).contains(tag) implies is_shared_run(
        names,
        tag,
    ) by {
        let held = choose|held: Seq<char>| table.values().contains(held) && trimmed(held) == tag;
        let k = choose|k: int| table.contains_key(k) && table[k] == held;
        assert(held == tag);
    }
}

/// Only a name that shares its first or its last cluster with a name at
/// another position holds a tag. A list in which no name has such a partner
/// yields no tag at all.
pub proof fn law_lone_name_holds_no_tag(names: Seq<Seq<Seq<char>>>)
    ensures
        forall|i: int| #[trigger]
            assignments(names).contains_key(i) ==> 0 <= i < names.len() && has_partner(names, i),
        (forall|i: int| 0 <= i < names.len() ==> !has_partner(names, i)) ==> extracted_tags(names)
            == Set::<Seq<char>>::empty(),
{
    lemma_assignments_sound(names);
    let table = assignments(names);
    if forall|i: int| 0 <= i < names.len() ==> !has_partner(names, i) {
        assert forall|tag: Seq<char>| !extracted_tags(names).contains(tag) by {
            if extracted_tags(names).contains(tag) {
                let held = choose|held: Seq<char>|
                    table.values().contains(held) && trimmed(held) == tag;
                let k = choose|k: int| table.contains_key(k) && table[k] == held;
                assert(has_partner(names, k));
            }
        }
        assert(extracted_tags(names) =~= Set::<Seq<char>>::empty());
    }
}

/// Where the clusters of each name spell the name, a run that two names share
/// starts both names or ends both names.
pub proof fn law_shared_run_is_shared_affix(
    names: Seq<Seq<char>>,
    clusters: Seq<Seq<Seq<char>>>,
    tag: Seq<char>,
)
    requires
        clusters.len() == names.len(),
        forall|i: int| 0 <= i < names.len() ==> (#[trigger] clusters[i]).flatten() == names[i],
        is_shared_run(clusters, tag),
    ensures
        is_shared_affix(names, tag),
{
    let (a, b, cursor, is_prefix) = choose|a: int, b: int, cursor: int, is_prefix: bool|
        shares_run(clusters, a, b, cursor, is_prefix, tag);
    lemma_run_is_affix(clusters[a], cursor, is_prefix);
    lemma_run_is_affix(clusters[b], cursor, is_prefix);
    assert(shares_affix(names, a, b, is_prefix, tag));
}

} // verus!
