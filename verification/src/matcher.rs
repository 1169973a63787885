//! The directional matcher: one greedy pass over all pairs of names, from
//! the start of the names or from their end.

use crate::graphemes::{grapheme_nth, nth_from, tag_text, take_tag};
use crate::table::{consolidated, insert_check_map, lookup, table_view};
use crate::tag_set::TagSet;
use std::collections::{HashMap, HashSet};
use vstd::prelude::*;

verus! {

broadcast use vstd::std_specs::hash::group_hash_axioms;

/// Where the comparison of two names stops when it has reached `cursor`:
/// at the first position, counted from the chosen end, at which the names
/// differ or one of them has no cluster left.
pub open spec fn run_from(
    a: Seq<Seq<char>>,
    b: Seq<Seq<char>>,
    is_prefix: bool,
    cursor: nat,
) -> nat
    decreases a.len() - cursor,
{
    if cursor < a.len() && cursor < b.len() && nth_from(a, cursor as int, is_prefix) == nth_from(
        b,
        cursor as int,
        is_prefix,
    ) {
        run_from(a, b, is_prefix, cursor + 1)
    } else {
        cursor
    }
}

/// The number of clusters that two names share from the chosen end. Two
/// equal names share all their clusters, so a name of at least one cluster
/// pairs with its duplicate on the whole name; two names without clusters
/// share nothing.
pub open spec fn shared_run(a: Seq<Seq<char>>, b: Seq<Seq<char>>, is_prefix: bool) -> nat {
    run_from(a, b, is_prefix, 0)
}

/// What a pass has settled so far: the assignment table, the positions that
/// have found a partner in this pass, and the suffix tags minted in it.
pub struct PassState {
    pub table: Map<int, Seq<char>>,
    pub accepted: Set<int>,
    pub minted: Set<Seq<char>>,
}

/// The state in which a pass starts on `table`.
pub open spec fn pass_start(table: Map<int, Seq<char>>) -> PassState {
    PassState { table, accepted: Set::empty(), minted: Set::empty() }
}

/// The state after name `i` has been held against name `j`. A partner that
/// is `i` itself, that has been accepted in this pass, or that shares no
/// cluster with `i` leaves the state as it is. Any other partner is accepted
/// together with `i`, and the shared run enters the table.
pub open spec fn pair_step(
    names: Seq<Seq<Seq<char>>>,
    state: PassState,
    i: int,
    j: int,
    is_prefix: bool,
) -> PassState {
    let run = shared_run(names[i], names[j], is_prefix);
    if i == j || state.accepted.contains(j) || run == 0 {
        state
    } else {
        let (table, minted) = consolidated(
            state.table,
            state.minted,
            i,
            j,
            tag_text(names[i], run as int, is_prefix),
            is_prefix,
        );
        PassState { table, accepted: state.accepted.insert(i).insert(j), minted }
    }
}

/// The state after name `i` has been held against the first `upto` names.
pub open spec fn row(
    names: Seq<Seq<Seq<char>>>,
    state: PassState,
    i: int,
    upto: nat,
    is_prefix: bool,
) -> PassState
    decreases upto,
{
    if upto == 0 {
        state
    } else {
        pair_step(names, row(names, state, i, (upto - 1) as nat, is_prefix), i, upto - 1, is_prefix)
    }
}

/// The state after the first `upto` names have had their turn. A name takes
/// its turn only if the table holds nothing for it when the turn comes.
pub open spec fn rows(
    names: Seq<Seq<Seq<char>>>,
    state: PassState,
    upto: nat,
    is_prefix: bool,
) -> PassState
    decreases upto,
{
    if upto == 0 {
        state
    } else {
        let before = rows(names, state, (upto - 1) as nat, is_prefix);
        if before.table.contains_key(upto - 1) {
            before
        } else {
            row(names, before, upto - 1, names.len(), is_prefix)
        }
    }
}

/// The assignment table after one pass over `names` that started on `table`.
pub open spec fn pass(
    names: Seq<Seq<Seq<char>>>,
    table: Map<int, Seq<char>>,
    is_prefix: bool,
) -> Map<int, Seq<char>> {
    rows(names, pass_start(table), names.len(), is_prefix).table
}

/// A set of positions as a set of integers.
pub open spec fn positions_view(positions: Set<usize>) -> Set<int> {
    Set::new(|k: int| 0 <= k <= usize::MAX && positions.contains(k as usize))
}

/// Counts the clusters that two names share from the chosen end.
pub fn shared_run_len(a: &Vec<String>, b: &Vec<String>, is_prefix: bool) -> (cursor: usize)
    ensures
        cursor == shared_run(a.deep_view(), b.deep_view(), is_prefix),
{
    let mut cursor: usize = 0;
    loop
        invariant
            cursor <= a.len(),
            run_from(a.deep_view(), b.deep_view(), is_prefix, cursor as nat) == shared_run(
                a.deep_view(),
                b.deep_view(),
                is_prefix,
            ),
        ensures
            cursor == shared_run(a.deep_view(), b.deep_view(), is_prefix),
        decreases a.len() - cursor,
    {
        let same = match (grapheme_nth(a, cursor, is_prefix), grapheme_nth(b, cursor, is_prefix)) {
            (Some(c), Some(c2)) => *c == *c2,
            _ => false,
        };
        if !same {
            break ;
        }
        cursor += 1;
    }
    cursor
}

/// Marks position `i` as one that has found a partner.
fn accept(checked_set: &mut HashSet<usize>, i: usize)
    ensures
        positions_view(final(checked_set)@) == positions_view(old(checked_set)@).insert(i as int),
{
    checked_set.insert(i);
    assert(positions_view(checked_set@) =~= positions_view(old(checked_set)@).insert(i as int));
}

/// Runs one pass over `names` in the direction given by `is_prefix`: every
/// name for which the table holds nothing is held against every other name
/// that no earlier pair of this pass has claimed, in list order, and each
/// shared run of at least one cluster is recorded for the pair.
pub fn check_prefix_suffix(
    names: &Vec<Vec<String>>,
    checked_map: &mut HashMap<usize, String>,
    is_prefix: bool,
)
    ensures
        table_view(final(checked_map)@) == pass(
            names.deep_view(),
            table_view(old(checked_map)@),
            is_prefix,
        ),
{
    let ghost all = names.deep_view();
    let ghost start = pass_start(table_view(checked_map@));
    let mut checked_set: HashSet<usize> = HashSet::new();
    let mut suffix_tags = TagSet::new();
    assert(positions_view(checked_set@) =~= Set::<int>::empty());
    let mut i: usize = 0;
    while i < names.len()
        invariant
            i <= names.len(),
            all == names.deep_view(),
            table_view(checked_map@) == rows(all, start, i as nat, is_prefix).table,
            positions_view(checked_set@) == rows(all, start, i as nat, is_prefix).accepted,
            suffix_tags@ == rows(all, start, i as nat, is_prefix).minted,
        decreases names.len() - i,
    {
        if lookup(checked_map, i).is_none() {
            let ghost before = rows(all, start, i as nat, is_prefix);
            let mut rejected_set: HashSet<usize> = HashSet::new();
            let mut j: usize = 0;
            while j < names.len()
                invariant
                    i < names.len(),
                    j <= names.len(),
                    all == names.deep_view(),
                    forall|k: usize| rejected_set@.contains(k) ==> k < j,
                    table_view(checked_map@) == row(all, before, i as int, j as nat, is_prefix).table,
                    positions_view(checked_set@) == row(
                        all,
                        before,
                        i as int,
                        j as nat,
                        is_prefix,
                    ).accepted,
                    suffix_tags@ == row(all, before, i as int, j as nat, is_prefix).minted,
                decreases names.len() - j,
            {
                if i != j && !checked_set.contains(&j) && !rejected_set.contains(&j) {
                    let cursor = shared_run_len(&names[i], &names[j], is_prefix);
                    if cursor == 0 {
                        // Nothing shared from this end: the partner is out for this name.
                        rejected_set.insert(j);
                    } else {
                        accept(&mut checked_set, i);
                        accept(&mut checked_set, j);
                        let tag = take_tag(&names[i], cursor, is_prefix);
                        insert_check_map(checked_map, &mut suffix_tags, i, j, tag, is_prefix);
                    }
                }
                j += 1;
            }
        }
        i += 1;
    }
}

} // verus!
