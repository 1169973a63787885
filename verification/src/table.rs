//! The assignment table, which holds the tag of each name position, and the
//! rule by which a newly found tag enters it.

use crate::tag_set::{canonical, TagSet};
use crate::text::{byte_len, ends_with, storage_len};
use std::collections::HashMap;
use vstd::prelude::*;
use vstd::std_specs::iter::IteratorSpec;

verus! {

broadcast use vstd::std_specs::hash::group_hash_axioms;

/// The table as a map from name position to the text of its tag.
pub open spec fn table_view(table: Map<usize, String>) -> Map<int, Seq<char>> {
    Map::new(
        |k: int| 0 <= k <= usize::MAX && table.contains_key(k as usize),
        |k: int| table[k as usize]@,
    )
}

/// The table in which `tag` has replaced every entry that ends with it.
pub open spec fn rewritten(table: Map<int, Seq<char>>, tag: Seq<char>) -> Map<int, Seq<char>> {
    table.map_values(
        |held: Seq<char>|
            if tag.is_suffix_of(held) {
                tag
            } else {
                held
            },
    )
}

/// The table and the minted suffix tags after the pair `(i, j)` has been
/// found to share `candidate`.
///
/// A prefix tag is written to both positions. A suffix tag is written to both
/// positions and minted where `i` holds nothing yet. Where `i` holds a tag
/// that takes more bytes than the candidate, nothing changes. Otherwise the
/// candidate gives way to the shortest minted tag that it ends with, the
/// result is minted and written to both positions, and every entry of the
/// table that ends with it is replaced by it.
pub open spec fn consolidated(
    table: Map<int, Seq<char>>,
    minted: Set<Seq<char>>,
    i: int,
    j: int,
    candidate: Seq<char>,
    is_prefix: bool,
) -> (Map<int, Seq<char>>, Set<Seq<char>>) {
    if is_prefix {
        (table.insert(i, candidate).insert(j, candidate), minted)
    } else if !table.contains_key(i) {
        (table.insert(i, candidate).insert(j, candidate), minted.insert(candidate))
    } else if storage_len(table[i]) > storage_len(candidate) {
        (table, minted)
    } else {
        let tag = canonical(minted, candidate);
        (rewritten(table.insert(i, tag).insert(j, tag), tag), minted.insert(tag))
    }
}

/// The positions that hold a tag, each once.
fn positions(table: &HashMap<usize, String>) -> (keys: Vec<usize>)
    ensures
        keys@.to_set() == table@.dom(),
        keys@.no_duplicates(),
{
    let ghost all = vstd::std_specs::hash::spec_keys_iter(table).remaining();
    let mut keys: Vec<usize> = Vec::new();
    for k in it: table.keys()
        invariant
            it.seq() == all,
            keys@.len() == it.index(),
            forall|n: int| 0 <= n < keys@.len() ==> keys@[n] == *it.seq()[n],
    {
        keys.push(*k);
    }
    assert(keys@ =~= all.unref());
    keys
}

/// The tag that position `i` holds, if it holds one.
pub(crate) fn lookup<'a>(table: &'a HashMap<usize, String>, i: usize) -> (found: Option<&'a String>)
    ensures
        found.deep_view() == table_view(table@).get(i as int),
{
    table.get(&i)
}

/// Writes `tag` to position `i`, over whatever it held.
pub(crate) fn assign(table: &mut HashMap<usize, String>, i: usize, tag: String)
    ensures
        table_view(final(table)@) == table_view(old(table)@).insert(i as int, tag@),
{
    table.insert(i, tag);
    assert(table_view(table@) =~= table_view(old(table)@).insert(i as int, tag@));
}

/// Replaces by `tag` every entry of the table that ends with `tag`.
pub fn rewrite_entries(table: &mut HashMap<usize, String>, tag: &String)
    ensures
        table_view(final(table)@) == rewritten(table_view(old(table)@), tag@),
{
    let keys = positions(table);
    let ghost before = table@;
    let mut n: usize = 0;
    while n < keys.len()
        invariant
            n <= keys.len(),
            keys@.no_duplicates(),
            keys@.to_set() == before.dom(),
            table@.dom() == before.dom(),
            forall|k: int|
                0 <= k < n ==> (#[trigger] table@[keys@[k]])@ == if tag@.is_suffix_of(
                    before[keys@[k]]@,
                ) {
                    tag@
                } else {
                    before[keys@[k]]@
                },
            forall|k: int| n <= k < keys.len() ==> (#[trigger] table@[keys@[k]]) == before[keys@[k]],
        decreases keys.len() - n,
    {
        let key = keys[n];
        assert(keys@.to_set().contains(keys@[n as int]));
        let ghost mid = table@;
        let ends = match table.get(&key) {
            Some(held) => ends_with(held.as_str(), tag.as_str()),
            None => false,
        };
        if ends {
            table.insert(key, tag.clone());
            assert(table@.dom() =~= before.dom());
        }
        assert forall|k: int| 0 <= k < keys.len() && k != n implies #[trigger] table@[keys@[k]]
            == mid[keys@[k]] by {
            assert(keys@[k] != keys@[n as int]);
        }
        n += 1;
    }
    proof {
        let after = table_view(table@);
        let want = rewritten(table_view(before), tag@);
        assert forall|p: int| after.contains_key(p) implies #[trigger] after[p] == want[p] by {
            let key = p as usize;
            assert(keys@.to_set().contains(key));
            let k = choose|k: int| 0 <= k < keys@.len() && keys@[k] == key;
            assert(table@[keys@[k]]@ == want[p]);
        }
        assert(after =~= want);
    }
}

/// Records that the names at `i` and `j` share `tag` in the direction given
/// by `is_prefix`, reconciling a suffix tag with what the table and the
/// minted tags already hold.
pub fn insert_check_map(
    checked_map: &mut HashMap<usize, String>,
    suffix_tags: &mut TagSet,
    i: usize,
    j: usize,
    tag: String,
    is_prefix: bool,
)
    ensures
        (table_view(final(checked_map)@), final(suffix_tags)@) == consolidated(
            table_view(old(checked_map)@),
            old(suffix_tags)@,
            i as int,
            j as int,
            tag@,
            is_prefix,
        ),
{
    if is_prefix {
        assign(checked_map, i, tag.clone());
        assign(checked_map, j, tag);
        return ;
    }
    let held_is_longer = match lookup(checked_map, i) {
        Some(held) => Some(byte_len(held.as_str()) > byte_len(tag.as_str())),
        None => None,
    };
    match held_is_longer {
        Some(true) => {},
        Some(false) => {
            let tag = suffix_tags.canonical_tag(tag);
            suffix_tags.insert(tag.clone());
            assign(checked_map, i, tag.clone());
            assign(checked_map, j, tag.clone());
            rewrite_entries(checked_map, &tag);
        },
        None => {
            suffix_tags.insert(tag.clone());
            assign(checked_map, i, tag.clone());
            assign(checked_map, j, tag);
        },
    }
}

} // verus!
