//! The suffix tags minted so far, and the rule that prefers an established
//! tag over a longer candidate that ends with it.

use crate::text::ends_with;
use vstd::prelude::*;

verus! {

/// Whether `tag` is what a suffix candidate becomes against the minted tags:
/// the shortest minted tag that the candidate ends with, or the candidate
/// itself where it ends with none of them.
pub open spec fn is_canonical_for(minted: Set<Seq<char>>, candidate: Seq<char>, tag: Seq<char>) -> bool {
    if exists|m: Seq<char>| minted.contains(m) && #[trigger] m.is_suffix_of(candidate) {
        &&& minted.contains(tag)
        &&& tag.is_suffix_of(candidate)
        &&& forall|m: Seq<char>|
            minted.contains(m) && #[trigger] m.is_suffix_of(candidate) ==> tag.len() <= m.len()
    } else {
        tag == candidate
    }
}

/// The tag that stands for `candidate` once the minted tags are taken into
/// account; `lemma_canonical_unique` shows that exactly one tag qualifies.
pub open spec fn canonical(minted: Set<Seq<char>>, candidate: Seq<char>) -> Seq<char> {
    choose|tag: Seq<char>| is_canonical_for(minted, candidate, tag)
}

/// A suffix of a suffix is a suffix.
pub proof fn lemma_suffix_transitive(a: Seq<char>, b: Seq<char>, c: Seq<char>)
    requires
        a.is_suffix_of(b),
        b.is_suffix_of(c),
    ensures
        a.is_suffix_of(c),
{
}

/// Of two suffixes of one string, the one that is not longer is a suffix of
/// the other.
pub proof fn lemma_suffixes_nest(a: Seq<char>, b: Seq<char>, whole: Seq<char>)
    requires
        a.is_suffix_of(whole),
        b.is_suffix_of(whole),
        a.len() <= b.len(),
    ensures
        a.is_suffix_of(b),
{
}

/// At most one tag is canonical for a candidate.
pub proof fn lemma_canonical_unique(
    minted: Set<Seq<char>>,
    candidate: Seq<char>,
    tag: Seq<char>,
)
    requires
        is_canonical_for(minted, candidate, tag),
    ensures
        canonical(minted, candidate) == tag,
{
    let other = canonical(minted, candidate);
    assert(is_canonical_for(minted, candidate, other));
    if exists|m: Seq<char>| minted.contains(m) && #[trigger] m.is_suffix_of(candidate) {
        assert(other.len() == tag.len());
        lemma_suffixes_nest(other, tag, candidate);
        assert(other =~= tag);
    }
}

/// A set of tags without repetition.
pub struct TagSet {
    tags: Vec<String>,
}

impl View for TagSet {
    type V = Set<Seq<char>>;

    closed spec fn view(&self) -> Set<Seq<char>> {
        self.tags.deep_view().to_set()
    }
}

impl TagSet {
    #[verifier::type_invariant]
    spec fn distinct(self) -> bool {
        self.tags.deep_view().no_duplicates()
    }

    /// The empty set.
    pub fn new() -> (set: Self)
        ensures
            set@ == Set::<Seq<char>>::empty(),
    {
        let set = TagSet { tags: Vec::new() };
        assert(set.tags.deep_view().to_set() =~= Set::<Seq<char>>::empty());
        set
    }

    /// Whether `tag` is in the set.
    pub fn contains(&self, tag: &String) -> (found: bool)
        ensures
            found == self@.contains(tag@),
    {
        let mut n: usize = 0;
        while n < self.tags.len()
            invariant
                n <= self.tags.len(),
                forall|k: int| 0 <= k < n ==> self.tags.deep_view()[k] != tag@,
            decreases self.tags.len() - n,
        {
            if self.tags[n] == *tag {
                assert(self.tags.deep_view()[n as int] == tag@);
                return true;
            }
            n += 1;
        }
        false
    }

    /// Adds `tag`; a tag that is already there changes nothing.
    pub fn insert(&mut self, tag: String)
        ensures
            final(self)@ == old(self)@.insert(tag@),
    {
        proof {
            use_type_invariant(&*self);
        }
        if !self.contains(&tag) {
            let ghost before = self.tags.deep_view();
            let mut tags: Vec<String> = Vec::new();
            core::mem::swap(&mut self.tags, &mut tags);
            tags.push(tag);
            assert(tags.deep_view() =~= before.push(tag@));
            self.tags = tags;
            assert(self.tags.deep_view().to_set() =~= before.to_set().insert(tag@)) by {
                assert forall|t: Seq<char>| before.push(tag@).contains(t) implies before.to_set().insert(
                    tag@,
                ).contains(t) by {
                    let k = choose|k: int|
                        0 <= k < before.push(tag@).len() && before.push(tag@)[k] == t;
                    if k < before.len() {
                        assert(before[k] == t);
                    }
                }
                assert forall|t: Seq<char>| before.to_set().insert(tag@).contains(
                    t,
                ) implies before.push(tag@).contains(t) by {
                    if t == tag@ {
                        assert(before.push(tag@)[before.len() as int] == t);
                    } else {
                        let k = choose|k: int| 0 <= k < before.len() && before[k] == t;
                        assert(before.push(tag@)[k] == t);
                    }
                }
            }
        } else {
            assert(self@ =~= self@.insert(tag@));
        }
    }

    /// Replaces a suffix candidate by the shortest tag of the set that it
    /// ends with, and leaves it as it is where it ends with none.
    pub fn canonical_tag(&self, candidate: String) -> (tag: String)
        ensures
            tag@ == canonical(self@, candidate@),
    {
        let ghost all = self.tags.deep_view();
        let ghost wanted = candidate@;
        let mut tag = candidate;
        let mut n: usize = 0;
        while n < self.tags.len()
            invariant
                n <= self.tags.len(),
                all == self.tags.deep_view(),
                tag@.is_suffix_of(wanted),
                forall|k: int|
                    0 <= k < n && (#[trigger] all[k]).is_suffix_of(wanted) ==> tag@.len()
                        <= all[k].len(),
                if exists|k: int| 0 <= k < n && (#[trigger] all[k]).is_suffix_of(wanted) {
                    exists|k: int| 0 <= k < n && #[trigger] all[k] == tag@
                } else {
                    tag@ == wanted
                },
            decreases self.tags.len() - n,
        {
            let other = &self.tags[n];
            let ghost before = tag@;
            assert(all[n as int] == other@);
            if ends_with(tag.as_str(), other.as_str()) {
                proof {
                    lemma_suffix_transitive(other@, before, wanted);
                }
                tag = other.clone();
            } else {
                proof {
                    if other@.is_suffix_of(wanted) && other@.len() <= before.len() {
                        lemma_suffixes_nest(other@, before, wanted);
                    }
                }
            }
            n += 1;
        }
        proof {
            assert forall|m: Seq<char>|
                self@.contains(m) && #[trigger] m.is_suffix_of(wanted) implies tag@.len()
                <= m.len() by {
                let k = choose|k: int| 0 <= k < all.len() && all[k] == m;
                assert(all[k].is_suffix_of(wanted));
            }
            if exists|k: int| 0 <= k < n && (#[trigger] all[k]).is_suffix_of(wanted) {
                let k = choose|k: int| 0 <= k < n && (#[trigger] all[k]).is_suffix_of(wanted);
                assert(self@.contains(all[k]));
                let at = choose|k: int| 0 <= k < n && #[trigger] all[k] == tag@;
                assert(self@.contains(all[at]));
            } else {
                assert forall|m: Seq<char>| self@.contains(m) implies !#[trigger] m.is_suffix_of(
                    wanted,
                ) by {
                    let k = choose|k: int| 0 <= k < all.len() && all[k] == m;
                    assert(!all[k].is_suffix_of(wanted));
                }
            }
            assert(is_canonical_for(self@, wanted, tag@));
            lemma_canonical_unique(self@, wanted, tag@);
        }
        tag
    }
}

} // verus!
