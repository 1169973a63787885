//! Plain-text notions the tag rules rest on: whitespace trimming, the suffix
//! test, and the storage length of a string.

use vstd::prelude::*;

verus! {

/// Whether `c` has the Unicode `White_Space` property, as `char::is_whitespace`
/// tells it.
pub uninterp spec fn white_space(c: char) -> bool;

/// `s` without its leading whitespace characters.
pub open spec fn trim_start(s: Seq<char>) -> Seq<char>
    decreases s.len(),
{
    if s.len() > 0 && white_space(s.first()) {
        trim_start(s.drop_first())
    } else {
        s
    }
}

/// `s` without its trailing whitespace characters.
pub open spec fn trim_end(s: Seq<char>) -> Seq<char>
    decreases s.len(),
{
    if s.len() > 0 && white_space(s.last()) {
        trim_end(s.drop_last())
    } else {
        s
    }
}

/// `s` without its leading and trailing whitespace characters.
pub open spec fn trimmed(s: Seq<char>) -> Seq<char> {
    trim_end(trim_start(s))
}

/// Number of bytes that `s` takes in UTF-8, the unit in which stored tags are
/// compared by length.
pub open spec fn storage_len(s: Seq<char>) -> nat {
    vstd::utf8::encode_utf8(s).len()
}

/// `char::is_whitespace`. Nothing here is proved: the contract gives the
/// answer its name.
#[verifier::external_body]
fn is_whitespace(c: char) -> (b: bool)
    ensures
        b == white_space(c),
{
    c.is_whitespace()
}

/// The characters of `s`, in order.
fn chars_of(s: &str) -> (chars: Vec<char>)
    ensures
        chars@ == s@,
{
    let mut chars: Vec<char> = Vec::new();
    for c in it: s.chars()
        invariant
            it.seq() == s@,
            chars@ == it.seq().take(it.index()),
    {
        assert(it.seq().take(it.index() + 1) =~= it.seq().take(it.index()).push(c));
        chars.push(c);
    }
    assert(s@.take(s@.len() as int) =~= s@);
    chars
}

/// `s` without the whitespace characters at its start and at its end.
pub fn trim(s: &str) -> (r: &str)
    ensures
        r@ == trimmed(s@),
{
    let chars = chars_of(s);
    let mut start: usize = 0;
    assert(s@.skip(0) =~= s@);
    while start < chars.len() && is_whitespace(chars[start])
        invariant
            start <= chars.len(),
            chars@ == s@,
            trim_start(s@) == trim_start(s@.skip(start as int)),
        decreases chars.len() - start,
    {
        assert(s@.skip(start as int).drop_first() =~= s@.skip(start + 1));
        start += 1;
    }
    let ghost rest = s@.skip(start as int);
    assert(trim_start(s@) == rest);
    let mut end: usize = chars.len();
    while end > start && is_whitespace(chars[end - 1])
        invariant
            start <= end <= chars.len(),
            chars@ == s@,
            rest == s@.skip(start as int),
            trim_end(rest) == trim_end(s@.subrange(start as int, end as int)),
        decreases end - start,
    {
        assert(s@.subrange(start as int, end as int).drop_last() =~= s@.subrange(
            start as int,
            end - 1,
        ));
        end -= 1;
    }
    assert(s@.subrange(start as int, chars.len() as int) =~= rest);
    s.substring_char(start, end)
}

/// Whether `s` ends with `suffix`, character for character.
pub fn ends_with(s: &str, suffix: &str) -> (b: bool)
    ensures
        b == suffix@.is_suffix_of(s@),
{
    let whole = chars_of(s);
    let end = chars_of(suffix);
    if end.len() > whole.len() {
        return false;
    }
    let skip = whole.len() - end.len();
    let mut k: usize = 0;
    while k < end.len()
        invariant
            k <= end.len(),
            skip + end.len() == whole.len(),
            whole@ == s@,
            end@ == suffix@,
            forall|n: int| 0 <= n < k ==> whole@[skip + n] == end@[n],
        decreases end.len() - k,
    {
        if whole[skip + k] != end[k] {
            assert(s@.subrange(skip as int, s@.len() as int)[k as int] != suffix@[k as int]);
            return false;
        }
        k += 1;
    }
    assert(suffix@ =~= s@.subrange(skip as int, s@.len() as int));
    true
}

/// Length of `s` in bytes.
pub(crate) fn byte_len(s: &str) -> (n: usize)
    ensures
        n == storage_len(s@),
{
    s.as_bytes().len()
}

/// What is left after the leading whitespace is an end of the string that
/// does not start with whitespace.
pub proof fn lemma_trim_start_shape(s: Seq<char>)
    ensures
        trim_start(s).is_suffix_of(s),
        trim_start(s).len() > 0 ==> !white_space(trim_start(s).first()),
    decreases s.len(),
{
    if s.len() > 0 && white_space(s.first()) {
        lemma_trim_start_shape(s.drop_first());
    }
}

/// What is left after the trailing whitespace is a start of the string that
/// does not end with whitespace.
pub proof fn lemma_trim_end_shape(s: Seq<char>)
    ensures
        trim_end(s).is_prefix_of(s),
        trim_end(s).len() > 0 ==> !white_space(trim_end(s).last()),
    decreases s.len(),
{
    if s.len() > 0 && white_space(s.last()) {
        lemma_trim_end_shape(s.drop_last());
    }
}

/// Trimming is idempotent: a trimmed string is its own trimmed form.
pub proof fn lemma_trimmed_idempotent(s: Seq<char>)
    ensures
        trimmed(trimmed(s)) == trimmed(s),
{
    let a = trim_start(s);
    let b = trim_end(a);
    lemma_trim_start_shape(s);
    lemma_trim_end_shape(a);
    if b.len() > 0 {
        assert(b.first() == a.first());
    }
}

} // verus!
