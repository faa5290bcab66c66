//! Character sequences: where one stands inside another.
//!
//! Filenames and template fragments are compared character by character.
//! The contracts speak of `Seq<char>`, the view of `str` and `String`;
//! the executable functions work on slices of `char`.

use vstd::prelude::*;

verus! {

/// `needle` stands in `hay` at position `at`.
pub open spec fn occurs_at(hay: Seq<char>, needle: Seq<char>, at: int) -> bool {
    &&& 0 <= at
    &&& at + needle.len() <= hay.len()
    &&& hay.subrange(at, at + needle.len()) == needle
}

/// `needle` stands in `hay` at `at` and at no earlier position.
pub open spec fn is_first_occurrence(hay: Seq<char>, needle: Seq<char>, at: int) -> bool {
    &&& occurs_at(hay, needle, at)
    &&& forall|j: int| j < at ==> !occurs_at(hay, needle, j)
}

/// The leftmost position at which `needle` stands in `hay`, if there is one.
pub open spec fn first_occurrence(hay: Seq<char>, needle: Seq<char>) -> Option<int> {
    if exists|i: int| is_first_occurrence(hay, needle, i) {
        Some(choose|i: int| is_first_occurrence(hay, needle, i))
    } else {
        None
    }
}

/// `hay` ends with `suffix`.
pub open spec fn ends_with(hay: Seq<char>, suffix: Seq<char>) -> bool {
    occurs_at(hay, suffix, hay.len() - suffix.len())
}

/// `hay` without its last `suffix.len()` characters.
pub open spec fn without_suffix(hay: Seq<char>, suffix: Seq<char>) -> Seq<char>
    recommends
        ends_with(hay, suffix),
{
    hay.take(hay.len() - suffix.len())
}

/// A position that is a first occurrence is the first occurrence.
pub proof fn lemma_first_occurrence_at(hay: Seq<char>, needle: Seq<char>, at: int)
    requires
        is_first_occurrence(hay, needle, at),
    ensures
        first_occurrence(hay, needle) == Some(at),
{
    let c = choose|i: int| is_first_occurrence(hay, needle, i);
    if c < at {
        assert(!occurs_at(hay, needle, c));
    }
    if at < c {
        assert(!occurs_at(hay, needle, at));
    }
}

/// Where `needle` stands nowhere in `hay`, there is no first occurrence.
pub proof fn lemma_first_occurrence_none(hay: Seq<char>, needle: Seq<char>)
    requires
        forall|j: int| !occurs_at(hay, needle, j),
    ensures
        first_occurrence(hay, needle) is None,
{
}

/// What `first_occurrence` returns: a position where `needle` stands with
/// none before it, or `None` exactly when `needle` stands nowhere.
pub proof fn lemma_first_occurrence(hay: Seq<char>, needle: Seq<char>)
    ensures
        match first_occurrence(hay, needle) {
            Some(at) => is_first_occurrence(hay, needle, at),
            None => forall|j: int| !occurs_at(hay, needle, j),
        },
{
    if first_occurrence(hay, needle) is None {
        assert forall|j: int| !occurs_at(hay, needle, j) by {
            if occurs_at(hay, needle, j) {
                lemma_least_occurrence(hay, needle, j);
            }
        }
    }
}

/// Below any occurrence there is a first one.
proof fn lemma_least_occurrence(hay: Seq<char>, needle: Seq<char>, at: int)
    requires
        occurs_at(hay, needle, at),
    ensures
        exists|i: int| is_first_occurrence(hay, needle, i),
    decreases at,
{
    if exists|j: int| j < at && occurs_at(hay, needle, j) {
        let j = choose|j: int| j < at && occurs_at(hay, needle, j);
        lemma_least_occurrence(hay, needle, j);
    } else {
        assert(is_first_occurrence(hay, needle, at));
    }
}

/// A sequence that begins with `needle` has its first occurrence at 0.
pub proof fn lemma_first_occurrence_prefix(needle: Seq<char>, tail: Seq<char>)
    ensures
        first_occurrence(needle + tail, needle) == Some(0int),
{
    assert((needle + tail).subrange(0, needle.len() as int) == needle);
    lemma_first_occurrence_at(needle + tail, needle, 0);
}

/// A sequence ends with what was appended to it last.
pub proof fn lemma_ends_with_suffix(head: Seq<char>, suffix: Seq<char>)
    ensures
        ends_with(head + suffix, suffix),
        without_suffix(head + suffix, suffix) == head,
{
    let s = head + suffix;
    assert(s.subrange(s.len() - suffix.len(), s.len() as int) =~= suffix);
    assert(s.take(s.len() - suffix.len()) =~= head);
}

/// Copies the characters of `s` into a vector.
pub fn to_chars(s: &str) -> (out: Vec<char>)
    ensures
        out@ == s@,
{
    let mut out: Vec<char> = Vec::new();
    for c in it: s.chars()
        invariant
            out@ == it.seq().take(it.index()),
    {
        out.push(c);
    }
    out
}

/// Tells whether `needle` stands in `hay` at position `at`.
pub fn matches_at(hay: &[char], at: usize, needle: &[char]) -> (found: bool)
    ensures
        found == occurs_at(hay@, needle@, at as int),
{
    if needle.len() > hay.len() || at > hay.len() - needle.len() {
        return false;
    }
    let mut k: usize = 0;
    while k < needle.len()
        invariant
            k <= needle.len(),
            at + needle.len() <= hay.len(),
            forall|j: int| 0 <= j < k ==> hay[at + j] == needle[j],
        decreases needle.len() - k,
    {
        if hay[at + k] != needle[k] {
            assert(hay@.subrange(at as int, at + needle.len())[k as int] != needle@[k as int]);
            return false;
        }
        k += 1;
    }
    assert(hay@.subrange(at as int, at + needle.len()) =~= needle@);
    true
}

/// Finds the leftmost position at which `needle` stands in `hay`.
pub fn find(hay: &[char], needle: &[char]) -> (found: Option<usize>)
    ensures
        match first_occurrence(hay@, needle@) {
            Some(at) => found == Some(at as usize) && 0 <= at && at + needle.len() <= hay.len(),
            None => found is None,
        },
{
    if needle.len() > hay.len() {
        proof {
            lemma_first_occurrence_none(hay@, needle@);
        }
        return None;
    }
    let last: usize = hay.len() - needle.len();
    let mut at: usize = 0;
    loop
        invariant
            at <= last,
            last == hay.len() - needle.len(),
            forall|j: int| j < at ==> !occurs_at(hay@, needle@, j),
        decreases last - at,
    {
        if matches_at(hay, at, needle) {
            proof {
                lemma_first_occurrence_at(hay@, needle@, at as int);
            }
            return Some(at);
        }
        if at == last {
            proof {
                lemma_first_occurrence_none(hay@, needle@);
            }
            return None;
        }
        at += 1;
    }
}

/// Tells whether `hay` ends with `suffix`.
pub fn has_suffix(hay: &[char], suffix: &[char]) -> (found: bool)
    ensures
        found == ends_with(hay@, suffix@),
{
    if suffix.len() > hay.len() {
        return false;
    }
    matches_at(hay, hay.len() - suffix.len(), suffix)
}

} // verus!
