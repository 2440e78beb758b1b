use vstd::prelude::*;
use vstd::slice::slice_subrange;

verus! {

/// `needle` stands in `hay` at offset `i`.
pub open spec fn occurs_at(hay: Seq<u8>, needle: Seq<u8>, i: int) -> bool {
    0 <= i && i + needle.len() <= hay.len() && hay.subrange(i, i + needle.len()) == needle
}

/// `at` is the first offset at or after `from` at which `needle` stands in `hay`.
pub open spec fn first_occurrence(hay: Seq<u8>, needle: Seq<u8>, from: int, at: int) -> bool {
    &&& from <= at
    &&& occurs_at(hay, needle, at)
    &&& forall|j: int| from <= j < at ==> !occurs_at(hay, needle, j)
}

/// The first offset at or after `from` at which `needle` stands in `hay`, if there is one.
pub open spec fn find_from(hay: Seq<u8>, needle: Seq<u8>, from: int) -> Option<int> {
    if exists|at: int| first_occurrence(hay, needle, from, at) {
        Some(choose|at: int| first_occurrence(hay, needle, from, at))
    } else {
        None
    }
}

/// `i` is the first index of `s` that holds `b`.
pub open spec fn is_first_byte(s: Seq<u8>, b: u8, i: int) -> bool {
    &&& 0 <= i < s.len()
    &&& s[i] == b
    &&& forall|j: int| 0 <= j < i ==> s[j] != b
}

/// The first index of `s` that holds `b`, if there is one.
pub open spec fn byte_pos(s: Seq<u8>, b: u8) -> Option<int> {
    if exists|i: int| is_first_byte(s, b, i) {
        Some(choose|i: int| is_first_byte(s, b, i))
    } else {
        None
    }
}

/// A first occurrence is the one that `find_from` names.
pub proof fn lemma_find_from_is(hay: Seq<u8>, needle: Seq<u8>, from: int, at: int)
    requires
        first_occurrence(hay, needle, from, at),
    ensures
        find_from(hay, needle, from) == Some(at),
{
    let c = choose|c: int| first_occurrence(hay, needle, from, c);
    assert(first_occurrence(hay, needle, from, c));
    if c < at {
        assert(!occurs_at(hay, needle, c));
    }
    if at < c {
        assert(!occurs_at(hay, needle, at));
    }
}

/// Where the needle stands at or after `from`, there is a first such offset.
pub proof fn lemma_first_exists(hay: Seq<u8>, needle: Seq<u8>, from: int, at: int)
    requires
        from <= at,
        occurs_at(hay, needle, at),
    ensures
        exists|f: int| first_occurrence(hay, needle, from, f) && f <= at,
    decreases at - from,
{
    if exists|j: int| from <= j < at && occurs_at(hay, needle, j) {
        let j = choose|j: int| from <= j < at && occurs_at(hay, needle, j);
        lemma_first_exists(hay, needle, from, j);
    } else {
        assert(first_occurrence(hay, needle, from, at));
    }
}

/// Without an occurrence at or after `from`, `find_from` names none.
pub proof fn lemma_find_from_none(hay: Seq<u8>, needle: Seq<u8>, from: int)
    requires
        forall|j: int| from <= j ==> !occurs_at(hay, needle, j),
    ensures
        find_from(hay, needle, from) is None,
{
    if exists|at: int| first_occurrence(hay, needle, from, at) {
        let c = choose|c: int| first_occurrence(hay, needle, from, c);
        assert(!occurs_at(hay, needle, c));
    }
}

/// A first index of a byte is the one that `byte_pos` names.
pub proof fn lemma_byte_pos_is(s: Seq<u8>, b: u8, i: int)
    requires
        is_first_byte(s, b, i),
    ensures
        byte_pos(s, b) == Some(i),
{
    let c = choose|c: int| is_first_byte(s, b, c);
    assert(is_first_byte(s, b, c));
    if c < i {
        assert(s[c] != b);
    }
    if i < c {
        assert(s[i] != b);
    }
}

/// Calls `memchr::memchr`, which searches a slice for the first occurrence of a
/// byte. Claimed of it: an index it returns is the first that holds the byte, and
/// it returns none only where no index holds it.
#[verifier::external_body]
fn memchr_first(needle: u8, haystack: &[u8]) -> (r: Option<usize>)
    ensures
        match r {
            Some(i) => is_first_byte(haystack@, needle, i as int),
            None => forall|j: int| 0 <= j < haystack@.len() ==> haystack@[j] != needle,
        },
{
    memchr::memchr(needle, haystack)
}

/// Calls `memchr::memmem::find`, which searches a haystack for the first
/// occurrence of a needle. Claimed of it: an index it returns is the first offset
/// at which the needle stands, and it returns none only where it stands nowhere.
#[verifier::external_body]
fn memmem_first(haystack: &[u8], needle: &[u8]) -> (r: Option<usize>)
    ensures
        match r {
            Some(i) => first_occurrence(haystack@, needle@, 0, i as int),
            None => forall|j: int| !occurs_at(haystack@, needle@, j),
        },
{
    memchr::memmem::find(haystack, needle)
}

/// The first index of `haystack` that holds `needle`.
pub fn find_byte(needle: u8, haystack: &[u8]) -> (r: Option<usize>)
    ensures
        match r {
            Some(i) => byte_pos(haystack@, needle) == Some(i as int) && is_first_byte(
                haystack@,
                needle,
                i as int,
            ),
            None => byte_pos(haystack@, needle) is None,
        },
{
    let r = memchr_first(needle, haystack);
    proof {
        match r {
            Some(i) => {
                lemma_byte_pos_is(haystack@, needle, i as int);
            },
            None => {
                if exists|i: int| is_first_byte(haystack@, needle, i) {
                    let c = choose|c: int| is_first_byte(haystack@, needle, c);
                    assert(haystack@[c] != needle);
                }
            },
        }
    }
    r
}

/// The first offset at or after `start` at which `tag` stands in `data`.
pub fn find_tag(data: &[u8], tag: &[u8], start: usize) -> (r: Option<usize>)
    requires
        start <= data.len(),
    ensures
        match r {
            Some(i) => find_from(data@, tag@, start as int) == Some(i as int) && start <= i
                && i + tag@.len() <= data@.len(),
            None => find_from(data@, tag@, start as int) is None,
        },
{
    let tail = slice_subrange(data, start, data.len());
    let found = memmem_first(tail, tag);
    match found {
        Some(i) => {
            proof {
                let n = tag@.len() as int;
                let s = start as int;
                assert(tail@.subrange(i as int, i + n) =~= data@.subrange(s + i, s + i + n));
                assert forall|j: int| s <= j < s + i implies !occurs_at(data@, tag@, j) by {
                    if occurs_at(data@, tag@, j) {
                        assert(tail@.subrange(j - s, j - s + n) =~= data@.subrange(j, j + n));
                        assert(occurs_at(tail@, tag@, j - s));
                    }
                }
                lemma_find_from_is(data@, tag@, s, s + i);
            }
            Some(start + i)
        },
        None => {
            proof {
                let n = tag@.len() as int;
                let s = start as int;
                assert forall|j: int| s <= j implies !occurs_at(data@, tag@, j) by {
                    if occurs_at(data@, tag@, j) {
                        assert(tail@.subrange(j - s, j - s + n) =~= data@.subrange(j, j + n));
                        assert(occurs_at(tail@, tag@, j - s));
                    }
                }
                lemma_find_from_none(data@, tag@, s);
            }
            None
        },
    }
}

} // verus!
