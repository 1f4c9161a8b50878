//! Search for fixed byte sequences: the first occurrence of one needle, and
//! the earliest occurrence over a set of needles with ties broken by the
//! position of the needle in the set.

use vstd::prelude::*;

verus! {

/// `needle` occurs in `hay` starting at position `i`.
pub open spec fn match_at(hay: Seq<u8>, needle: Seq<u8>, i: int) -> bool {
    &&& 0 <= i
    &&& i + needle.len() <= hay.len()
    &&& forall|k: int| 0 <= k < needle.len() ==> hay[i + k] == needle[k]
}

/// Needle number `w` of `needles` occurs at position `i` of `hay`. The
/// position itself must lie inside `hay`, which matters only for an empty
/// needle: one "occurs" wherever there is at least one byte left.
pub open spec fn any_match_at(needles: Seq<Seq<u8>>, hay: Seq<u8>, i: int, w: int) -> bool {
    &&& 0 <= w < needles.len()
    &&& 0 <= i < hay.len()
    &&& match_at(hay, needles[w], i)
}

/// The views of a slice of byte slices.
pub open spec fn views_of(needles: Seq<&[u8]>) -> Seq<Seq<u8>> {
    Seq::new(needles.len(), |w: int| needles[w]@)
}

/// `r` is the first occurrence of `needle` in `hay`: `Some(i)` exactly when
/// `needle` occurs at `i` and at no smaller position, `None` exactly when it
/// occurs nowhere.
pub open spec fn is_first_match(hay: Seq<u8>, needle: Seq<u8>, r: Option<usize>) -> bool {
    match r {
        Some(i) => match_at(hay, needle, i as int)
            && forall|j: int| 0 <= j < i ==> !match_at(hay, needle, j),
        None => forall|j: int| !match_at(hay, needle, j),
    }
}

/// The first-occurrence contract determines the result: any two
/// implementations that meet it, whatever code path each takes, return the
/// same output on every input.
pub proof fn lemma_first_match_unique(
    hay: Seq<u8>,
    needle: Seq<u8>,
    r1: Option<usize>,
    r2: Option<usize>,
)
    requires
        is_first_match(hay, needle, r1),
        is_first_match(hay, needle, r2),
    ensures
        r1 == r2,
{
    match (r1, r2) {
        (Some(i1), Some(i2)) => {
            assert(!(i1 < i2) && !(i2 < i1));
        },
        (Some(i1), None) => {
            assert(match_at(hay, needle, i1 as int));
        },
        (None, Some(i2)) => {
            assert(match_at(hay, needle, i2 as int));
        },
        (None, None) => {},
    }
}

/// `needle` occurs in `hay` at position `i`, checked byte by byte.
pub(crate) fn matches_prefix_at(needle: &[u8], hay: &[u8], i: usize) -> (r: bool)
    requires
        i + needle@.len() <= hay@.len(),
    ensures
        r == match_at(hay@, needle@, i as int),
{
    let hay_len = hay.len();
    let mut k: usize = 0;
    while k < needle.len()
        invariant
            k <= needle@.len(),
            hay_len == hay@.len(),
            i + needle@.len() <= hay_len,
            forall|m: int| 0 <= m < k ==> hay@[i + m] == needle@[m],
        decreases needle@.len() - k,
    {
        if hay[i + k] != needle[k] {
            return false;
        }
        k += 1;
    }
    true
}

/// First position of `sequence` in `bytes`, if any.
///
/// The result is `Some(i)` exactly when `sequence` occurs at `i` and at no
/// smaller position; it is `None` exactly when `sequence` occurs nowhere.
/// Callers promise a nonempty `sequence`. A sequence of length 1 is handed
/// to [`crate::bytes::find_byte`].
pub fn find_byte_sequence(sequence: &[u8], bytes: &[u8]) -> (r: Option<usize>)
    requires
        sequence@.len() >= 1,
    ensures
        is_first_match(bytes@, sequence@, r),
{
    let n = sequence.len();
    if n == 1 {
        let r = crate::bytes::find_byte(sequence[0], bytes);
        proof {
            match r {
                Some(i) => {
                    assert(match_at(bytes@, sequence@, i as int));
                }
                None => {
                    assert(forall|j: int| match_at(bytes@, sequence@, j)
                        ==> 0 <= j < bytes@.len() && bytes@[j] == sequence@[0]);
                }
            }
        }
        return r;
    }
    if bytes.len() < n {
        return None;
    }
    let mut i: usize = 0;
    while i <= bytes.len() - n
        invariant
            sequence@.len() == n,
            1 <= n <= bytes@.len(),
            i <= bytes@.len() - n + 1,
            forall|j: int| 0 <= j < i ==> !match_at(bytes@, sequence@, j),
        decreases bytes@.len() - i,
    {
        if matches_prefix_at(sequence, bytes, i) {
            return Some(i);
        }
        i += 1;
    }
    None
}

/// Earliest occurrence of any needle of `sequences` in `bytes`, if any.
///
/// `Some((i, w))` says that needle `w` occurs at `i`, that no needle occurs
/// at any earlier position, and that no needle with a smaller index occurs
/// at `i` itself; `None` says that no needle occurs anywhere.
pub fn find_any_of_sequences(sequences: &[&[u8]], bytes: &[u8]) -> (r: Option<(usize, usize)>)
    ensures
        match r {
            Some(p) => any_match_at(views_of(sequences@), bytes@, p.0 as int, p.1 as int)
                && (forall|j: int, w: int| 0 <= j < p.0
                    ==> !any_match_at(views_of(sequences@), bytes@, j, w))
                && (forall|w: int| 0 <= w < p.1
                    ==> !any_match_at(views_of(sequences@), bytes@, p.0 as int, w)),
            None => forall|j: int, w: int| !any_match_at(views_of(sequences@), bytes@, j, w),
        },
{
    let mut i: usize = 0;
    while i < bytes.len()
        invariant
            i <= bytes@.len(),
            forall|j: int, w: int| 0 <= j < i
                ==> !any_match_at(views_of(sequences@), bytes@, j, w),
        decreases bytes@.len() - i,
    {
        let mut w: usize = 0;
        while w < sequences.len()
            invariant
                i < bytes@.len(),
                w <= sequences@.len(),
                forall|j: int, v: int| 0 <= j < i
                    ==> !any_match_at(views_of(sequences@), bytes@, j, v),
                forall|v: int| 0 <= v < w
                    ==> !any_match_at(views_of(sequences@), bytes@, i as int, v),
            decreases sequences@.len() - w,
        {
            let needle = sequences[w];
            if needle.len() <= bytes.len() - i && matches_prefix_at(needle, bytes, i) {
                assert(views_of(sequences@)[w as int] == sequences@[w as int]@);
                assert(any_match_at(views_of(sequences@), bytes@, i as int, w as int));
                return Some((i, w));
            }
            assert(!any_match_at(views_of(sequences@), bytes@, i as int, w as int));
            w += 1;
        }
        i += 1;
    }
    None
}

} // verus!
