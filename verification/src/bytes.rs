//! Single-byte search over byte slices, with escape-aware variants.
//!
//! A byte is *escaped* when the run of consecutive backslash bytes
//! immediately before it has odd length. The rule applies recursively, so the
//! quote in `\"` is escaped, in `\\"` it is unescaped, in `\\\"` escaped, and
//! so on. All searches here are linear scans that never allocate.

use vstd::prelude::*;

verus! {

/// Length of the run of consecutive backslash (`\`, 0x5C) bytes of `s` that
/// ends immediately before position `i`.
pub open spec fn backslash_run(s: Seq<u8>, i: int) -> int
    decreases i,
{
    if i <= 0 || i > s.len() || s[i - 1] != 92u8 {
        0
    } else {
        backslash_run(s, i - 1) + 1
    }
}

/// Position `i` of `s` is escaped: the backslash run before it has odd length.
pub open spec fn escaped_at(s: Seq<u8>, i: int) -> bool {
    backslash_run(s, i) % 2 == 1
}

/// First index of `byte` in `slice`, if any.
pub fn find_byte(byte: u8, slice: &[u8]) -> (r: Option<usize>)
    ensures
        match r {
            Some(i) => i < slice@.len() && slice@[i as int] == byte
                && forall|j: int| 0 <= j < i ==> slice@[j] != byte,
            None => forall|j: int| 0 <= j < slice@.len() ==> slice@[j] != byte,
        },
{
    let mut i: usize = 0;
    while i < slice.len()
        invariant
            i <= slice@.len(),
            forall|j: int| 0 <= j < i ==> slice@[j] != byte,
        decreases slice@.len() - i,
    {
        if slice[i] == byte {
            return Some(i);
        }
        i += 1;
    }
    None
}

/// First index of either `byte1` or `byte2` in `slice`, if any.
pub fn find_byte2(byte1: u8, byte2: u8, slice: &[u8]) -> (r: Option<usize>)
    ensures
        match r {
            Some(i) => i < slice@.len()
                && (slice@[i as int] == byte1 || slice@[i as int] == byte2)
                && forall|j: int| 0 <= j < i ==> slice@[j] != byte1 && slice@[j] != byte2,
            None => forall|j: int| 0 <= j < slice@.len()
                ==> slice@[j] != byte1 && slice@[j] != byte2,
        },
{
    let mut i: usize = 0;
    while i < slice.len()
        invariant
            i <= slice@.len(),
            forall|j: int| 0 <= j < i ==> slice@[j] != byte1 && slice@[j] != byte2,
        decreases slice@.len() - i,
    {
        if slice[i] == byte1 || slice[i] == byte2 {
            return Some(i);
        }
        i += 1;
    }
    None
}

/// Whether position `idx` of `slice` is escaped, by counting the backslashes
/// that immediately precede it.
pub fn is_escaped(idx: usize, slice: &[u8]) -> (r: bool)
    requires
        idx <= slice@.len(),
    ensures
        r == escaped_at(slice@, idx as int),
{
    let mut j: usize = idx;
    let mut run: usize = 0;
    while j > 0 && slice[j - 1] == 92u8
        invariant
            j <= idx <= slice@.len(),
            run == idx - j,
            backslash_run(slice@, idx as int) == backslash_run(slice@, j as int) + run,
        decreases j,
    {
        j -= 1;
        run += 1;
    }
    assert(backslash_run(slice@, j as int) == 0);
    run % 2 == 1
}

/// First index of `byte` in `slice` at an unescaped position, if any.
pub fn find_unescaped_byte(byte: u8, slice: &[u8]) -> (r: Option<usize>)
    ensures
        match r {
            Some(i) => i < slice@.len() && slice@[i as int] == byte
                && !escaped_at(slice@, i as int)
                && forall|j: int| 0 <= j < i && slice@[j] == byte ==> escaped_at(slice@, j),
            None => forall|j: int| 0 <= j < slice@.len() && slice@[j] == byte
                ==> escaped_at(slice@, j),
        },
{
    let mut i: usize = 0;
    let mut run: usize = 0;
    while i < slice.len()
        invariant
            i <= slice@.len(),
            run <= i,
            run == backslash_run(slice@, i as int),
            forall|j: int| 0 <= j < i && slice@[j] == byte ==> escaped_at(slice@, j),
        decreases slice@.len() - i,
    {
        if slice[i] == byte && run % 2 == 0 {
            return Some(i);
        }
        if slice[i] == 92u8 {
            run += 1;
        } else {
            run = 0;
        }
        i += 1;
    }
    None
}

/// First index of either `byte1` or `byte2` in `slice` at an unescaped
/// position, if any.
pub fn find_unescaped_byte2(byte1: u8, byte2: u8, slice: &[u8]) -> (r: Option<usize>)
    ensures
        match r {
            Some(i) => i < slice@.len()
                && (slice@[i as int] == byte1 || slice@[i as int] == byte2)
                && !escaped_at(slice@, i as int)
                && forall|j: int| 0 <= j < i && (slice@[j] == byte1 || slice@[j] == byte2)
                    ==> escaped_at(slice@, j),
            None => forall|j: int| 0 <= j < slice@.len()
                && (slice@[j] == byte1 || slice@[j] == byte2) ==> escaped_at(slice@, j),
        },
{
    let mut i: usize = 0;
    let mut run: usize = 0;
    while i < slice.len()
        invariant
            i <= slice@.len(),
            run <= i,
            run == backslash_run(slice@, i as int),
            forall|j: int| 0 <= j < i && (slice@[j] == byte1 || slice@[j] == byte2)
                ==> escaped_at(slice@, j),
        decreases slice@.len() - i,
    {
        if (slice[i] == byte1 || slice[i] == byte2) && run % 2 == 0 {
            return Some(i);
        }
        if slice[i] == 92u8 {
            run += 1;
        } else {
            run = 0;
        }
        i += 1;
    }
    None
}

/// The insignificant whitespace bytes of JSON: space, tab, line feed and
/// carriage return, and nothing else.
pub open spec fn is_json_whitespace(b: u8) -> bool {
    b == 32u8 || b == 9u8 || b == 10u8 || b == 13u8
}

/// First index of a byte in `slice` that is not JSON whitespace, if any.
pub fn find_non_whitespace(slice: &[u8]) -> (r: Option<usize>)
    ensures
        match r {
            Some(i) => i < slice@.len() && !is_json_whitespace(slice@[i as int])
                && forall|j: int| 0 <= j < i ==> is_json_whitespace(slice@[j]),
            None => forall|j: int| 0 <= j < slice@.len() ==> is_json_whitespace(slice@[j]),
        },
{
    let mut i: usize = 0;
    while i < slice.len()
        invariant
            i <= slice@.len(),
            forall|j: int| 0 <= j < i ==> is_json_whitespace(slice@[j]),
        decreases slice@.len() - i,
    {
        let b = slice[i];
        if !(b == 32u8 || b == 9u8 || b == 10u8 || b == 13u8) {
            return Some(i);
        }
        i += 1;
    }
    None
}

} // verus!
