//! Classification of the bytes of a document that lie inside JSON string
//! literals.
//!
//! The classifier works block by block: given a block of at most 64 bytes it
//! returns a 64-bit mask whose bit `k` is set exactly when byte `k` of the
//! block lies strictly inside a string literal, and it carries the in-string
//! and escape state across block boundaries. A byte lies strictly inside a
//! string when an unescaped opening quote precedes it and the byte is not
//! itself the unescaped quote that closes the string.

use crate::bytes::escaped_at;
use vstd::prelude::*;

verus! {

/// Escape state after reading `s`, starting from state `esc0`: whether the
/// byte that follows `s` would be escaped.
pub open spec fn esc_after(esc0: bool, s: Seq<u8>) -> bool
    decreases s.len(),
{
    if s.len() == 0 {
        esc0
    } else {
        s.last() == 92u8 && !esc_after(esc0, s.drop_last())
    }
}

/// In-string state after reading `s`, starting from in-string state `w0` and
/// escape state `esc0`: the state flips at every unescaped quote.
pub open spec fn quotes_after(w0: bool, esc0: bool, s: Seq<u8>) -> bool
    decreases s.len(),
{
    if s.len() == 0 {
        w0
    } else {
        quotes_after(w0, esc0, s.drop_last())
            != (s.last() == 34u8 && !esc_after(esc0, s.drop_last()))
    }
}

/// Byte `k` of the block `s`, read from states `w0` and `esc0`, lies strictly
/// inside a string literal.
pub open spec fn within_quotes_bit(w0: bool, esc0: bool, s: Seq<u8>, k: int) -> bool {
    quotes_after(w0, esc0, s.take(k)) && !(s[k] == 34u8 && !esc_after(esc0, s.take(k)))
}

/// An unescaped quote stands at position `i` of the document.
pub open spec fn unescaped_quote_at(s: Seq<u8>, i: int) -> bool {
    0 <= i < s.len() && s[i] == 34u8 && !escaped_at(s, i)
}

/// Direct scan of the whole document: the number of unescaped quotes strictly
/// before position `i` is odd.
pub open spec fn in_string_before(s: Seq<u8>, i: int) -> bool
    decreases i,
{
    if i <= 0 {
        false
    } else {
        in_string_before(s, i - 1) != unescaped_quote_at(s, i - 1)
    }
}

/// Direct scan of the whole document: byte `i` lies strictly inside a string
/// literal.
pub open spec fn within_quotes_at(s: Seq<u8>, i: int) -> bool {
    in_string_before(s, i) && !unescaped_quote_at(s, i)
}

/// Bit `k` of a 64-bit mask.
pub open spec fn mask_bit(mask: u64, k: int) -> bool {
    (mask >> (k as u64)) & 1u64 == 1u64
}

/// The escape state machine agrees with the backslash-run count: after the
/// first `i` bytes of `s` the state is set exactly when position `i` is
/// escaped.
pub proof fn lemma_esc_after_is_escaped(s: Seq<u8>, i: int)
    requires
        0 <= i <= s.len(),
    ensures
        esc_after(false, s.take(i)) == escaped_at(s, i),
    decreases i,
{
    if i == 0 {
        assert(s.take(0).len() == 0);
    } else {
        lemma_esc_after_is_escaped(s, i - 1);
        assert(s.take(i).drop_last() =~= s.take(i - 1));
        assert(s.take(i).last() == s[i - 1]);
    }
}

/// The in-string state machine agrees with the direct scan: after the first
/// `i` bytes of `s` the state is set exactly when an odd number of unescaped
/// quotes stands before position `i`.
pub proof fn lemma_quotes_after_is_in_string(s: Seq<u8>, i: int)
    requires
        0 <= i <= s.len(),
    ensures
        quotes_after(false, false, s.take(i)) == in_string_before(s, i),
    decreases i,
{
    if i == 0 {
        assert(s.take(0).len() == 0);
    } else {
        lemma_quotes_after_is_in_string(s, i - 1);
        lemma_esc_after_is_escaped(s, i - 1);
        assert(s.take(i).drop_last() =~= s.take(i - 1));
        assert(s.take(i).last() == s[i - 1]);
    }
}

/// The escape state composes over concatenation.
pub proof fn lemma_esc_after_concat(esc0: bool, s1: Seq<u8>, s2: Seq<u8>)
    ensures
        esc_after(esc0, s1 + s2) == esc_after(esc_after(esc0, s1), s2),
    decreases s2.len(),
{
    if s2.len() == 0 {
        assert(s1 + s2 =~= s1);
    } else {
        lemma_esc_after_concat(esc0, s1, s2.drop_last());
        assert((s1 + s2).drop_last() =~= s1 + s2.drop_last());
        assert((s1 + s2).last() == s2.last());
    }
}

/// The in-string state composes over concatenation.
pub proof fn lemma_quotes_after_concat(w0: bool, esc0: bool, s1: Seq<u8>, s2: Seq<u8>)
    ensures
        quotes_after(w0, esc0, s1 + s2)
            == quotes_after(quotes_after(w0, esc0, s1), esc_after(esc0, s1), s2),
    decreases s2.len(),
{
    if s2.len() == 0 {
        assert(s1 + s2 =~= s1);
    } else {
        lemma_quotes_after_concat(w0, esc0, s1, s2.drop_last());
        lemma_esc_after_concat(esc0, s1, s2.drop_last());
        assert((s1 + s2).drop_last() =~= s1 + s2.drop_last());
        assert((s1 + s2).last() == s2.last());
    }
}

/// Classifying a block from the state carried over its boundary gives the
/// same answer as a direct scan of the whole document: bit `k` of the block
/// starting at `base` is set exactly when byte `base + k` of the document
/// lies strictly inside a string literal.
pub proof fn lemma_within_quotes_block(s: Seq<u8>, base: int, len: int, k: int)
    requires
        0 <= base,
        0 <= k < len,
        base + len <= s.len(),
    ensures
        within_quotes_bit(
            quotes_after(false, false, s.take(base)),
            esc_after(false, s.take(base)),
            s.subrange(base, base + len),
            k,
        ) == within_quotes_at(s, base + k),
{
    let blk = s.subrange(base, base + len);
    assert(blk.take(k) =~= s.subrange(base, base + k));
    assert(s.take(base) + s.subrange(base, base + k) =~= s.take(base + k));
    lemma_quotes_after_concat(false, false, s.take(base), s.subrange(base, base + k));
    lemma_esc_after_concat(false, s.take(base), s.subrange(base, base + k));
    lemma_quotes_after_is_in_string(s, base + k);
    lemma_esc_after_is_escaped(s, base + k);
    assert(blk[k] == s[base + k]);
}

proof fn lemma_set_bit(m: u64, k: u64, j: u64)
    by (bit_vector)
    requires
        k < 64,
        j < 64,
    ensures
        j == k ==> ((m | (1u64 << k)) >> j) & 1u64 == 1u64,
        j != k ==> ((m | (1u64 << k)) >> j) & 1u64 == (m >> j) & 1u64,
{
}

proof fn lemma_zero_bit(j: u64)
    by (bit_vector)
    requires
        j < 64,
    ensures
        (0u64 >> j) & 1u64 == 0u64,
{
}

/// Carries the in-string and escape state from one block to the next while
/// producing a within-quotes mask for each block.
pub struct QuoteClassifier {
    within: bool,
    escaped: bool,
}

impl QuoteClassifier {
    /// The carried in-string state: the next byte handed in starts inside a
    /// string literal.
    pub closed spec fn in_string(self) -> bool {
        self.within
    }

    /// The carried escape state: the next byte handed in is escaped.
    pub closed spec fn escape_pending(self) -> bool {
        self.escaped
    }

    /// A classifier at the start of a document: outside any string, nothing
    /// escaped.
    pub fn new() -> (r: Self)
        ensures
            !r.in_string(),
            !r.escape_pending(),
    {
        QuoteClassifier { within: false, escaped: false }
    }

    /// Classify one block of at most 64 bytes. Bit `k` of the mask is set
    /// exactly when byte `k` of the block lies strictly inside a string
    /// literal; bits past the block are clear. The carried state advances
    /// over the block.
    pub fn classify_block(&mut self, block: &[u8]) -> (mask: u64)
        requires
            block@.len() <= 64,
        ensures
            final(self).in_string() == quotes_after(
                old(self).in_string(),
                old(self).escape_pending(),
                block@,
            ),
            final(self).escape_pending() == esc_after(old(self).escape_pending(), block@),
            forall|k: int| 0 <= k < block@.len()
                ==> mask_bit(mask, k) == within_quotes_bit(
                    old(self).in_string(),
                    old(self).escape_pending(),
                    block@,
                    k,
                ),
            forall|k: int| block@.len() <= k < 64 ==> !mask_bit(mask, k),
    {
        let ghost w0 = self.within;
        let ghost e0 = self.escaped;
        let mut mask: u64 = 0;
        let mut k: usize = 0;
        proof {
            assert(block@.take(0) =~= Seq::<u8>::empty());
            assert forall|j: int| 0 <= j < 64 implies !mask_bit(0u64, j) by {
                lemma_zero_bit(j as u64);
            }
        }
        while k < block.len()
            invariant
                k <= block@.len() <= 64,
                self.within == quotes_after(w0, e0, block@.take(k as int)),
                self.escaped == esc_after(e0, block@.take(k as int)),
                forall|j: int| 0 <= j < k
                    ==> mask_bit(mask, j) == within_quotes_bit(w0, e0, block@, j),
                forall|j: int| k <= j < 64 ==> !mask_bit(mask, j),
            decreases block@.len() - k,
        {
            let b = block[k];
            let was_within = self.within;
            let was_escaped = self.escaped;
            let inside = was_within && !(b == 34u8 && !was_escaped);
            let ghost old_mask = mask;
            if inside {
                mask = mask | (1u64 << (k as u64));
            }
            proof {
                if inside {
                    assert forall|j: int| 0 <= j < 64 implies mask_bit(mask, j) == (
                        j == k || mask_bit(old_mask, j)
                    ) by {
                        lemma_set_bit(old_mask, k as u64, j as u64);
                    }
                }
                assert(block@.take(k + 1).drop_last() =~= block@.take(k as int));
                assert(block@.take(k + 1).last() == block@[k as int]);
                assert(within_quotes_bit(w0, e0, block@, k as int) == inside);
            }
            self.within = was_within != (b == 34u8 && !was_escaped);
            self.escaped = b == 92u8 && !was_escaped;
            k += 1;
        }
        proof {
            assert(block@.take(k as int) =~= block@);
        }
        mask
    }

    /// Flip the carried in-string parity, for a consumer that took one quote
    /// out of band.
    pub fn flip_quotes_bit(&mut self)
        ensures
            final(self).in_string() == !old(self).in_string(),
            final(self).escape_pending() == old(self).escape_pending(),
    {
        self.within = !self.within;
    }
}

} // verus!
