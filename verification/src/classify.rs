//! Classification of the structural characters of a document: `{`, `}` and
//! `:` events, in ascending position order, skipping every byte that lies
//! inside a string literal.

use crate::quotes::esc_after;
use crate::quotes::lemma_esc_after_concat;
use crate::quotes::lemma_quotes_after_concat;
use crate::quotes::lemma_within_quotes_block;
use crate::quotes::mask_bit;
use crate::quotes::quotes_after;
use crate::quotes::within_quotes_at;
use crate::quotes::QuoteClassifier;
use vstd::prelude::*;
use vstd::slice::slice_subrange;

verus! {

/// A structural character of the document, with its byte offset from the
/// start of the input.
#[derive(Clone, Copy, Debug, PartialEq, Eq, Structural)]
pub enum StructuralEvent {
    Opening(usize),
    Closing(usize),
    Colon(usize),
}

/// The byte offset an event carries.
pub open spec fn event_index(e: StructuralEvent) -> int {
    match e {
        StructuralEvent::Opening(i) => i as int,
        StructuralEvent::Closing(i) => i as int,
        StructuralEvent::Colon(i) => i as int,
    }
}

/// One of the three structural bytes: `{`, `}`, `:`.
pub open spec fn is_structural_byte(b: u8) -> bool {
    b == 123u8 || b == 125u8 || b == 58u8
}

/// A structural byte stands at position `i` of the document, outside every
/// string literal.
pub open spec fn structural_at(s: Seq<u8>, i: int) -> bool {
    0 <= i < s.len() && is_structural_byte(s[i]) && !within_quotes_at(s, i)
}

/// The event emitted for position `i` of the document.
pub open spec fn event_at(s: Seq<u8>, i: int) -> StructuralEvent {
    if s[i] == 123u8 {
        StructuralEvent::Opening(i as usize)
    } else if s[i] == 125u8 {
        StructuralEvent::Closing(i as usize)
    } else {
        StructuralEvent::Colon(i as usize)
    }
}

/// The events of the first `n` bytes of the document, in ascending position
/// order.
pub open spec fn structural_events(s: Seq<u8>, n: int) -> Seq<StructuralEvent>
    decreases n,
{
    if n <= 0 {
        Seq::empty()
    } else if structural_at(s, n - 1) {
        structural_events(s, n - 1).push(event_at(s, n - 1))
    } else {
        structural_events(s, n - 1)
    }
}

/// There are never more events than bytes.
pub proof fn lemma_structural_events_len(s: Seq<u8>, n: int)
    requires
        0 <= n,
    ensures
        structural_events(s, n).len() <= n,
    decreases n,
{
    if n > 0 {
        lemma_structural_events_len(s, n - 1);
    }
}

/// Every emitted event carries the position of a structural byte of the
/// document, and is the event of that position.
pub proof fn lemma_structural_events_valid(s: Seq<u8>, n: int)
    requires
        0 <= n <= s.len(),
        n <= usize::MAX,
    ensures
        forall|k: int| 0 <= k < structural_events(s, n).len() ==> {
            let e = #[trigger] structural_events(s, n)[k];
            &&& 0 <= event_index(e) < n
            &&& structural_at(s, event_index(e))
            &&& e == event_at(s, event_index(e))
        },
    decreases n,
{
    if n > 0 {
        lemma_structural_events_valid(s, n - 1);
        let prev = structural_events(s, n - 1);
        let cur = structural_events(s, n);
        assert forall|k: int| 0 <= k < cur.len() implies {
            let e = #[trigger] cur[k];
            &&& 0 <= event_index(e) < n
            &&& structural_at(s, event_index(e))
            &&& e == event_at(s, event_index(e))
        } by {
            if k < prev.len() {
                assert(cur[k] == prev[k]);
            } else {
                assert(structural_at(s, n - 1));
                assert(cur[k] == event_at(s, n - 1));
                assert(event_index(event_at(s, n - 1)) == n - 1);
            }
        }
    }
}

/// All structural characters of the document, as events in ascending
/// position order.
pub fn classify_structural_characters(bytes: &[u8]) -> (r: Vec<StructuralEvent>)
    ensures
        r@ == structural_events(bytes@, bytes@.len() as int),
{
    let n_bytes = bytes.len();
    let mut result: Vec<StructuralEvent> = Vec::new();
    let mut classifier = QuoteClassifier::new();
    let mut base: usize = 0;
    proof {
        assert(bytes@.take(0) =~= Seq::<u8>::empty());
    }
    while base < bytes.len()
        invariant
            base <= bytes@.len(),
            n_bytes == bytes@.len(),
            classifier.in_string() == quotes_after(false, false, bytes@.take(base as int)),
            classifier.escape_pending() == esc_after(false, bytes@.take(base as int)),
            result@ == structural_events(bytes@, base as int),
        decreases bytes@.len() - base,
    {
        let rest = bytes.len() - base;
        let block_len = if rest < 64 { rest } else { 64 };
        let block = slice_subrange(bytes, base, base + block_len);
        let mask = classifier.classify_block(block);
        let mut k: usize = 0;
        while k < block_len
            invariant
                k <= block_len,
                base + block_len <= n_bytes,
                n_bytes == bytes@.len(),
                block_len <= 64,
                block@ == bytes@.subrange(base as int, base + block_len),
                forall|j: int| 0 <= j < block@.len()
                    ==> mask_bit(mask, j) == crate::quotes::within_quotes_bit(
                        quotes_after(false, false, bytes@.take(base as int)),
                        esc_after(false, bytes@.take(base as int)),
                        block@,
                        j,
                    ),
                result@ == structural_events(bytes@, base + k),
            decreases block_len - k,
        {
            let b = bytes[base + k];
            let in_quotes = (mask >> (k as u64)) & 1u64 == 1u64;
            proof {
                lemma_within_quotes_block(bytes@, base as int, block_len as int, k as int);
                assert(mask_bit(mask, k as int) == within_quotes_at(bytes@, base + k));
            }
            if !in_quotes && (b == 123u8 || b == 125u8 || b == 58u8) {
                let idx = base + k;
                if b == 123u8 {
                    result.push(StructuralEvent::Opening(idx));
                } else if b == 125u8 {
                    result.push(StructuralEvent::Closing(idx));
                } else {
                    result.push(StructuralEvent::Colon(idx));
                }
            }
            proof {
                assert(result@ == structural_events(bytes@, base + k + 1));
            }
            k += 1;
        }
        proof {
            assert(bytes@.take(base as int) + bytes@.subrange(base as int, base + block_len)
                =~= bytes@.take(base + block_len));
            lemma_quotes_after_concat(
                false,
                false,
                bytes@.take(base as int),
                bytes@.subrange(base as int, base + block_len),
            );
            lemma_esc_after_concat(
                false,
                bytes@.take(base as int),
                bytes@.subrange(base as int, base + block_len),
            );
        }
        base += block_len;
    }
    proof {
        assert(bytes@.take(bytes@.len() as int) =~= bytes@);
    }
    result
}

} // verus!
