use vstd::prelude::*;

verus! {

/// A UTF-8 continuation byte (`10xxxxxx`): one that never starts a character.
pub open spec fn is_continuation_byte(b: u8) -> bool {
    0x80 <= b && b < 0xc0
}

/// Largest `n <= max`, and no lower than `max - 3`, at which `s[n]` is not a
/// continuation byte, so that `s[..n]` does not end inside a character; `max` itself
/// where all of those bytes are continuation bytes.
pub open spec fn utf8_boundary_of(s: Seq<u8>, max: int) -> int {
    if !is_continuation_byte(s[max]) {
        max
    } else if max >= 1 && !is_continuation_byte(s[max - 1]) {
        max - 1
    } else if max >= 2 && !is_continuation_byte(s[max - 2]) {
        max - 2
    } else if max >= 3 && !is_continuation_byte(s[max - 3]) {
        max - 3
    } else {
        max
    }
}

proof fn lemma_continuation_mask(b: u8)
    ensures
        (b & 0xc0 == 0x80) <==> is_continuation_byte(b),
{
    assert((b & 0xc0 == 0x80) <==> (0x80 <= b && b < 0xc0)) by (bit_vector);
}

/// Largest `n <= max` such that `buf[..n]` does not end in the middle of a UTF-8
/// character. A character is at most 4 bytes, so the search never looks further back
/// than that; on binary garbage (a long run of continuation bytes) it gives up and
/// returns `max` rather than stalling the buffer.
pub fn utf8_boundary(buf: &[u8], max: usize) -> (n: usize)
    requires
        max < buf@.len(),
    ensures
        n == utf8_boundary_of(buf@, max as int),
        max - 3 <= n <= max,
{
    let low = max.saturating_sub(3);
    let mut n = max;
    loop
        invariant
            max < buf@.len(),
            low == (if max >= 3 { max - 3 } else { 0 }),
            low <= n <= max,
            forall|k: int| n < k <= max ==> is_continuation_byte(#[trigger] buf@[k]),
        decreases n,
    {
        proof {
            lemma_continuation_mask(buf@[n as int]);
        }
        if buf[n] & 0xc0 != 0x80 {
            return n;
        }
        if n == low {
            return max;
        }
        n = n - 1;
    }
}

} // verus!
