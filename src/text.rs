//! Facts about ASCII bytes inside UTF-8 text.

use vstd::prelude::*;
use vstd::utf8::*;

verus! {

/// In UTF-8 text, a byte between two ASCII bytes (or at the start, before one) is ASCII.
pub proof fn lemma_ascii_between(b: Seq<u8>, i: int)
    requires
        valid_utf8(b),
        0 <= i,
        i + 1 < b.len(),
        b[i + 1] < 128,
        i == 0 || b[i - 1] < 128,
    ensures
        b[i] < 128,
    decreases b.len(),
{
    let l = length_of_first_scalar(b);
    if i >= l {
        let rest = pop_first_scalar(b);
        assert(rest[i - l + 1] == b[i + 1]);
        assert(rest[i - l] == b[i]);
        if i - l > 0 {
            assert(rest[i - l - 1] == b[i - 1]);
        }
        lemma_ascii_between(rest, i - l);
    }
}

/// In UTF-8 text, the byte after an ASCII byte starts a character.
pub proof fn lemma_ascii_then_leading(b: Seq<u8>, i: int)
    requires
        valid_utf8(b),
        0 <= i,
        i + 1 < b.len(),
        b[i] < 128,
    ensures
        !is_continuation_byte(b[i + 1]),
    decreases b.len(),
{
    let l = length_of_first_scalar(b);
    let rest = pop_first_scalar(b);
    if i >= l {
        assert(rest[i - l + 1] == b[i + 1]);
        assert(rest[i - l] == b[i]);
        lemma_ascii_then_leading(rest, i - l);
    } else {
        assert(rest[0] == b[1]);
        is_char_boundary_iff_not_is_continuation_byte(rest, 0);
    }
}

/// In UTF-8 text, an ASCII byte has a character boundary on each side.
pub proof fn lemma_ascii_boundaries(b: Seq<u8>, i: int)
    requires
        valid_utf8(b),
        0 <= i < b.len(),
        b[i] < 128,
    ensures
        is_char_boundary(b, i),
        is_char_boundary(b, i + 1),
{
    is_char_boundary_iff_is_leading_byte(b, i);
    if i + 1 == b.len() {
        is_char_boundary_start_end_of_seq(b);
    } else {
        lemma_ascii_then_leading(b, i);
        is_char_boundary_iff_not_is_continuation_byte(b, i + 1);
    }
}

} // verus!
