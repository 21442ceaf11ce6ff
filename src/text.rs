//! Facts about UTF-8 text made only of ASCII bytes.
use vstd::prelude::*;
use vstd::utf8::*;

verus! {

/// Whether every byte of `b` is an ASCII code (below 0x80).
pub open spec fn is_ascii_bytes(b: Seq<u8>) -> bool {
    forall|k: int| 0 <= k < b.len() ==> b[k] < 0x80
}

/// ASCII bytes are valid UTF-8, and each byte decodes to the character with
/// the same code.
pub proof fn lemma_ascii_decode(b: Seq<u8>)
    requires
        is_ascii_bytes(b),
    ensures
        valid_utf8(b),
        decode_utf8(b).len() == b.len(),
        forall|k: int| 0 <= k < b.len() ==> #[trigger] decode_utf8(b)[k] == b[k] as char,
    decreases b.len(),
{
    if b.len() > 0 {
        assert(is_leading_byte_width_1(b[0]));
        assert(pop_first_scalar(b) =~= b.skip(1));
        lemma_ascii_decode(b.skip(1));
        let b0 = b[0];
        assert(b0 & 0x7F == b0) by (bit_vector)
            requires
                b0 < 0x80,
        ;
        assert(decode_first_scalar(b) == b[0] as u32);
        assert forall|k: int| 0 <= k < b.len() implies #[trigger] decode_utf8(b)[k] == b[k] as char by {
            if k > 0 {
                assert(decode_utf8(b)[k] == decode_utf8(b.skip(1))[k - 1]);
            }
        }
    }
}

} // verus!
