//! Counting the Unicode scalar values ("runes") of UTF-8 encoded bytes.

use vstd::prelude::*;
use vstd::utf8::*;

verus! {

/// The number of Unicode scalar values that valid UTF-8 bytes decode to.
pub open spec fn rune_count(bytes: Seq<u8>) -> nat {
    decode_utf8(bytes).len()
}

/// The number of bytes in `bytes` that do not continue a multi-byte encoding.
pub open spec fn lead_count(bytes: Seq<u8>) -> nat
    decreases bytes.len(),
{
    if bytes.len() == 0 {
        0
    } else {
        lead_count(bytes.drop_last()) + if is_continuation_byte(bytes.last()) {
            0nat
        } else {
            1nat
        }
    }
}

proof fn lemma_lead_count_concat(a: Seq<u8>, b: Seq<u8>)
    ensures
        lead_count(a + b) == lead_count(a) + lead_count(b),
    decreases b.len(),
{
    if b.len() == 0 {
        assert(a + b =~= a);
    } else {
        assert((a + b).drop_last() =~= a + b.drop_last());
        lemma_lead_count_concat(a, b.drop_last());
    }
}

/// A well-formed encoding of one scalar value holds exactly one byte that is not a continuation.
proof fn lemma_lead_count_first_scalar(bytes: Seq<u8>)
    requires
        valid_first_scalar(bytes),
    ensures
        lead_count(take_first_scalar(bytes)) == 1,
{
    let s = take_first_scalar(bytes);
    let n = s.len() as int;
    assert(1 <= n <= 4);
    assert(!is_continuation_byte(s[0]));
    assert(forall|k: int| 1 <= k < n ==> is_continuation_byte(#[trigger] s[k]));
    assert(s.take(1).drop_last() =~= s.take(0));
    assert(lead_count(s.take(0)) == 0);
    assert(lead_count(s.take(1)) == 1);
    if n >= 2 {
        assert(s.take(2).drop_last() =~= s.take(1));
        assert(is_continuation_byte(s[1]));
        assert(lead_count(s.take(2)) == 1);
    }
    if n >= 3 {
        assert(s.take(3).drop_last() =~= s.take(2));
        assert(is_continuation_byte(s[2]));
        assert(lead_count(s.take(3)) == 1);
    }
    if n >= 4 {
        assert(s.take(4).drop_last() =~= s.take(3));
        assert(is_continuation_byte(s[3]));
        assert(lead_count(s.take(4)) == 1);
    }
    assert(s.take(n) =~= s);
}

/// On valid UTF-8 the number of decoded scalar values is the number of non-continuation bytes.
pub proof fn lemma_rune_count_is_lead_count(bytes: Seq<u8>)
    requires
        valid_utf8(bytes),
    ensures
        rune_count(bytes) == lead_count(bytes),
    decreases bytes.len(),
{
    if bytes.len() > 0 {
        let rest = pop_first_scalar(bytes);
        lemma_rune_count_is_lead_count(rest);
        lemma_lead_count_first_scalar(bytes);
        assert(take_first_scalar(bytes) + rest =~= bytes);
        lemma_lead_count_concat(take_first_scalar(bytes), rest);
    }
}

/// The UTF-8 encoding of any text is valid, and counting its runes gives the number of Unicode
/// scalar values in the text, however many bytes each of them takes.
pub proof fn lemma_count_of_encoded_text(text: Seq<char>)
    ensures
        valid_utf8(encode_utf8(text)),
        rune_count(encode_utf8(text)) == text.len(),
        lead_count(encode_utf8(text)) == text.len(),
{
    encode_utf8_valid_utf8(text);
    encode_utf8_decode_utf8(text);
    lemma_rune_count_is_lead_count(encode_utf8(text));
}

/// Counts the Unicode scalar values encoded in `bytes`, which must be valid UTF-8.
pub fn count_runes(bytes: &[u8]) -> (count: usize)
    requires
        valid_utf8(bytes@),
    ensures
        count == rune_count(bytes@),
{
    let mut count: usize = 0;
    let mut i: usize = 0;
    while i < bytes.len()
        invariant
            i <= bytes@.len(),
            count <= i,
            count == lead_count(bytes@.take(i as int)),
        decreases bytes@.len() - i,
    {
        let b = bytes[i];
        assert(bytes@.take(i + 1).drop_last() =~= bytes@.take(i as int));
        if b < 0x80 || b > 0xbf {
            count = count + 1;
        }
        i = i + 1;
    }
    proof {
        assert(bytes@.take(i as int) =~= bytes@);
        lemma_rune_count_is_lead_count(bytes@);
    }
    count
}

/// The length of the well-formed scalar encoding that starts `bytes` at `start`, if there is one.
fn first_scalar_width(bytes: &[u8], start: usize) -> (width: Option<usize>)
    requires
        start < bytes@.len(),
    ensures
        ({
            let rest = bytes@.subrange(start as int, bytes@.len() as int);
            match width {
                Some(w) => valid_first_scalar(rest) && w == length_of_first_scalar(rest),
                None => !valid_first_scalar(rest),
            }
        }),
{
    let ghost rest = bytes@.subrange(start as int, bytes@.len() as int);
    let avail: usize = bytes.len() - start;
    let b1 = bytes[start];
    if b1 <= 0x7f {
        let cp: u32 = (b1 & 0x7f) as u32;
        assert(cp <= 0x7f) by (bit_vector)
            requires
                cp == (b1 & 0x7f) as u32,
        ;
        Some(1)
    } else if 0xc0 <= b1 && b1 <= 0xdf {
        if avail < 2 {
            return None;
        }
        let b2 = bytes[start + 1];
        if !(0x80 <= b2 && b2 <= 0xbf) {
            return None;
        }
        let cp: u32 = (((b1 & 0x1f) as u32) << 6) | ((b2 & 0x3f) as u32);
        assert(cp == codepoint_width_2(rest[0], rest[1]));
        assert(cp <= 0x7ff) by (bit_vector)
            requires
                cp == (((b1 & 0x1f) as u32) << 6) | ((b2 & 0x3f) as u32),
        ;
        if cp < 0x80 {
            None
        } else {
            Some(2)
        }
    } else if 0xe0 <= b1 && b1 <= 0xef {
        if avail < 3 {
            return None;
        }
        let b2 = bytes[start + 1];
        let b3 = bytes[start + 2];
        if !(0x80 <= b2 && b2 <= 0xbf && 0x80 <= b3 && b3 <= 0xbf) {
            return None;
        }
        let cp: u32 = (((b1 & 0x0f) as u32) << 12) | (((b2 & 0x3f) as u32) << 6) | ((b3
            & 0x3f) as u32);
        assert(cp == codepoint_width_3(rest[0], rest[1], rest[2]));
        if cp < 0x800 || (0xd800 <= cp && cp <= 0xdfff) {
            None
        } else {
            Some(3)
        }
    } else if 0xf0 <= b1 && b1 <= 0xf7 {
        if avail < 4 {
            return None;
        }
        let b2 = bytes[start + 1];
        let b3 = bytes[start + 2];
        let b4 = bytes[start + 3];
        if !(0x80 <= b2 && b2 <= 0xbf && 0x80 <= b3 && b3 <= 0xbf && 0x80 <= b4 && b4 <= 0xbf) {
            return None;
        }
        let cp: u32 = (((b1 & 0x07) as u32) << 18) | (((b2 & 0x3f) as u32) << 12) | (((b3
            & 0x3f) as u32) << 6) | ((b4 & 0x3f) as u32);
        assert(cp == codepoint_width_4(rest[0], rest[1], rest[2], rest[3]));
        if cp < 0x10000 || cp > 0x10ffff {
            None
        } else {
            Some(4)
        }
    } else {
        None
    }
}

/// Tells whether `bytes` is valid UTF-8: well-formed sequences only, none overlong, no
/// surrogate and nothing above U+10FFFF.
pub fn is_valid_utf8(bytes: &[u8]) -> (valid: bool)
    ensures
        valid == valid_utf8(bytes@),
{
    let mut i: usize = 0;
    assert(bytes@.subrange(0, 0) =~= Seq::<u8>::empty());
    while i < bytes.len()
        invariant
            i <= bytes@.len(),
            partial_valid_utf8(bytes@, i as int),
        decreases bytes@.len() - i,
    {
        match first_scalar_width(bytes, i) {
            Some(w) => {
                proof {
                    partial_valid_utf8_extend(bytes@, i as int);
                }
                i = i + w;
            },
            None => {
                proof {
                    partial_valid_partial_invalid_utf8(bytes@, i as int);
                }
                return false;
            },
        }
    }
    assert(bytes@.subrange(0, i as int) =~= bytes@);
    true
}

} // verus!
