//! The lines that the bridge prints: a buffer's bytes, or a zero-terminated string's bytes,
//! followed by one newline.

use vstd::prelude::*;
use vstd::utf8::*;

verus! {

/// The byte that ends every printed line.
pub const NEWLINE: u8 = 0x0a;

/// The bytes written when `bytes` is printed as one line.
pub open spec fn line(bytes: Seq<u8>) -> Seq<u8> {
    bytes.push(NEWLINE)
}

/// `n` is the position of the first zero byte of `bytes`.
pub open spec fn is_terminator_at(bytes: Seq<u8>, n: int) -> bool {
    &&& 0 <= n < bytes.len()
    &&& bytes[n] == 0
    &&& forall|j: int| 0 <= j < n ==> bytes[j] != 0
}

/// `bytes` holds a zero byte somewhere.
pub open spec fn has_terminator(bytes: Seq<u8>) -> bool {
    exists|n: int| 0 <= n < bytes.len() && bytes[n] == 0
}

/// A sequence has at most one first zero byte.
pub proof fn lemma_terminator_unique(bytes: Seq<u8>, m: int, n: int)
    requires
        is_terminator_at(bytes, m),
        is_terminator_at(bytes, n),
    ensures
        m == n,
{
    if m < n {
        assert(bytes[m] != 0);
    } else if n < m {
        assert(bytes[n] != 0);
    }
}

/// The first `n` bytes of `bytes`, then a newline.
fn prefix_line(bytes: &[u8], n: usize) -> (out: Vec<u8>)
    requires
        n <= bytes@.len(),
    ensures
        out@ == line(bytes@.take(n as int)),
{
    let mut out: Vec<u8> = Vec::new();
    let mut i: usize = 0;
    while i < n
        invariant
            i <= n <= bytes@.len(),
            out@ == bytes@.take(i as int),
        decreases n - i,
    {
        out.push(bytes[i]);
        i = i + 1;
        assert(out@ =~= bytes@.take(i as int));
    }
    out.push(NEWLINE);
    out
}

/// The bytes that printing the buffer `bytes` writes: all of them, then a newline. They go
/// out as they are, with no decoding or re-encoding on the way.
pub fn print_line(bytes: &[u8]) -> (out: Vec<u8>)
    ensures
        out@ == line(bytes@),
{
    let out = prefix_line(bytes, bytes.len());
    assert(bytes@.take(bytes@.len() as int) =~= bytes@);
    out
}

/// The length of the zero-terminated string at the start of `bytes`: the position of the
/// first zero byte.
pub fn c_str_len(bytes: &[u8]) -> (n: usize)
    requires
        has_terminator(bytes@),
    ensures
        is_terminator_at(bytes@, n as int),
{
    let ghost z = choose|z: int| 0 <= z < bytes@.len() && bytes@[z] == 0;
    let mut i: usize = 0;
    while bytes[i] != 0
        invariant
            0 <= i <= z < bytes@.len(),
            bytes@[z] == 0,
            forall|j: int| 0 <= j < i ==> bytes@[j] != 0,
        decreases z - i,
    {
        i = i + 1;
    }
    i
}

/// The bytes that printing the zero-terminated string at the start of `bytes` writes: those
/// before the first zero byte, then a newline.
pub fn print_null_terminated_line(bytes: &[u8]) -> (out: Vec<u8>)
    requires
        has_terminator(bytes@),
    ensures
        forall|n: int| #[trigger] is_terminator_at(bytes@, n) ==> out@ == line(bytes@.take(n)),
{
    let len = c_str_len(bytes);
    let out = prefix_line(bytes, len);
    assert forall|n: int| #[trigger] is_terminator_at(bytes@, n) implies out@ == line(
        bytes@.take(n),
    ) by {
        lemma_terminator_unique(bytes@, n, len as int);
    }
    out
}

pub(crate) proof fn lemma_encode_concat(a: Seq<char>, b: Seq<char>)
    ensures
        encode_utf8(a + b) == encode_utf8(a) + encode_utf8(b),
    decreases a.len(),
{
    if a.len() == 0 {
        assert(a + b =~= b);
        assert(encode_utf8(a) + encode_utf8(b) =~= encode_utf8(b));
    } else {
        assert((a + b).drop_first() =~= a.drop_first() + b);
        lemma_encode_concat(a.drop_first(), b);
        assert(encode_utf8(a + b) =~= encode_utf8(a) + encode_utf8(b));
    }
}

/// A printed line of valid UTF-8 is valid UTF-8 itself, and reads as the buffer's text
/// followed by one newline character, with nothing else added.
pub proof fn lemma_line_text(bytes: Seq<u8>)
    requires
        valid_utf8(bytes),
    ensures
        valid_utf8(line(bytes)),
        decode_utf8(line(bytes)) == decode_utf8(bytes).push('\n'),
{
    let text = decode_utf8(bytes);
    decode_utf8_encode_utf8(bytes);
    let nl: u32 = '\n' as u32;
    assert(leading_byte_width_1(nl) == NEWLINE) by (bit_vector)
        requires
            nl == 10,
    ;
    assert(encode_scalar(nl) =~= seq![NEWLINE]);
    assert(encode_utf8(seq!['\n']) =~= seq![NEWLINE]) by {
        let one = seq!['\n'];
        assert(one.drop_first() =~= Seq::<char>::empty());
        assert(encode_utf8(one) == encode_scalar(nl) + encode_utf8(one.drop_first()));
    }
    lemma_encode_concat(text, seq!['\n']);
    assert(text + seq!['\n'] =~= text.push('\n'));
    assert(encode_utf8(text.push('\n')) =~= line(bytes));
    encode_utf8_valid_utf8(text.push('\n'));
    encode_utf8_decode_utf8(text.push('\n'));
}

/// Printing a zero-terminated string whose bytes before the terminator are valid UTF-8 writes
/// exactly that text, then one newline character.
pub proof fn lemma_null_terminated_line_text(bytes: Seq<u8>, n: int)
    requires
        is_terminator_at(bytes, n),
        valid_utf8(bytes.take(n)),
    ensures
        valid_utf8(line(bytes.take(n))),
        decode_utf8(line(bytes.take(n))) == decode_utf8(bytes.take(n)).push('\n'),
{
    lemma_line_text(bytes.take(n));
}

} // verus!
