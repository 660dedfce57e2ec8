//! The greeting that the bridge hands out: fixed text with a terminating zero byte, living for
//! the whole run of the process.

use vstd::prelude::*;
use vstd::string::*;
use vstd::utf8::*;

use crate::line::{is_terminator_at, lemma_encode_concat};

verus! {

/// The greeting's text.
pub open spec fn greeting_text() -> Seq<char> {
    "Hello from Rust!"@
}

/// The greeting as `get_str` hands it out: its text, then a zero.
pub open spec fn greeting() -> Seq<char> {
    "Hello from Rust!\0"@
}

/// The greeting: a string with static storage, never freed or changed, whose bytes are the text
/// followed by a zero byte, so that it can also be read as a zero-terminated string.
pub fn get_str() -> (s: &'static str)
    ensures
        s@ == greeting(),
{
    "Hello from Rust!\0"
}

/// Any two strings that `get_str` returned hold the same bytes: the UTF-8 bytes of the
/// greeting's text, then one zero byte, which is the first zero byte and so ends the text when it
/// is read as a zero-terminated string.
pub proof fn lemma_get_str_contents(a: &str, b: &str)
    requires
        a@ == greeting(),
        b@ == greeting(),
    ensures
        a.spec_bytes() == b.spec_bytes(),
        a.spec_bytes() == encode_utf8(greeting_text()).push(0u8),
        is_terminator_at(a.spec_bytes(), greeting_text().len() as int),
        valid_utf8(a.spec_bytes().take(greeting_text().len() as int)),
        decode_utf8(a.spec_bytes().take(greeting_text().len() as int)) == greeting_text(),
{
    reveal_strlit("Hello from Rust!");
    reveal_strlit("Hello from Rust!\0");
    let text = greeting_text();
    let bytes = a.spec_bytes();
    assert(greeting() =~= text.push('\0'));
    assert(is_ascii_chars(greeting()));
    is_ascii_chars_encode_utf8(greeting());
    assert(encode_utf8(seq!['\0']) =~= seq![0u8]) by {
        let z = seq!['\0'];
        assert(z.drop_first() =~= Seq::<char>::empty());
        let c: u32 = z[0] as u32;
        assert(c == 0);
        assert(leading_byte_width_1(c) == 0) by (bit_vector)
            requires
                c == 0,
        ;
        assert(encode_scalar(c) =~= seq![0u8]);
        assert(encode_utf8(z) == encode_scalar(c) + encode_utf8(z.drop_first()));
    }
    lemma_encode_concat(text, seq!['\0']);
    assert(text + seq!['\0'] =~= text.push('\0'));
    assert(bytes =~= encode_utf8(text).push(0u8));
    assert(bytes.take(16) =~= encode_utf8(text));
    encode_utf8_valid_utf8(text);
    encode_utf8_decode_utf8(text);
    assert forall|j: int| 0 <= j < 16 implies bytes[j] != 0 by {
        assert(greeting()[j] as u8 == bytes[j]);
    }
}

} // verus!
