use vstd::prelude::*;

verus! {

/// Number of bytes that the UTF-8 encoding of `c` takes.
pub open spec fn char_len(c: char) -> nat {
    if (c as u32) < 0x80 {
        1
    } else if (c as u32) < 0x800 {
        2
    } else if (c as u32) < 0x10000 {
        3
    } else {
        4
    }
}

/// Number of bytes that the UTF-8 encoding of `s` takes.
pub open spec fn utf8_len(s: Seq<char>) -> nat
    decreases s.len(),
{
    if s.len() == 0 {
        0
    } else {
        utf8_len(s.drop_last()) + char_len(s.last())
    }
}

pub proof fn lemma_utf8_len_concat(a: Seq<char>, b: Seq<char>)
    ensures
        utf8_len(a + b) == utf8_len(a) + utf8_len(b),
    decreases b.len(),
{
    if b.len() > 0 {
        assert((a + b).drop_last() =~= a + b.drop_last());
        lemma_utf8_len_concat(a, b.drop_last());
    } else {
        assert(a + b =~= a);
    }
}

/// Relies on `String::push`: the character is added at the end.
#[verifier::external_body]
pub(crate) fn push_char(s: &mut String, c: char)
    ensures
        final(s)@ == old(s)@.push(c),
{
    s.push(c)
}

/// Relies on `str::chars`, collected into a vector: the characters of `s` in order.
#[verifier::external_body]
pub(crate) fn chars_of(s: &str) -> (r: Vec<char>)
    ensures
        r@ == s@,
{
    s.chars().collect()
}

/// Relies on `String::from_utf8`: it succeeds exactly on valid UTF-8, and
/// then holds the characters that the bytes encode.
#[verifier::external_body]
pub(crate) fn string_from_utf8(bytes: Vec<u8>) -> (r: Option<String>)
    ensures
        r is Some <==> vstd::utf8::valid_utf8(bytes@),
        r matches Some(s) ==> s@ == vstd::utf8::decode_utf8(bytes@),
{
    String::from_utf8(bytes).ok()
}

} // verus!
