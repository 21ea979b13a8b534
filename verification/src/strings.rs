//! Conversions between bytes and text.
use vstd::prelude::*;
use vstd::utf8::*;

verus! {

broadcast use {encode_utf8_valid_utf8, encode_utf8_decode_utf8, decode_utf8_encode_utf8};

/// Checks that bytes are UTF-8, as `std::str::from_utf8` does, and gives the text.
///
/// Trusted: `std::str::from_utf8` accepts exactly the byte sequences that are valid
/// UTF-8 and returns the characters they encode; the contract states that with
/// vstd's `valid_utf8` and `decode_utf8`.
#[verifier::external_body]
pub(crate) fn str_from_utf8(bytes: &[u8]) -> (r: Option<&str>)
    ensures
        r is Some <==> valid_utf8(bytes@),
        r matches Some(s) ==> s@ == decode_utf8(bytes@),
{
    std::str::from_utf8(bytes).ok()
}

/// Bytes that are all below 128.
pub open spec fn all_ascii(bytes: Seq<u8>) -> bool {
    forall|i: int| 0 <= i < bytes.len() ==> #[trigger] bytes[i] < 128
}

/// The characters that ASCII bytes stand for.
pub open spec fn ascii_chars(bytes: Seq<u8>) -> Seq<char> {
    Seq::new(bytes.len(), |i: int| bytes[i] as char)
}

/// ASCII bytes are the UTF-8 encoding of the characters they stand for.
pub proof fn lemma_ascii_utf8(bytes: Seq<u8>)
    requires
        all_ascii(bytes),
    ensures
        encode_utf8(ascii_chars(bytes)) == bytes,
        valid_utf8(bytes),
        decode_utf8(bytes) == ascii_chars(bytes),
{
    let chars = ascii_chars(bytes);
    assert(is_ascii_chars(chars)) by {
        assert forall|i: int| 0 <= i < chars.len() implies (#[trigger] chars[i]) as nat <= 127 by {
            assert(bytes[i] < 128);
        }
    }
    is_ascii_chars_encode_utf8(chars);
    assert(encode_utf8(chars) =~= bytes);
}

/// A string holding exactly the characters of some ASCII bytes.
pub fn ascii_to_string(bytes: &[u8]) -> (s: String)
    requires
        all_ascii(bytes@),
    ensures
        s@ == ascii_chars(bytes@),
{
    proof {
        lemma_ascii_utf8(bytes@);
    }
    match str_from_utf8(bytes) {
        Some(t) => t.to_owned(),
        None => {
            proof {
                assert(false);
            }
            String::new()
        },
    }
}

/// The UTF-8 bytes of a string, as a vector.
pub fn string_bytes(s: &str) -> (v: Vec<u8>)
    ensures
        v@ == encode_utf8(s@),
{
    let b = s.as_bytes();
    let mut v: Vec<u8> = Vec::new();
    let mut i: usize = 0;
    while i < b.len()
        invariant
            i <= b@.len(),
            b@ == encode_utf8(s@),
            v@ =~= b@.subrange(0, i as int),
        decreases b@.len() - i,
    {
        v.push(b[i]);
        i += 1;
    }
    v
}

/// A string from bytes that are known to be UTF-8.
pub fn utf8_to_string(bytes: &[u8]) -> (s: String)
    requires
        valid_utf8(bytes@),
    ensures
        s@ == decode_utf8(bytes@),
        encode_utf8(s@) == bytes@,
{
    match str_from_utf8(bytes) {
        Some(t) => t.to_owned(),
        None => {
            proof {
                assert(false);
            }
            String::new()
        },
    }
}

/// Appends text to a string.
pub fn push_str(s: &mut String, t: &str)
    ensures
        final(s)@ == old(s)@ + t@,
{
    s.append(t);
}

} // verus!

verus! {

/// The decimal text of `n`.
pub fn decimal_string(n: u64) -> (s: String)
    ensures
        s@ == ascii_chars(crate::text::dec_nat(n as nat)),
{
    let digits = crate::text::u64_to_decimal(n);
    proof {
        crate::text::lemma_dec_nat_digits(n as nat);
    }
    ascii_to_string(digits.as_slice())
}

/// Every offset of ASCII bytes is a character boundary.
pub proof fn lemma_ascii_boundaries(b: Seq<u8>)
    requires
        all_ascii(b),
    ensures
        forall|i: int| 0 <= i <= b.len() && i % 2 == 0 ==> #[trigger] is_char_boundary(b, i),
{
    lemma_ascii_utf8(b);
    is_char_boundary_start_end_of_seq(b);
    assert forall|i: int| 0 <= i <= b.len() && i % 2 == 0 implies #[trigger] is_char_boundary(b, i) by {
        if i < b.len() {
            is_char_boundary_iff_not_is_continuation_byte(b, i);
        }
    }
}

} // verus!
