//! Pointwise conversions between ASCII character sequences and byte
//! sequences.  The wire codec works on bytes while links are held as
//! strings; for ASCII text the two are the same values, which these
//! definitions and lemmas make available to the rest of the library.

use vstd::prelude::*;

verus! {

use vstd::string::StrSliceExecFns;

/// Every byte is an ASCII code point.
pub open spec fn ascii_bytes(b: Seq<u8>) -> bool {
    forall|i: int| 0 <= i < b.len() ==> #[trigger] b[i] < 128
}

/// Every character is an ASCII code point.
pub open spec fn ascii_chars(s: Seq<char>) -> bool {
    forall|i: int| 0 <= i < s.len() ==> #[trigger] s[i] <= '\u{7f}'
}

/// The characters of a byte sequence, read pointwise.
pub open spec fn chars_of_bytes(b: Seq<u8>) -> Seq<char> {
    Seq::new(b.len(), |i: int| b[i] as char)
}

/// The bytes of a character sequence, read pointwise.
pub open spec fn bytes_of_chars(s: Seq<char>) -> Seq<u8> {
    Seq::new(s.len(), |i: int| s[i] as u8)
}

/// Facts about one character's code point.  A `char` parameter carries its
/// type's validity, which an element read out of a `Seq<char>` does not;
/// calling this lemma on such an element recovers the cast arithmetic.
pub proof fn lemma_char_bounds(c: char)
    ensures
        '\0' <= c,
        c <= '\u{7f}' ==> (c as u8) < 128,
        c <= '\u{7f}' ==> ((c as u8) as char == c),
        (c as u32) < 128 ==> c <= '\u{7f}',
        c as u32 == c as int,
        c <= '\u{7f}' ==> c as u8 == c as int,
{
}

/// The counterpart for bytes: an ASCII byte casts to a character of the
/// same code point and back.
pub proof fn lemma_byte_char_bounds(b: u8)
    ensures
        b < 128 ==> ((b as char) as u8 == b && (b as char) <= '\u{7f}' && (b as char) as int
            == b),
{
}

/// The library's ASCII predicate agrees with the one of `vstd::utf8`.
pub proof fn lemma_ascii_chars_agree(s: Seq<char>)
    ensures
        ascii_chars(s) == vstd::utf8::is_ascii_chars(s),
{
    if ascii_chars(s) {
        assert forall|i: int| 0 <= i < s.len() implies '\0' <= #[trigger] s[i]
            <= '\u{7f}' by {
            lemma_char_bounds(s[i]);
        }
    }
}

/// For ASCII text the two pointwise conversions invert each other.
pub proof fn lemma_chars_bytes_inverse(s: Seq<char>)
    requires
        ascii_chars(s),
    ensures
        chars_of_bytes(bytes_of_chars(s)) =~= s,
{
    assert forall|i: int| 0 <= i < s.len() implies chars_of_bytes(bytes_of_chars(s))[i]
        == s[i] by {
        lemma_char_bounds(s[i]);
    }
}

/// ASCII characters map to ASCII bytes.
pub proof fn lemma_bytes_of_chars_ascii(s: Seq<char>)
    requires
        ascii_chars(s),
    ensures
        ascii_bytes(bytes_of_chars(s)),
        bytes_of_chars(s).len() == s.len(),
{
    assert forall|i: int| 0 <= i < bytes_of_chars(s).len() implies #[trigger] bytes_of_chars(
        s,
    )[i] < 128 by {
        lemma_char_bounds(s[i]);
    }
}

/// ASCII bytes map to ASCII characters, and back to the same bytes.
pub proof fn lemma_chars_of_bytes_ascii(b: Seq<u8>)
    requires
        ascii_bytes(b),
    ensures
        ascii_chars(chars_of_bytes(b)),
        chars_of_bytes(b).len() == b.len(),
        bytes_of_chars(chars_of_bytes(b)) =~= b,
{
    assert forall|i: int| 0 <= i < chars_of_bytes(b).len() implies #[trigger] chars_of_bytes(
        b,
    )[i] <= '\u{7f}' by {
        lemma_byte_char_bounds(b[i]);
    }
    assert forall|i: int| 0 <= i < b.len() implies bytes_of_chars(chars_of_bytes(b))[i]
        == b[i] by {
        lemma_byte_char_bounds(b[i]);
    }
}

/// Relies on `String::from_utf8`: ASCII bytes are valid UTF-8 and decode to
/// the string whose characters carry the same code points.
#[verifier::external_body]
pub fn ascii_bytes_to_string(b: Vec<u8>) -> (r: String)
    requires
        ascii_bytes(b@),
    ensures
        r@ =~= chars_of_bytes(b@),
{
    String::from_utf8(b).unwrap()
}

/// The bytes of an ASCII string, as a fresh vector.
pub fn string_to_ascii_bytes(s: &str) -> (r: Vec<u8>)
    requires
        ascii_chars(s@),
    ensures
        r@ =~= bytes_of_chars(s@),
{
    proof {
        broadcast use vstd::string::is_ascii_spec_bytes;

        lemma_ascii_chars_agree(s@);
        assert(vstd::string::is_ascii(s));
    }
    let r = s.as_bytes_vec();
    proof {
        assert forall|i: int| 0 <= i < r@.len() implies r@[i] == bytes_of_chars(s@)[i] by {
            lemma_char_bounds(s@[i]);
        }
        assert(r@ =~= bytes_of_chars(s@));
    }
    r
}

} // verus!
