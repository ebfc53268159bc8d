//! The transaction wire codec.
//!
//! A batch is published as one payload: a JSON array of transaction
//! objects, each `{"AddToQueue":{"url":"..."}}`.  For backward
//! compatibility a payload holding one bare transaction object is also
//! accepted and read as a one-element batch.  The encoder emits the
//! canonical form without whitespace; the parser tolerates whitespace
//! between tokens and the standard two-character string escapes for
//! quote, backslash and slash.  String content is restricted to ASCII.
//!
//! Encoding and parsing are defined by the spec functions below; the
//! executable encoder and parser are proved equal to them, and the
//! round-trip laws (`lemma_round_trip`, `lemma_legacy_round_trip`) are
//! proved of the spec functions themselves.

use vstd::prelude::*;

verus! {

use crate::ascii::ascii_bytes;
use crate::ascii::ascii_chars;
use crate::ascii::bytes_of_chars;
use crate::ascii::chars_of_bytes;
use crate::ascii::ascii_bytes_to_string;
use crate::ascii::string_to_ascii_bytes;
use crate::ascii::lemma_bytes_of_chars_ascii;
use crate::ascii::lemma_chars_bytes_inverse;
use crate::tx::Transaction;
use crate::tx::YoutubeLink;

/// `"`
pub const BYTE_QUOTE: u8 = 34;

/// `\`
pub const BYTE_BACKSLASH: u8 = 92;

/// `/`
pub const BYTE_SLASH: u8 = 47;

/// `[`
pub const BYTE_LBRACKET: u8 = 91;

/// `]`
pub const BYTE_RBRACKET: u8 = 93;

/// `{`
pub const BYTE_LBRACE: u8 = 123;

/// `}`
pub const BYTE_RBRACE: u8 = 125;

/// `,`
pub const BYTE_COMMA: u8 = 44;

/// `:`
pub const BYTE_COLON: u8 = 58;

/// JSON inter-token whitespace.
pub open spec fn is_ws(b: u8) -> bool {
    b == 32 || b == 9 || b == 10 || b == 13
}

/// The bytes of the key `AddToQueue`.
pub open spec fn key_add_to_queue() -> Seq<u8> {
    seq![65u8, 100u8, 100u8, 84u8, 111u8, 81u8, 117u8, 101u8, 117u8, 101u8]
}

/// The bytes of the key `url`.
pub open spec fn key_url() -> Seq<u8> {
    seq![117u8, 114u8, 108u8]
}

/// String content with quote and backslash escaped.
pub open spec fn spec_escape(s: Seq<u8>) -> Seq<u8>
    decreases s.len(),
{
    if s.len() == 0 {
        seq![]
    } else {
        let head: Seq<u8> = if s[0] == BYTE_QUOTE || s[0] == BYTE_BACKSLASH {
            seq![BYTE_BACKSLASH, s[0]]
        } else {
            seq![s[0]]
        };
        head + spec_escape(s.skip(1))
    }
}

/// The fixed bytes before the link in an encoded transaction:
/// `{"AddToQueue":{"url":"`.
pub open spec fn tx_prefix() -> Seq<u8> {
    seq![BYTE_LBRACE, BYTE_QUOTE] + key_add_to_queue() + seq![
        BYTE_QUOTE,
        BYTE_COLON,
        BYTE_LBRACE,
        BYTE_QUOTE,
    ] + key_url() + seq![BYTE_QUOTE, BYTE_COLON, BYTE_QUOTE]
}

/// The fixed bytes after the link: `"}}`.
pub open spec fn tx_suffix() -> Seq<u8> {
    seq![BYTE_QUOTE, BYTE_RBRACE, BYTE_RBRACE]
}

/// One encoded transaction around the link's bytes.
pub open spec fn spec_encode_tx(link: Seq<u8>) -> Seq<u8> {
    tx_prefix() + spec_escape(link) + tx_suffix()
}

/// Encoded transactions joined by commas.
pub open spec fn spec_encode_items(links: Seq<Seq<u8>>) -> Seq<u8>
    decreases links.len(),
{
    if links.len() == 0 {
        seq![]
    } else if links.len() == 1 {
        spec_encode_tx(links[0])
    } else {
        spec_encode_tx(links[0]) + seq![BYTE_COMMA] + spec_encode_items(links.skip(1))
    }
}

/// An encoded batch: the items in brackets.
pub open spec fn spec_encode_batch(links: Seq<Seq<u8>>) -> Seq<u8> {
    seq![BYTE_LBRACKET] + spec_encode_items(links) + seq![BYTE_RBRACKET]
}

/// The first position at or after `i` holding no whitespace.
pub open spec fn spec_skip_ws(s: Seq<u8>, i: int) -> int
    decreases s.len() - i,
{
    if 0 <= i < s.len() && is_ws(s[i]) {
        spec_skip_ws(s, i + 1)
    } else {
        i
    }
}

/// Skip whitespace, then demand one given byte; the position after it.
pub open spec fn spec_expect(s: Seq<u8>, i: int, b: u8) -> Option<int> {
    let j = spec_skip_ws(s, i);
    if j < s.len() && s[j] == b {
        Some(j + 1)
    } else {
        None
    }
}

/// String content and closing quote, starting right after the opening
/// quote: ASCII bytes taken raw, with `\"`, `\\` and `\/` read as their
/// second character; ends at an unescaped quote.  The unescaped content
/// and the position after the closing quote.
pub open spec fn spec_parse_str_body(s: Seq<u8>, i: int) -> Option<(Seq<u8>, int)>
    decreases s.len() - i,
{
    if i < 0 || i >= s.len() {
        None
    } else if s[i] == BYTE_QUOTE {
        Some((seq![], i + 1))
    } else if s[i] == BYTE_BACKSLASH {
        if i + 1 < s.len() && (s[i + 1] == BYTE_QUOTE || s[i + 1] == BYTE_BACKSLASH || s[i + 1]
            == BYTE_SLASH) {
            match spec_parse_str_body(s, i + 2) {
                Some((t, j)) => Some((seq![s[i + 1]] + t, j)),
                None => None,
            }
        } else {
            None
        }
    } else if s[i] < 128 {
        match spec_parse_str_body(s, i + 1) {
            Some((t, j)) => Some((seq![s[i]] + t, j)),
            None => None,
        }
    } else {
        None
    }
}

/// A whole JSON string: whitespace, opening quote, content, closing
/// quote.
pub open spec fn spec_parse_string(s: Seq<u8>, i: int) -> Option<(Seq<u8>, int)> {
    match spec_expect(s, i, BYTE_QUOTE) {
        Some(j) => spec_parse_str_body(s, j),
        None => None,
    }
}

/// One transaction object; the link's unescaped bytes and the position
/// after the closing brace.  The two keys must match exactly: an
/// unrecognized key is not coerced into the known case.
pub open spec fn spec_parse_tx(s: Seq<u8>, i: int) -> Option<(Seq<u8>, int)> {
    match spec_expect(s, i, BYTE_LBRACE) {
        None => None,
        Some(i1) => match spec_parse_string(s, i1) {
            None => None,
            Some((k1, i2)) => if k1 != key_add_to_queue() {
                None
            } else {
                match spec_expect(s, i2, BYTE_COLON) {
                    None => None,
                    Some(i3) => match spec_expect(s, i3, BYTE_LBRACE) {
                        None => None,
                        Some(i4) => match spec_parse_string(s, i4) {
                            None => None,
                            Some((k2, i5)) => if k2 != key_url() {
                                None
                            } else {
                                match spec_expect(s, i5, BYTE_COLON) {
                                    None => None,
                                    Some(i6) => match spec_parse_string(s, i6) {
                                        None => None,
                                        Some((link, i7)) => match spec_expect(
                                            s,
                                            i7,
                                            BYTE_RBRACE,
                                        ) {
                                            None => None,
                                            Some(i8) => match spec_expect(s, i8, BYTE_RBRACE) {
                                                None => None,
                                                Some(i9) => Some((link, i9)),
                                            },
                                        },
                                    },
                                }
                            },
                        },
                    },
                }
            },
        },
    }
}

/// One or more comma-separated transactions.
pub open spec fn spec_parse_items(s: Seq<u8>, i: int) -> Option<(Seq<Seq<u8>>, int)>
    decreases s.len() - i,
{
    match spec_parse_tx(s, i) {
        None => None,
        Some((l, j)) => match spec_expect(s, j, BYTE_COMMA) {
            None => Some((seq![l], j)),
            Some(jc) => if i < jc <= s.len() {
                match spec_parse_items(s, jc) {
                    None => None,
                    Some((ls, k)) => Some((seq![l] + ls, k)),
                }
            } else {
                None
            },
        },
    }
}

/// A whole payload as a batch: a bracketed, possibly empty list of
/// transactions and nothing but whitespace after it.
pub open spec fn spec_parse_batch(s: Seq<u8>) -> Option<Seq<Seq<u8>>> {
    match spec_expect(s, 0, BYTE_LBRACKET) {
        None => None,
        Some(i1) => match spec_expect(s, i1, BYTE_RBRACKET) {
            Some(i2) => if spec_skip_ws(s, i2) == s.len() {
                Some(seq![])
            } else {
                None
            },
            None => match spec_parse_items(s, i1) {
                None => None,
                Some((ls, j)) => match spec_expect(s, j, BYTE_RBRACKET) {
                    None => None,
                    Some(k) => if spec_skip_ws(s, k) == s.len() {
                        Some(ls)
                    } else {
                        None
                    },
                },
            },
        },
    }
}

/// What a payload decodes to: a batch when it parses as one, otherwise a
/// single legacy transaction wrapped as a one-element batch, otherwise
/// nothing (malformed).
pub open spec fn spec_decode(s: Seq<u8>) -> Option<Seq<Seq<u8>>> {
    match spec_parse_batch(s) {
        Some(ls) => Some(ls),
        None => match spec_parse_tx(s, 0) {
            Some((l, j)) => if spec_skip_ws(s, j) == s.len() {
                Some(seq![l])
            } else {
                None
            },
            None => None,
        },
    }
}

/// Skipping whitespace stays inside the input.
pub proof fn lemma_skip_ws_bounds(s: Seq<u8>, i: int)
    requires
        0 <= i <= s.len(),
    ensures
        i <= spec_skip_ws(s, i) <= s.len(),
    decreases s.len() - i,
{
    if i < s.len() && is_ws(s[i]) {
        lemma_skip_ws_bounds(s, i + 1);
    }
}

/// A parsed string body moves forward, stays inside the input, and
/// yields ASCII content.
pub proof fn lemma_str_body_bounds(s: Seq<u8>, i: int)
    requires
        0 <= i,
    ensures
        match spec_parse_str_body(s, i) {
            Some((t, j)) => i < j <= s.len() && ascii_bytes(t),
            None => true,
        },
    decreases s.len() - i,
{
    if 0 <= i < s.len() {
        if s[i] == BYTE_QUOTE {
        } else if s[i] == BYTE_BACKSLASH {
            if i + 1 < s.len() && (s[i + 1] == BYTE_QUOTE || s[i + 1] == BYTE_BACKSLASH || s[i + 1]
                == BYTE_SLASH) {
                lemma_str_body_bounds(s, i + 2);
            }
        } else if s[i] < 128 {
            lemma_str_body_bounds(s, i + 1);
        }
    }
}

/// A parsed transaction moves forward, stays inside the input, and
/// yields an ASCII link.
pub proof fn lemma_parse_tx_bounds(s: Seq<u8>, i: int)
    requires
        0 <= i,
    ensures
        match spec_parse_tx(s, i) {
            Some((l, j)) => i < j <= s.len() && ascii_bytes(l),
            None => true,
        },
{
    if i <= s.len() {
        lemma_skip_ws_bounds(s, i);
        if let Some(i1) = spec_expect(s, i, BYTE_LBRACE) {
            lemma_skip_ws_bounds(s, i1);
            if let Some((k1, i2)) = spec_parse_string(s, i1) {
                lemma_str_body_bounds(s, spec_skip_ws(s, i1) + 1);
                lemma_skip_ws_bounds(s, i2);
                if let Some(i3) = spec_expect(s, i2, BYTE_COLON) {
                    lemma_skip_ws_bounds(s, i3);
                    if let Some(i4) = spec_expect(s, i3, BYTE_LBRACE) {
                        lemma_skip_ws_bounds(s, i4);
                        if let Some((k2, i5)) = spec_parse_string(s, i4) {
                            lemma_str_body_bounds(s, spec_skip_ws(s, i4) + 1);
                            lemma_skip_ws_bounds(s, i5);
                            if let Some(i6) = spec_expect(s, i5, BYTE_COLON) {
                                lemma_skip_ws_bounds(s, i6);
                                if let Some((link, i7)) = spec_parse_string(s, i6) {
                                    lemma_str_body_bounds(s, spec_skip_ws(s, i6) + 1);
                                    lemma_skip_ws_bounds(s, i7);
                                    if let Some(i8) = spec_expect(s, i7, BYTE_RBRACE) {
                                        lemma_skip_ws_bounds(s, i8);
                                    }
                                }
                            }
                        }
                    }
                }
            }
        }
    }
}

/// Parsed items move forward, stay inside the input, and yield ASCII
/// links.
pub proof fn lemma_parse_items_bounds(s: Seq<u8>, i: int)
    requires
        0 <= i,
    ensures
        match spec_parse_items(s, i) {
            Some((ls, j)) => i < j <= s.len() && forall|k: int|
                0 <= k < ls.len() ==> ascii_bytes(#[trigger] ls[k]),
            None => true,
        },
    decreases s.len() - i,
{
    lemma_parse_tx_bounds(s, i);
    if let Some((l, j)) = spec_parse_tx(s, i) {
        lemma_skip_ws_bounds(s, j);
        if let Some(jc) = spec_expect(s, j, BYTE_COMMA) {
            if i < jc <= s.len() {
                lemma_parse_items_bounds(s, jc);
            }
        }
    }
}

/// Escaping text without quotes and backslashes changes nothing.
proof fn lemma_escape_plain(s: Seq<u8>)
    requires
        forall|k: int|
            0 <= k < s.len() ==> #[trigger] s[k] != BYTE_QUOTE && s[k] != BYTE_BACKSLASH,
    ensures
        spec_escape(s) == s,
    decreases s.len(),
{
    if s.len() > 0 {
        let rest = s.skip(1);
        assert forall|k: int|
            0 <= k < rest.len() implies #[trigger] rest[k] != BYTE_QUOTE && rest[k]
            != BYTE_BACKSLASH by {
            assert(rest[k] == s[k + 1]);
        }
        lemma_escape_plain(rest);
        assert(seq![s[0]] + rest =~= s);
    }
}

/// Escaped ASCII text is ASCII and at most twice as long.
proof fn lemma_escape_ascii(s: Seq<u8>)
    requires
        ascii_bytes(s),
    ensures
        ascii_bytes(spec_escape(s)),
        s.len() <= spec_escape(s).len() <= 2 * s.len(),
    decreases s.len(),
{
    if s.len() > 0 {
        let rest = s.skip(1);
        assert forall|k: int| 0 <= k < rest.len() implies #[trigger] rest[k] < 128 by {
            assert(rest[k] == s[k + 1]);
        }
        lemma_escape_ascii(rest);
        assert(BYTE_BACKSLASH < 128);
        assert(s[0] < 128);
    }
}

/// Concrete facts about the two key byte strings.
proof fn lemma_key_facts()
    ensures
        key_add_to_queue().len() == 10,
        key_url().len() == 3,
        ascii_bytes(key_add_to_queue()),
        ascii_bytes(key_url()),
        spec_escape(key_add_to_queue()) == key_add_to_queue(),
        spec_escape(key_url()) == key_url(),
{
    let ka = key_add_to_queue();
    let ku = key_url();
    assert(ka[0] == 65 && ka[1] == 100 && ka[2] == 100 && ka[3] == 84 && ka[4] == 111 && ka[5]
        == 81 && ka[6] == 117 && ka[7] == 101 && ka[8] == 117 && ka[9] == 101);
    assert(ku[0] == 117 && ku[1] == 114 && ku[2] == 108);
    assert forall|k: int|
        0 <= k < ka.len() implies #[trigger] ka[k] != BYTE_QUOTE && ka[k] != BYTE_BACKSLASH && ka[k]
        < 128 by {
        assert(0 <= k < 10);
    }
    assert forall|k: int|
        0 <= k < ku.len() implies #[trigger] ku[k] != BYTE_QUOTE && ku[k] != BYTE_BACKSLASH && ku[k]
        < 128 by {
        assert(0 <= k < 3);
    }
    lemma_escape_plain(ka);
    lemma_escape_plain(ku);
}

/// Parsing a string body right after the opening quote recovers exactly
/// the text whose escaped form sits there, up to the closing quote.
proof fn lemma_str_body_inverts(s: Seq<u8>, i: int, link: Seq<u8>)
    requires
        ascii_bytes(link),
        0 <= i,
        i + spec_escape(link).len() + 1 <= s.len(),
        s.subrange(i, i + spec_escape(link).len()) == spec_escape(link),
        s[i + spec_escape(link).len()] == BYTE_QUOTE,
    ensures
        spec_parse_str_body(s, i) == Some((link, i + spec_escape(link).len() + 1)),
    decreases link.len(),
{
    let esc = spec_escape(link);
    assert forall|d: int| i <= d < i + esc.len() implies #[trigger] s[d] == esc[d - i] by {
        assert(s.subrange(i, i + esc.len())[d - i] == s[d]);
    }
    if link.len() == 0 {
        assert(s[i] == BYTE_QUOTE);
        assert(Seq::<u8>::empty() =~= link);
    } else {
        let c = link[0];
        let rest = link.skip(1);
        let esc_r = spec_escape(rest);
        assert forall|k: int| 0 <= k < rest.len() implies #[trigger] rest[k] < 128 by {
            assert(rest[k] == link[k + 1]);
        }
        if c == BYTE_QUOTE || c == BYTE_BACKSLASH {
            let head: Seq<u8> = seq![BYTE_BACKSLASH, c];
            assert(esc == head + esc_r);
            assert((head + esc_r)[0] == BYTE_BACKSLASH);
            assert((head + esc_r)[1] == c);
            assert(s[i] == BYTE_BACKSLASH);
            assert(s[i + 1] == c);
            assert(s.subrange(i + 2, i + 2 + esc_r.len()) =~= esc_r) by {
                assert forall|k: int|
                    0 <= k < esc_r.len() implies s.subrange(i + 2, i + 2 + esc_r.len())[k]
                    == esc_r[k] by {
                    assert(s.subrange(i + 2, i + 2 + esc_r.len())[k] == s[i + 2 + k]);
                    assert((head + esc_r)[2 + k] == esc_r[k]);
                }
            }
            lemma_str_body_inverts(s, i + 2, rest);
            assert(seq![s[i + 1]] + rest =~= link);
        } else {
            assert(c < 128);
            let head: Seq<u8> = seq![c];
            assert(esc == head + esc_r);
            assert((head + esc_r)[0] == c);
            assert(s[i] == c);
            assert(s.subrange(i + 1, i + 1 + esc_r.len()) =~= esc_r) by {
                assert forall|k: int|
                    0 <= k < esc_r.len() implies s.subrange(i + 1, i + 1 + esc_r.len())[k]
                    == esc_r[k] by {
                    assert(s.subrange(i + 1, i + 1 + esc_r.len())[k] == s[i + 1 + k]);
                    assert((head + esc_r)[1 + k] == esc_r[k]);
                }
            }
            lemma_str_body_inverts(s, i + 1, rest);
            assert(seq![s[i]] + rest =~= link);
        }
    }
}

/// Parsing at the canonical encoding of one transaction recovers its
/// link and stops right after it.
proof fn lemma_parse_tx_inverts(s: Seq<u8>, i: int, link: Seq<u8>)
    requires
        ascii_bytes(link),
        0 <= i,
        i + spec_encode_tx(link).len() <= s.len(),
        s.subrange(i, i + spec_encode_tx(link).len()) == spec_encode_tx(link),
    ensures
        spec_parse_tx(s, i) == Some((link, i + spec_encode_tx(link).len())),
{
    lemma_key_facts();
    lemma_escape_ascii(link);
    let enc = spec_encode_tx(link);
    let esc = spec_escape(link);
    let m = esc.len() as int;
    assert(enc.len() == 25 + m);
    assert forall|d: int| i <= d < i + enc.len() implies #[trigger] s[d] == enc[d - i] by {
        assert(s.subrange(i, i + enc.len())[d - i] == s[d]);
    }
    assert(tx_prefix().len() == 22);
    assert forall|k: int| 0 <= k < 22 implies enc[k] == tx_prefix()[k] by {}
    assert forall|k: int| 0 <= k < m implies enc[22 + k] == esc[k] by {}
    assert(enc[22 + m] == BYTE_QUOTE && enc[23 + m] == BYTE_RBRACE && enc[24 + m]
        == BYTE_RBRACE);
    assert(tx_prefix()[0] == BYTE_LBRACE && tx_prefix()[1] == BYTE_QUOTE);
    assert forall|k: int| 0 <= k < 10 implies tx_prefix()[2 + k] == key_add_to_queue()[k] by {}
    assert(tx_prefix()[12] == BYTE_QUOTE && tx_prefix()[13] == BYTE_COLON && tx_prefix()[14]
        == BYTE_LBRACE && tx_prefix()[15] == BYTE_QUOTE);
    assert forall|k: int| 0 <= k < 3 implies tx_prefix()[16 + k] == key_url()[k] by {}
    assert(tx_prefix()[19] == BYTE_QUOTE && tx_prefix()[20] == BYTE_COLON && tx_prefix()[21]
        == BYTE_QUOTE);
    // step 1: `{`
    assert(s[i] == BYTE_LBRACE && !is_ws(s[i]));
    assert(spec_expect(s, i, BYTE_LBRACE) == Some(i + 1));
    // step 2: the AddToQueue key
    assert(s[i + 1] == BYTE_QUOTE && !is_ws(s[i + 1]));
    assert(s.subrange(i + 2, i + 12) =~= key_add_to_queue()) by {
        assert forall|k: int| 0 <= k < 10 implies s.subrange(i + 2, i + 12)[k]
            == key_add_to_queue()[k] by {
            assert(s[i + 2 + k] == enc[2 + k]);
        }
    }
    assert(s[i + 12] == BYTE_QUOTE);
    lemma_str_body_inverts(s, i + 2, key_add_to_queue());
    assert(spec_parse_string(s, i + 1) == Some((key_add_to_queue(), i + 13)));
    // step 3: `:` and `{`
    assert(s[i + 13] == BYTE_COLON && !is_ws(s[i + 13]));
    assert(spec_expect(s, i + 13, BYTE_COLON) == Some(i + 14));
    assert(s[i + 14] == BYTE_LBRACE && !is_ws(s[i + 14]));
    assert(spec_expect(s, i + 14, BYTE_LBRACE) == Some(i + 15));
    // step 4: the url key
    assert(s[i + 15] == BYTE_QUOTE && !is_ws(s[i + 15]));
    assert(s.subrange(i + 16, i + 19) =~= key_url()) by {
        assert forall|k: int| 0 <= k < 3 implies s.subrange(i + 16, i + 19)[k]
            == key_url()[k] by {
            assert(s[i + 16 + k] == enc[16 + k]);
        }
    }
    assert(s[i + 19] == BYTE_QUOTE);
    lemma_str_body_inverts(s, i + 16, key_url());
    assert(spec_parse_string(s, i + 15) == Some((key_url(), i + 20)));
    // step 5: `:` and the link string
    assert(s[i + 20] == BYTE_COLON && !is_ws(s[i + 20]));
    assert(spec_expect(s, i + 20, BYTE_COLON) == Some(i + 21));
    assert(s[i + 21] == BYTE_QUOTE && !is_ws(s[i + 21]));
    assert(s.subrange(i + 22, i + 22 + m) =~= esc) by {
        assert forall|k: int| 0 <= k < m implies s.subrange(i + 22, i + 22 + m)[k] == esc[k] by {
            assert(s.subrange(i + 22, i + 22 + m)[k] == s[i + 22 + k]);
            assert(enc[22 + k] == esc[k]);
        }
    }
    assert(s[i + 22 + m] == BYTE_QUOTE);
    lemma_str_body_inverts(s, i + 22, link);
    assert(spec_parse_string(s, i + 21) == Some((link, i + 23 + m)));
    // step 6: the two closing braces
    assert(s[i + 23 + m] == BYTE_RBRACE && !is_ws(s[i + 23 + m]));
    assert(spec_expect(s, i + 23 + m, BYTE_RBRACE) == Some(i + 24 + m));
    assert(s[i + 24 + m] == BYTE_RBRACE && !is_ws(s[i + 24 + m]));
    assert(spec_expect(s, i + 24 + m, BYTE_RBRACE) == Some(i + 25 + m));
}

/// Parsing at the canonical encoding of one or more comma-separated
/// transactions recovers all their links, when the byte after them is
/// the closing bracket.
proof fn lemma_parse_items_inverts(s: Seq<u8>, i: int, links: Seq<Seq<u8>>)
    requires
        links.len() >= 1,
        forall|k: int| 0 <= k < links.len() ==> ascii_bytes(#[trigger] links[k]),
        0 <= i,
        i + spec_encode_items(links).len() < s.len(),
        s.subrange(i, i + spec_encode_items(links).len()) == spec_encode_items(links),
        s[i + spec_encode_items(links).len()] == BYTE_RBRACKET,
    ensures
        spec_parse_items(s, i) == Some((links, i + spec_encode_items(links).len())),
    decreases links.len(),
{
    let e = spec_encode_items(links);
    let t0 = spec_encode_tx(links[0]);
    assert forall|d: int| i <= d < i + e.len() implies #[trigger] s[d] == e[d - i] by {
        assert(s.subrange(i, i + e.len())[d - i] == s[d]);
    }
    if links.len() == 1 {
        assert(e == t0);
        lemma_parse_tx_inverts(s, i, links[0]);
        let j = i + e.len();
        assert(s[j] == BYTE_RBRACKET && !is_ws(s[j]));
        assert(spec_expect(s, j, BYTE_COMMA) is None);
        assert(seq![links[0]] =~= links);
    } else {
        let rest = links.skip(1);
        let er = spec_encode_items(rest);
        assert(e == t0 + seq![BYTE_COMMA] + er);
        assert(s.subrange(i, i + t0.len()) =~= t0) by {
            assert forall|k: int| 0 <= k < t0.len() implies s.subrange(i, i + t0.len())[k]
                == t0[k] by {
                assert(s.subrange(i, i + t0.len())[k] == s[i + k]);
                assert(((t0 + seq![BYTE_COMMA]) + er)[k] == t0[k]);
            }
        }
        lemma_parse_tx_inverts(s, i, links[0]);
        let j = i + t0.len();
        assert(((t0 + seq![BYTE_COMMA]) + er)[t0.len() as int] == BYTE_COMMA);
        assert(s[j] == e[j - i] && e[t0.len() as int] == BYTE_COMMA);
        assert(s[j] == BYTE_COMMA && !is_ws(s[j]));
        assert(spec_expect(s, j, BYTE_COMMA) == Some(j + 1));
        let jc = j + 1;
        assert forall|k: int|
            0 <= k < rest.len() implies ascii_bytes(#[trigger] rest[k]) by {
            assert(rest[k] == links[k + 1]);
        }
        assert(s.subrange(jc, jc + er.len()) =~= er) by {
            assert forall|k: int| 0 <= k < er.len() implies s.subrange(jc, jc + er.len())[k]
                == er[k] by {
                assert(s.subrange(jc, jc + er.len())[k] == s[jc + k]);
                assert(((t0 + seq![BYTE_COMMA]) + er)[t0.len() + 1 + k] == er[k]);
                assert(s[jc + k] == e[jc + k - i]);
            }
        }
        assert(s[jc + er.len()] == BYTE_RBRACKET);
        lemma_parse_items_inverts(s, jc, rest);
        assert(seq![links[0]] + rest =~= links);
        assert(jc + er.len() == i + e.len());
    }
}

/// Parsing the canonical encoding of a batch recovers exactly its links.
pub proof fn lemma_parse_batch_inverts(links: Seq<Seq<u8>>)
    requires
        forall|k: int| 0 <= k < links.len() ==> ascii_bytes(#[trigger] links[k]),
    ensures
        spec_parse_batch(spec_encode_batch(links)) == Some(links),
{
    let s = spec_encode_batch(links);
    let e = spec_encode_items(links);
    assert(s.len() == e.len() + 2);
    assert(s[0] == BYTE_LBRACKET && !is_ws(s[0]));
    assert(spec_expect(s, 0, BYTE_LBRACKET) == Some(1int));
    if links.len() == 0 {
        assert(s[1] == BYTE_RBRACKET && !is_ws(s[1]));
        assert(spec_expect(s, 1, BYTE_RBRACKET) == Some(2int));
        assert(spec_skip_ws(s, 2) == 2 == s.len());
        assert(Seq::<Seq<u8>>::empty() =~= links);
    } else {
        lemma_key_facts();
        assert(e[0] == spec_encode_tx(links[0])[0]);
        assert(spec_encode_tx(links[0])[0] == tx_prefix()[0] == BYTE_LBRACE);
        assert(s[1] == e[0] == BYTE_LBRACE && !is_ws(s[1]));
        assert(spec_expect(s, 1, BYTE_RBRACKET) is None);
        assert(s.subrange(1, 1 + e.len() as int) =~= e) by {
            assert forall|k: int| 0 <= k < e.len() implies s.subrange(1, 1 + e.len() as int)[k]
                == e[k] by {
                assert(s[1 + k] == (seq![BYTE_LBRACKET] + e + seq![BYTE_RBRACKET])[1 + k]);
            }
        }
        assert(s[1 + e.len() as int] == BYTE_RBRACKET);
        lemma_parse_items_inverts(s, 1, links);
        assert(!is_ws(s[1 + e.len() as int]));
        assert(spec_expect(s, 1 + e.len() as int, BYTE_RBRACKET) == Some(s.len() as int));
        assert(spec_skip_ws(s, s.len() as int) == s.len());
    }
}

/// Round trip at the byte level: decoding a canonical batch encoding
/// yields exactly the encoded links.
pub proof fn lemma_decode_encode_bytes(links: Seq<Seq<u8>>)
    requires
        forall|k: int| 0 <= k < links.len() ==> ascii_bytes(#[trigger] links[k]),
    ensures
        spec_decode(spec_encode_batch(links)) == Some(links),
{
    lemma_parse_batch_inverts(links);
}

/// Legacy round trip at the byte level: a payload holding one bare
/// transaction decodes to the one-element batch with its link.
#[verifier::rlimit(50)]
pub proof fn lemma_decode_single_bytes(link: Seq<u8>)
    requires
        ascii_bytes(link),
    ensures
        spec_decode(spec_encode_tx(link)) == Some(seq![link]),
{
    lemma_key_facts();
    let s = spec_encode_tx(link);
    assert(s[0] == tx_prefix()[0] == BYTE_LBRACE);
    assert(!is_ws(s[0]) && s[0] != BYTE_LBRACKET);
    assert(spec_expect(s, 0, BYTE_LBRACKET) is None);
    assert(spec_parse_batch(s) is None);
    assert(s.subrange(0, s.len() as int) =~= s);
    lemma_parse_tx_inverts(s, 0, link);
    assert(spec_skip_ws(s, s.len() as int) == s.len());
}

/// Every decoded link is ASCII.
pub proof fn lemma_decode_ascii(s: Seq<u8>)
    ensures
        match spec_decode(s) {
            Some(ls) => forall|k: int| 0 <= k < ls.len() ==> ascii_bytes(#[trigger] ls[k]),
            None => true,
        },
{
    if spec_parse_batch(s) is Some {
        if let Some(i1) = spec_expect(s, 0, BYTE_LBRACKET) {
            lemma_skip_ws_bounds(s, 0);
            if spec_expect(s, i1, BYTE_RBRACKET) is None {
                lemma_parse_items_bounds(s, i1);
            }
        }
    } else {
        lemma_parse_tx_bounds(s, 0);
    }
}


/// The link character sequences of a batch, as byte sequences.
pub open spec fn links_bytes(links: Seq<Seq<char>>) -> Seq<Seq<u8>> {
    links.map_values(|l: Seq<char>| bytes_of_chars(l))
}

/// Decoded byte links read back as character sequences.
pub open spec fn links_chars(ls: Seq<Seq<u8>>) -> Seq<Seq<char>> {
    ls.map_values(|l: Seq<u8>| chars_of_bytes(l))
}

/// What a payload decodes to, at the character level.
pub open spec fn spec_decode_links(s: Seq<u8>) -> Option<Seq<Seq<char>>> {
    match spec_decode(s) {
        Some(ls) => Some(links_chars(ls)),
        None => None,
    }
}

/// Round trip: decoding the encoding of any batch of ASCII links yields
/// exactly that batch.
pub proof fn lemma_round_trip(links: Seq<Seq<char>>)
    requires
        forall|k: int| 0 <= k < links.len() ==> ascii_chars(#[trigger] links[k]),
    ensures
        spec_decode_links(spec_encode_batch(links_bytes(links))) == Some(links),
{
    let bs = links_bytes(links);
    assert forall|k: int| 0 <= k < bs.len() implies ascii_bytes(#[trigger] bs[k]) by {
        lemma_bytes_of_chars_ascii(links[k]);
    }
    lemma_decode_encode_bytes(bs);
    assert forall|k: int| 0 <= k < links.len() implies links_chars(bs)[k] == links[k] by {
        lemma_chars_bytes_inverse(links[k]);
    }
    assert(links_chars(bs) =~= links);
}

/// Legacy compatibility: decoding the encoding of one bare transaction
/// yields the one-element batch holding it.
pub proof fn lemma_legacy_round_trip(link: Seq<char>)
    requires
        ascii_chars(link),
    ensures
        spec_decode_links(spec_encode_tx(bytes_of_chars(link))) == Some(seq![link]),
{
    lemma_bytes_of_chars_ascii(link);
    lemma_decode_single_bytes(bytes_of_chars(link));
    lemma_chars_bytes_inverse(link);
    assert(links_chars(seq![bytes_of_chars(link)]) =~= seq![link]);
}

/// An ordered batch of transactions, published as one payload.
pub struct Batch(pub Vec<Transaction>);

impl View for Batch {
    type V = Seq<Seq<char>>;

    open spec fn view(&self) -> Seq<Seq<char>> {
        self.0@.map_values(|t: Transaction| t@)
    }
}

/// Why a payload was rejected.
#[derive(Clone, Copy, Debug, PartialEq, Eq, Structural)]
pub enum DecodeError {
    /// The payload parses neither as a batch nor as a bare transaction.
    Malformed,
}

/// One whitespace byte.
fn ws_b(b: u8) -> (r: bool)
    ensures
        r == is_ws(b),
{
    b == 32 || b == 9 || b == 10 || b == 13
}

/// Skip whitespace bytes.
fn skip_ws(s: &Vec<u8>, i: usize) -> (r: usize)
    requires
        i <= s@.len(),
    ensures
        r as int == spec_skip_ws(s@, i as int),
        i <= r <= s@.len(),
    decreases s@.len() - i,
{
    if i < s.len() && ws_b(s[i]) {
        skip_ws(s, i + 1)
    } else {
        i
    }
}

/// Skip whitespace, then demand one given byte.
fn expect_b(s: &Vec<u8>, i: usize, b: u8) -> (r: Option<usize>)
    requires
        i <= s@.len(),
    ensures
        match r {
            Some(j) => spec_expect(s@, i as int, b) == Some(j as int) && i < j <= s@.len(),
            None => spec_expect(s@, i as int, b) is None,
        },
{
    let j = skip_ws(s, i);
    if j < s.len() && s[j] == b {
        Some(j + 1)
    } else {
        None
    }
}

/// Parse string content after the opening quote.
fn parse_str_body(s: &Vec<u8>, i: usize) -> (r: Option<(Vec<u8>, usize)>)
    requires
        i <= s@.len(),
    ensures
        match r {
            Some(t) => spec_parse_str_body(s@, i as int) == Some((t.0@, t.1 as int)) && i < t.1
                <= s@.len(),
            None => spec_parse_str_body(s@, i as int) is None,
        },
    decreases s@.len() - i,
{
    if i >= s.len() {
        return None;
    }
    let b = s[i];
    if b == BYTE_QUOTE {
        let v: Vec<u8> = Vec::new();
        proof {
            assert(v@ =~= Seq::<u8>::empty());
        }
        Some((v, i + 1))
    } else if b == BYTE_BACKSLASH {
        if i + 1 < s.len() && (s[i + 1] == BYTE_QUOTE || s[i + 1] == BYTE_BACKSLASH || s[i + 1]
            == BYTE_SLASH) {
            let c = s[i + 1];
            match parse_str_body(s, i + 2) {
                Some((mut t, j)) => {
                    let ghost t0 = t@;
                    let mut out: Vec<u8> = Vec::new();
                    out.push(c);
                    out.append(&mut t);
                    proof {
                        assert(out@ =~= seq![s@[i + 1]] + t0);
                    }
                    Some((out, j))
                },
                None => None,
            }
        } else {
            None
        }
    } else if b < 128 {
        match parse_str_body(s, i + 1) {
            Some((mut t, j)) => {
                let ghost t0 = t@;
                let mut out: Vec<u8> = Vec::new();
                out.push(b);
                out.append(&mut t);
                proof {
                    assert(out@ =~= seq![s@[i as int]] + t0);
                }
                Some((out, j))
            },
            None => None,
        }
    } else {
        None
    }
}

/// Parse one whole JSON string.
fn parse_string(s: &Vec<u8>, i: usize) -> (r: Option<(Vec<u8>, usize)>)
    requires
        i <= s@.len(),
    ensures
        match r {
            Some(t) => spec_parse_string(s@, i as int) == Some((t.0@, t.1 as int)) && i < t.1
                <= s@.len(),
            None => spec_parse_string(s@, i as int) is None,
        },
{
    match expect_b(s, i, BYTE_QUOTE) {
        Some(j) => parse_str_body(s, j),
        None => None,
    }
}

/// Whether the bytes are the `AddToQueue` key.
fn is_key_add_to_queue(v: &Vec<u8>) -> (r: bool)
    ensures
        r == (v@ == key_add_to_queue()),
{
    let r = v.len() == 10 && v[0] == 65 && v[1] == 100 && v[2] == 100 && v[3] == 84 && v[4] == 111
        && v[5] == 81 && v[6] == 117 && v[7] == 101 && v[8] == 117 && v[9] == 101;
    proof {
        if r {
            assert(v@ =~= key_add_to_queue());
        } else {
            if v@ =~= key_add_to_queue() {
                assert(v@[0] == 65 && v@[1] == 100 && v@[2] == 100 && v@[3] == 84 && v@[4] == 111
                    && v@[5] == 81 && v@[6] == 117 && v@[7] == 101 && v@[8] == 117 && v@[9]
                    == 101);
            }
        }
    }
    r
}

/// Whether the bytes are the `url` key.
fn is_key_url(v: &Vec<u8>) -> (r: bool)
    ensures
        r == (v@ == key_url()),
{
    let r = v.len() == 3 && v[0] == 117 && v[1] == 114 && v[2] == 108;
    proof {
        if r {
            assert(v@ =~= key_url());
        } else {
            if v@ =~= key_url() {
                assert(v@[0] == 117 && v@[1] == 114 && v@[2] == 108);
            }
        }
    }
    r
}

/// Parse one transaction object; the link's unescaped bytes.
fn parse_tx(s: &Vec<u8>, i: usize) -> (r: Option<(Vec<u8>, usize)>)
    requires
        i <= s@.len(),
    ensures
        match r {
            Some(t) => spec_parse_tx(s@, i as int) == Some((t.0@, t.1 as int)) && i < t.1
                <= s@.len(),
            None => spec_parse_tx(s@, i as int) is None,
        },
{
    let i1 = match expect_b(s, i, BYTE_LBRACE) {
        Some(j) => j,
        None => {
            return None;
        },
    };
    let (k1, i2) = match parse_string(s, i1) {
        Some(t) => t,
        None => {
            return None;
        },
    };
    if !is_key_add_to_queue(&k1) {
        return None;
    }
    let i3 = match expect_b(s, i2, BYTE_COLON) {
        Some(j) => j,
        None => {
            return None;
        },
    };
    let i4 = match expect_b(s, i3, BYTE_LBRACE) {
        Some(j) => j,
        None => {
            return None;
        },
    };
    let (k2, i5) = match parse_string(s, i4) {
        Some(t) => t,
        None => {
            return None;
        },
    };
    if !is_key_url(&k2) {
        return None;
    }
    let i6 = match expect_b(s, i5, BYTE_COLON) {
        Some(j) => j,
        None => {
            return None;
        },
    };
    let (link, i7) = match parse_string(s, i6) {
        Some(t) => t,
        None => {
            return None;
        },
    };
    let i8 = match expect_b(s, i7, BYTE_RBRACE) {
        Some(j) => j,
        None => {
            return None;
        },
    };
    let i9 = match expect_b(s, i8, BYTE_RBRACE) {
        Some(j) => j,
        None => {
            return None;
        },
    };
    Some((link, i9))
}

/// The views of a vector of byte vectors.
pub open spec fn vecs_view(ls: Seq<Vec<u8>>) -> Seq<Seq<u8>> {
    ls.map_values(|v: Vec<u8>| v@)
}

/// Parse one or more comma-separated transactions.
fn parse_items(s: &Vec<u8>, i: usize) -> (r: Option<(Vec<Vec<u8>>, usize)>)
    requires
        i <= s@.len(),
    ensures
        match r {
            Some(t) => spec_parse_items(s@, i as int) == Some((vecs_view(t.0@), t.1 as int)) && i
                < t.1 <= s@.len(),
            None => spec_parse_items(s@, i as int) is None,
        },
    decreases s@.len() - i,
{
    let (l, j) = match parse_tx(s, i) {
        Some(t) => t,
        None => {
            return None;
        },
    };
    match expect_b(s, j, BYTE_COMMA) {
        None => {
            let ghost l0 = l@;
            let mut ls: Vec<Vec<u8>> = Vec::new();
            ls.push(l);
            proof {
                assert(vecs_view(ls@) =~= seq![l0]);
            }
            Some((ls, j))
        },
        Some(jc) => {
            match parse_items(s, jc) {
                None => None,
                Some((mut ls, k)) => {
                    let ghost tail = vecs_view(ls@);
                    let ghost l0 = l@;
                    ls.insert(0, l);
                    proof {
                        assert(vecs_view(ls@) =~= seq![l0] + tail);
                    }
                    Some((ls, k))
                },
            }
        },
    }
}

/// Parse a whole payload as a batch of link byte strings.
fn parse_batch(s: &Vec<u8>) -> (r: Option<Vec<Vec<u8>>>)
    ensures
        match r {
            Some(ls) => spec_parse_batch(s@) == Some(vecs_view(ls@)),
            None => spec_parse_batch(s@) is None,
        },
{
    let i1 = match expect_b(s, 0, BYTE_LBRACKET) {
        Some(j) => j,
        None => {
            return None;
        },
    };
    match expect_b(s, i1, BYTE_RBRACKET) {
        Some(i2) => {
            let e = skip_ws(s, i2);
            if e == s.len() {
                let ls: Vec<Vec<u8>> = Vec::new();
                proof {
                    assert(vecs_view(ls@) =~= Seq::<Seq<u8>>::empty());
                }
                Some(ls)
            } else {
                None
            }
        },
        None => {
            let (ls, j) = match parse_items(s, i1) {
                Some(t) => t,
                None => {
                    return None;
                },
            };
            let k = match expect_b(s, j, BYTE_RBRACKET) {
                Some(k) => k,
                None => {
                    return None;
                },
            };
            let e = skip_ws(s, k);
            if e == s.len() {
                Some(ls)
            } else {
                None
            }
        },
    }
}

/// Turn parsed ASCII link byte strings into a batch of transactions.
fn batch_from_link_bytes(ls: Vec<Vec<u8>>) -> (b: Batch)
    requires
        forall|k: int| 0 <= k < ls@.len() ==> ascii_bytes(#[trigger] ls@[k]@),
    ensures
        b@ == links_chars(vecs_view(ls@)),
{
    let ghost all = vecs_view(ls@);
    let mut rest = ls;
    let mut txs: Vec<Transaction> = Vec::new();
    while rest.len() > 0
        invariant
            vecs_view(rest@) =~= all.skip(txs@.len() as int),
            txs@.len() <= all.len(),
            forall|k: int| 0 <= k < all.len() ==> ascii_bytes(#[trigger] all[k]),
            txs@.map_values(|t: Transaction| t@) =~= links_chars(all.take(txs@.len() as int)),
        decreases rest@.len(),
    {
        let ghost n = txs@.len() as int;
        let ghost prev = rest@;
        let lb = rest.remove(0);
        proof {
            assert(vecs_view(prev) == all.skip(n));
            assert(vecs_view(prev).len() == prev.len());
            assert(n < all.len());
            assert(vecs_view(prev)[0] == prev[0]@);
            assert(all.skip(n)[0] == all[0 + n]);
            assert(lb == prev[0]);
            assert(lb@ == all[n]);
            assert(rest@ == prev.remove(0));
            assert forall|k: int| 0 <= k < rest@.len() implies vecs_view(rest@)[k] == all.skip(
                n + 1,
            )[k] by {
                assert(vecs_view(rest@)[k] == rest@[k]@);
                assert(prev.remove(0)[k] == prev[k + 1]);
                assert(vecs_view(prev)[k + 1] == prev[k + 1]@);
                assert(all.skip(n)[k + 1] == all[k + 1 + n]);
                assert(all.skip(n + 1)[k] == all[k + (n + 1)]);
            }
            assert(vecs_view(rest@) =~= all.skip(n + 1));
            assert(ascii_bytes(lb@));
        }
        let link_str = ascii_bytes_to_string(lb);
        proof {
            crate::ascii::lemma_chars_of_bytes_ascii(all[n]);
        }
        let url = YoutubeLink::from_ascii_string(link_str);
        let ghost txs0 = txs@;
        let tx = Transaction::AddToQueue { url };
        proof {
            assert(tx@ == chars_of_bytes(all[n]));
        }
        txs.push(tx);
        proof {
            assert forall|k: int|
                #![trigger links_chars(all.take(n + 1))[k]]
                0 <= k < n + 1 implies txs@.map_values(|t: Transaction| t@)[k] == links_chars(
                all.take(n + 1),
            )[k] by {
                assert(txs@.map_values(|t: Transaction| t@)[k] == txs@[k]@);
                assert(links_chars(all.take(n + 1))[k] == chars_of_bytes(all.take(n + 1)[k]));
                assert(all.take(n + 1)[k] == all[k]);
                if k < n {
                    assert(txs@[k] == txs0[k]);
                    assert(txs0.map_values(|t: Transaction| t@)[k] == txs0[k]@);
                    assert(links_chars(all.take(n))[k] == chars_of_bytes(all.take(n)[k]));
                    assert(all.take(n)[k] == all[k]);
                } else {
                    assert(txs@[n] == tx);
                }
            }
            assert(txs@.map_values(|t: Transaction| t@) =~= links_chars(all.take(n + 1)));
        }
    }
    proof {
        assert(all.take(txs@.len() as int) =~= all);
    }
    Batch(txs)
}

/// Decode one payload: a batch when it parses as one, otherwise a bare
/// legacy transaction wrapped as a one-element batch, otherwise a
/// malformed-payload error.
pub fn decode_batch(bytes: &Vec<u8>) -> (r: Result<Batch, DecodeError>)
    ensures
        match r {
            Ok(b) => spec_decode_links(bytes@) == Some(b@),
            Err(_) => spec_decode_links(bytes@) is None,
        },
{
    proof {
        lemma_decode_ascii(bytes@);
    }
    match parse_batch(bytes) {
        Some(ls) => {
            proof {
                if let Some(i1) = spec_expect(bytes@, 0, BYTE_LBRACKET) {
                    lemma_skip_ws_bounds(bytes@, 0);
                    if spec_expect(bytes@, i1, BYTE_RBRACKET) is None {
                        lemma_parse_items_bounds(bytes@, i1);
                    }
                }
            }
            proof {
                assert forall|k: int| 0 <= k < ls@.len() implies ascii_bytes(
                    #[trigger] ls@[k]@,
                ) by {
                    assert(vecs_view(ls@)[k] == ls@[k]@);
                }
            }
            Ok(batch_from_link_bytes(ls))
        },
        None => {
            match parse_tx(bytes, 0) {
                Some((l, j)) => {
                    let e = skip_ws(bytes, j);
                    if e == bytes.len() {
                        proof {
                            lemma_parse_tx_bounds(bytes@, 0);
                        }
                        let mut one: Vec<Vec<u8>> = Vec::new();
                        let ghost l0 = l@;
                        one.push(l);
                        proof {
                            assert(vecs_view(one@) =~= seq![l0]);
                            assert forall|k: int| 0 <= k < one@.len() implies ascii_bytes(
                                #[trigger] one@[k]@,
                            ) by {
                                assert(vecs_view(one@)[k] == one@[k]@);
                            }
                        }
                        Ok(batch_from_link_bytes(one))
                    } else {
                        Err(DecodeError::Malformed)
                    }
                },
                None => Err(DecodeError::Malformed),
            }
        },
    }
}

/// Escape the link bytes from position `i` on.
fn escape_from(link: &Vec<u8>, i: usize) -> (r: Vec<u8>)
    requires
        i <= link@.len(),
    ensures
        r@ == spec_escape(link@.skip(i as int)),
    decreases link@.len() - i,
{
    if i == link.len() {
        let v: Vec<u8> = Vec::new();
        proof {
            assert(link@.skip(i as int) =~= Seq::<u8>::empty());
        }
        v
    } else {
        let b = link[i];
        let mut rest = escape_from(link, i + 1);
        let mut out: Vec<u8> = Vec::new();
        if b == BYTE_QUOTE || b == BYTE_BACKSLASH {
            out.push(BYTE_BACKSLASH);
        }
        out.push(b);
        let ghost head = out@;
        out.append(&mut rest);
        proof {
            let t = link@.skip(i as int);
            assert(t[0] == link@[i as int]);
            assert(t.skip(1) =~= link@.skip(i + 1));
            if b == BYTE_QUOTE || b == BYTE_BACKSLASH {
                assert(head =~= seq![BYTE_BACKSLASH, t[0]]);
            } else {
                assert(head =~= seq![t[0]]);
            }
        }
        out
    }
}

/// Append the canonical encoding of one transaction's link.
fn encode_tx_into(link_bytes: &Vec<u8>, out: &mut Vec<u8>)
    ensures
        final(out)@ == old(out)@ + spec_encode_tx(link_bytes@),
{
    let ghost base = out@;
    out.push(BYTE_LBRACE);
    out.push(BYTE_QUOTE);
    out.push(65);
    out.push(100);
    out.push(100);
    out.push(84);
    out.push(111);
    out.push(81);
    out.push(117);
    out.push(101);
    out.push(117);
    out.push(101);
    out.push(BYTE_QUOTE);
    out.push(BYTE_COLON);
    out.push(BYTE_LBRACE);
    out.push(BYTE_QUOTE);
    out.push(117);
    out.push(114);
    out.push(108);
    out.push(BYTE_QUOTE);
    out.push(BYTE_COLON);
    out.push(BYTE_QUOTE);
    proof {
        assert(out@ =~= base + tx_prefix());
    }
    let mut esc = escape_from(link_bytes, 0);
    proof {
        assert(link_bytes@.skip(0) =~= link_bytes@);
    }
    out.append(&mut esc);
    out.push(BYTE_QUOTE);
    out.push(BYTE_RBRACE);
    out.push(BYTE_RBRACE);
    proof {
        assert(out@ =~= base + spec_encode_tx(link_bytes@));
    }
}

/// The link bytes of one transaction, from its validated ASCII link.
fn tx_link_bytes(tx: &Transaction) -> (r: Vec<u8>)
    ensures
        r@ == bytes_of_chars(tx@),
{
    match tx {
        Transaction::AddToQueue { url } => {
            proof {
                use_type_invariant(url);
            }
            string_to_ascii_bytes(url.as_str())
        },
    }
}

/// Append the comma-joined encodings of the transactions from `k` on.
fn encode_items_from(batch: &Batch, k: usize, out: &mut Vec<u8>)
    requires
        k <= batch.0@.len(),
    ensures
        final(out)@ == old(out)@ + spec_encode_items(links_bytes(batch@).skip(k as int)),
    decreases batch.0@.len() - k,
{
    let ghost base = out@;
    let ghost ls = links_bytes(batch@);
    if k == batch.0.len() {
        proof {
            assert(ls.skip(k as int) =~= Seq::<Seq<u8>>::empty());
            assert(out@ =~= base + spec_encode_items(ls.skip(k as int)));
        }
        return ;
    }
    let lb = tx_link_bytes(&batch.0[k]);
    proof {
        assert(batch@[k as int] == batch.0@[k as int]@);
        assert(ls[k as int] == bytes_of_chars(batch@[k as int]));
        assert(ls.skip(k as int)[0] == ls[k as int]);
    }
    encode_tx_into(&lb, out);
    if k + 1 == batch.0.len() {
        proof {
            assert(ls.skip(k as int).len() == 1);
            assert(out@ =~= base + spec_encode_items(ls.skip(k as int)));
        }
    } else {
        out.push(BYTE_COMMA);
        encode_items_from(batch, k + 1, out);
        proof {
            assert(ls.skip(k as int).skip(1) =~= ls.skip(k + 1));
            assert(ls.skip(k as int).len() > 1);
            assert(out@ =~= base + spec_encode_items(ls.skip(k as int)));
        }
    }
}

/// Encode a batch as one payload: the canonical JSON array of its
/// transactions, with no whitespace.
pub fn encode_batch(batch: &Batch) -> (r: Vec<u8>)
    ensures
        r@ == spec_encode_batch(links_bytes(batch@)),
{
    let mut out: Vec<u8> = Vec::new();
    out.push(BYTE_LBRACKET);
    encode_items_from(batch, 0, &mut out);
    out.push(BYTE_RBRACKET);
    proof {
        assert(links_bytes(batch@).skip(0) =~= links_bytes(batch@));
        assert(out@ =~= spec_encode_batch(links_bytes(batch@)));
    }
    out
}

/// Encode one bare transaction, the legacy single-transaction payload
/// form.
pub fn encode_single_transaction(tx: &Transaction) -> (r: Vec<u8>)
    ensures
        r@ == spec_encode_tx(bytes_of_chars(tx@)),
{
    let lb = tx_link_bytes(tx);
    let mut out: Vec<u8> = Vec::new();
    encode_tx_into(&lb, &mut out);
    proof {
        assert(out@ =~= spec_encode_tx(bytes_of_chars(tx@)));
    }
    out
}

} // verus!
