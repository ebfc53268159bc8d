//! Transactions and validated media links.
//!
//! A link is accepted in several written forms (full watch URLs, short
//! share URLs, embed URLs, or a bare eleven-character video id) and is
//! stored canonicalized as a full watch URL.  The grammar below is the
//! library's own: validation and canonicalization are verified against it.

use vstd::prelude::*;

verus! {

use vstd::string::StrSliceExecFns;
use vstd::string::StringExecFns;
use crate::ascii::ascii_chars;
use crate::ascii::bytes_of_chars;
use crate::ascii::ascii_bytes_to_string;

/// Whitespace stripped from the ends of a submitted link.
pub open spec fn is_ws_char(c: char) -> bool {
    c == ' ' || c == '\t' || c == '\n' || c == '\r'
}

/// A character allowed in a video id: ASCII letters, digits, underscore
/// and hyphen.
pub open spec fn is_id_char(c: char) -> bool {
    ('a' <= c && c <= 'z') || ('A' <= c && c <= 'Z') || ('0' <= c && c <= '9') || c == '_' || c
        == '-'
}

/// A video id is exactly eleven id characters.
pub open spec fn spec_valid_video_id(s: Seq<char>) -> bool {
    s.len() == 11 && forall|i: int| 0 <= i < s.len() ==> is_id_char(#[trigger] s[i])
}

/// `s` begins with `p`.
pub open spec fn starts_with(s: Seq<char>, p: Seq<char>) -> bool {
    p.len() <= s.len() && s.subrange(0, p.len() as int) == p
}

/// The input with leading whitespace removed.
pub open spec fn spec_trim_front(s: Seq<char>) -> Seq<char>
    decreases s.len(),
{
    if s.len() > 0 && is_ws_char(s[0]) {
        spec_trim_front(s.skip(1))
    } else {
        s
    }
}

/// The input with trailing whitespace removed.
pub open spec fn spec_trim_back(s: Seq<char>) -> Seq<char>
    decreases s.len(),
{
    if s.len() > 0 && is_ws_char(s[s.len() - 1]) {
        spec_trim_back(s.take(s.len() - 1))
    } else {
        s
    }
}

/// A submitted link is trimmed at both ends and then stripped of every
/// backslash before the grammar is applied.
pub open spec fn spec_clean(s: Seq<char>) -> Seq<char> {
    spec_trim_back(spec_trim_front(s)).filter(|c: char| c != '\\')
}

/// The scheme prefix, if present, removed.
pub open spec fn spec_strip_scheme(s: Seq<char>) -> Seq<char> {
    if starts_with(s, "https://"@) {
        s.skip("https://"@.len() as int)
    } else if starts_with(s, "http://"@) {
        s.skip("http://"@.len() as int)
    } else {
        s
    }
}

/// The leading `www.`, if present, removed.
pub open spec fn spec_strip_www(s: Seq<char>) -> Seq<char> {
    if starts_with(s, "www."@) {
        s.skip("www."@.len() as int)
    } else {
        s
    }
}

/// An eleven-character id at the front of `s`, followed by the end of the
/// input or by `?`, `&` or `/`.
pub open spec fn spec_id_then_path_end(s: Seq<char>) -> Option<Seq<char>> {
    if s.len() >= 11 && spec_valid_video_id(s.take(11)) && (s.len() == 11 || s[11] == '?' || s[11]
        == '&' || s[11] == '/') {
        Some(s.take(11))
    } else {
        None
    }
}

/// An eleven-character id at the front of `s`, followed by the end of the
/// input or by `&`.
pub open spec fn spec_id_then_query_end(s: Seq<char>) -> Option<Seq<char>> {
    if s.len() >= 11 && spec_valid_video_id(s.take(11)) && (s.len() == 11 || s[11] == '&') {
        Some(s.take(11))
    } else {
        None
    }
}

/// The video id named by a cleaned link, under the accepted written forms:
/// a short share URL, a watch URL, an embed URL (each with optional scheme
/// and `www.`), or a bare video id.
pub open spec fn spec_extract_video_id(s: Seq<char>) -> Option<Seq<char>> {
    let t = spec_strip_www(spec_strip_scheme(s));
    if starts_with(t, "youtu.be/"@) {
        spec_id_then_path_end(t.skip("youtu.be/"@.len() as int))
    } else if starts_with(t, "youtube.com/watch?v="@) {
        spec_id_then_query_end(t.skip("youtube.com/watch?v="@.len() as int))
    } else if starts_with(t, "youtube.com/embed/"@) {
        spec_id_then_path_end(t.skip("youtube.com/embed/"@.len() as int))
    } else if spec_valid_video_id(s) {
        Some(s)
    } else {
        None
    }
}

/// The canonical written form of a link with the given video id.
pub open spec fn spec_canonical_link(id: Seq<char>) -> Seq<char> {
    "https://www.youtube.com/watch?v="@ + id
}

/// A submitted string names a valid link.
pub open spec fn link_source_valid(s: Seq<char>) -> bool {
    spec_extract_video_id(spec_clean(s)) is Some
}

/// Validate a video id: exactly eleven characters, each an ASCII letter,
/// digit, underscore or hyphen.
pub fn is_valid_video_id(id: &str) -> (r: bool)
    ensures
        r == spec_valid_video_id(id@),
{
    let n = id.unicode_len();
    if n != 11 {
        return false;
    }
    let mut i: usize = 0;
    while i < 11
        invariant
            0 <= i <= 11,
            id@.len() == 11,
            forall|k: int| 0 <= k < i ==> is_id_char(#[trigger] id@[k]),
        decreases 11 - i,
    {
        let c = id.get_char(i);
        if !id_char(c) {
            return false;
        }
        i = i + 1;
    }
    true
}

/// One id character, checked through its code point.
fn id_char(c: char) -> (r: bool)
    ensures
        r == is_id_char(c),
{
    let u = c as u32;
    (97 <= u && u <= 122) || (65 <= u && u <= 90) || (48 <= u && u <= 57) || u == 95 || u == 45
}

/// One whitespace character.
fn ws_char(c: char) -> (r: bool)
    ensures
        r == is_ws_char(c),
{
    c == ' ' || c == '\t' || c == '\n' || c == '\r'
}

/// Trimming the front keeps exactly the suffix after the leading
/// whitespace run.
proof fn lemma_trim_front_skip(s: Seq<char>, k: int)
    requires
        0 <= k <= s.len(),
        forall|i: int| 0 <= i < k ==> is_ws_char(#[trigger] s[i]),
        k == s.len() || !is_ws_char(s[k]),
    ensures
        spec_trim_front(s) == s.skip(k),
    decreases k,
{
    if k == 0 {
        assert(s.skip(0) =~= s);
    } else {
        let t = s.skip(1);
        assert(is_ws_char(s[0]));
        assert forall|i: int| 0 <= i < k - 1 implies is_ws_char(#[trigger] t[i]) by {
            assert(t[i] == s[i + 1]);
        }
        lemma_trim_front_skip(t, k - 1);
        assert(t.skip(k - 1) =~= s.skip(k));
    }
}

/// Trimming the back keeps exactly the prefix before the trailing
/// whitespace run.
proof fn lemma_trim_back_take(s: Seq<char>, k: int)
    requires
        0 <= k <= s.len(),
        forall|i: int| k <= i < s.len() ==> is_ws_char(#[trigger] s[i]),
        k == 0 || !is_ws_char(s[k - 1]),
    ensures
        spec_trim_back(s) == s.take(k),
    decreases s.len(),
{
    if k == s.len() {
        assert(s.take(k) =~= s);
    } else {
        assert(is_ws_char(s[s.len() - 1]));
        let t = s.take(s.len() - 1);
        lemma_trim_back_take(t, k);
        assert(t.take(k) =~= s.take(k));
    }
}

/// Collect the characters of a submitted link, trimmed at both ends and
/// stripped of every backslash.
pub fn clean_chars(url: &str) -> (r: Vec<char>)
    ensures
        r@ == spec_clean(url@),
{
    let n = url.unicode_len();
    let mut chars: Vec<char> = Vec::new();
    let mut i: usize = 0;
    while i < n
        invariant
            0 <= i <= n,
            n == url@.len(),
            chars@ =~= url@.take(i as int),
        decreases n - i,
    {
        chars.push(url.get_char(i));
        i = i + 1;
        proof {
            assert(chars@ =~= url@.take(i as int));
        }
    }
    assert(chars@ =~= url@);
    let mut a: usize = 0;
    while a < n && ws_char(chars[a])
        invariant
            0 <= a <= n,
            n == url@.len(),
            chars@ =~= url@,
            forall|k: int| 0 <= k < a ==> is_ws_char(#[trigger] url@[k]),
        decreases n - a,
    {
        a = a + 1;
    }
    let mut b: usize = n;
    while b > a && ws_char(chars[b - 1])
        invariant
            a <= b <= n,
            n == url@.len(),
            chars@ =~= url@,
            forall|k: int| b <= k < n ==> is_ws_char(#[trigger] url@[k]),
        decreases b,
    {
        b = b - 1;
    }
    proof {
        lemma_trim_front_skip(url@, a as int);
        let t = url@.skip(a as int);
        assert forall|i2: int| (b - a) <= i2 < t.len() implies is_ws_char(#[trigger] t[i2]) by {
            assert(t[i2] == url@[i2 + a]);
        }
        if b > a {
            assert(!is_ws_char(url@[b - 1]));
            assert(t[b - a - 1] == url@[b - 1]);
        }
        lemma_trim_back_take(t, b - a);
        assert(spec_trim_back(spec_trim_front(url@)) =~= url@.subrange(a as int, b as int));
    }
    let ghost pred = |c: char| c != '\\';
    let mut out: Vec<char> = Vec::new();
    let mut j: usize = a;
    while j < b
        invariant
            a <= j <= b <= n,
            n == url@.len(),
            chars@ =~= url@,
            out@ =~= url@.subrange(a as int, j as int).filter(pred),
            pred == (|c: char| c != '\\'),
        decreases b - j,
    {
        let c = chars[j];
        proof {
            reveal(Seq::filter);
            let prev = url@.subrange(a as int, j as int);
            let cur = url@.subrange(a as int, j + 1 as int);
            assert(cur.drop_last() =~= prev);
            assert(cur.last() == url@[j as int]);
        }
        if c != '\\' {
            out.push(c);
        }
        j = j + 1;
    }
    proof {
        assert(url@.subrange(a as int, b as int).filter(pred) == spec_clean(url@));
    }
    out
}

/// The characters of `v` from `pos` begin with the literal.
fn has_prefix(v: &Vec<char>, pos: usize, lit: &str) -> (r: bool)
    ensures
        r == (pos <= v@.len() && starts_with(v@.skip(pos as int), lit@)),
{
    if pos > v.len() {
        return false;
    }
    let n = lit.unicode_len();
    if n > v.len() - pos {
        return false;
    }
    let ghost s = v@.skip(pos as int);
    let mut j: usize = 0;
    while j < n
        invariant
            0 <= j <= n,
            n == lit@.len(),
            pos + n <= v@.len(),
            v@.len() <= usize::MAX,
            s == v@.skip(pos as int),
            forall|k: int| 0 <= k < j ==> s[k] == lit@[k],
        decreases n - j,
    {
        if v[pos + j] != lit.get_char(j) {
            proof {
                assert(s[j as int] == v@[pos + j as int]);
                assert(s.subrange(0, n as int)[j as int] != lit@[j as int]);
            }
            return false;
        }
        j = j + 1;
    }
    proof {
        assert(s.subrange(0, n as int) =~= lit@);
    }
    true
}

/// An eleven-character id starting at `pos`, followed by the end of the
/// input or by an accepted separator; `path_end` selects which separators
/// are accepted.
fn id_from(v: &Vec<char>, pos: usize, path_end: bool) -> (r: Option<Vec<char>>)
    requires
        pos <= v@.len(),
    ensures
        ({
            let expect = if path_end {
                spec_id_then_path_end(v@.skip(pos as int))
            } else {
                spec_id_then_query_end(v@.skip(pos as int))
            };
            match r {
                Some(x) => expect == Some(x@),
                None => expect is None,
            }
        }),
{
    let ghost s = v@.skip(pos as int);
    if v.len() - pos < 11 {
        return None;
    }
    let mut id: Vec<char> = Vec::new();
    let mut j: usize = 0;
    while j < 11
        invariant
            0 <= j <= 11,
            pos + 11 <= v@.len(),
            v@.len() <= usize::MAX,
            s == v@.skip(pos as int),
            id@ =~= s.take(11).take(j as int),
            forall|k: int| 0 <= k < j ==> is_id_char(#[trigger] s.take(11)[k]),
        decreases 11 - j,
    {
        let c = v[pos + j];
        if !id_char(c) {
            proof {
                assert(s.take(11)[j as int] == v@[pos + j as int]);
                assert(!spec_valid_video_id(s.take(11)));
            }
            return None;
        }
        id.push(c);
        j = j + 1;
        proof {
            assert(id@ =~= s.take(11).take(j as int));
        }
    }
    proof {
        assert(id@ =~= s.take(11));
        assert(spec_valid_video_id(s.take(11)));
    }
    if v.len() - pos == 11 {
        return Some(id);
    }
    let sep = v[pos + 11];
    proof {
        assert(s[11] == v@[pos + 11 as int]);
    }
    if path_end {
        if sep == '?' || sep == '&' || sep == '/' {
            Some(id)
        } else {
            None
        }
    } else {
        if sep == '&' {
            Some(id)
        } else {
            None
        }
    }
}

/// The video id named by a cleaned link, or nothing when no accepted form
/// matches.
pub fn extract_video_id(v: &Vec<char>) -> (r: Option<Vec<char>>)
    ensures
        match r {
            Some(x) => spec_extract_video_id(v@) == Some(x@),
            None => spec_extract_video_id(v@) is None,
        },
{
    proof {
        reveal_strlit("https://");
        reveal_strlit("http://");
        reveal_strlit("www.");
        reveal_strlit("youtu.be/");
        reveal_strlit("youtube.com/watch?v=");
        reveal_strlit("youtube.com/embed/");
        assert(v@.skip(0) =~= v@);
    }
    let mut base: usize = 0;
    if has_prefix(v, 0, "https://") {
        base = 8;
    } else if has_prefix(v, 0, "http://") {
        base = 7;
    }
    proof {
        assert(v@.skip(base as int) =~= spec_strip_scheme(v@));
    }
    if has_prefix(v, base, "www.") {
        base = base + 4;
    }
    let ghost t = spec_strip_www(spec_strip_scheme(v@));
    proof {
        assert(v@.skip(base as int) =~= t);
    }
    if has_prefix(v, base, "youtu.be/") {
        proof {
            assert(v@.skip(base + 9).skip(0) =~= t.skip(9));
            assert(v@.skip(base + 9) =~= t.skip(9));
        }
        id_from(v, base + 9, true)
    } else if has_prefix(v, base, "youtube.com/watch?v=") {
        proof {
            assert(v@.skip(base + 20) =~= t.skip(20));
        }
        id_from(v, base + 20, false)
    } else if has_prefix(v, base, "youtube.com/embed/") {
        proof {
            assert(v@.skip(base + 18) =~= t.skip(18));
        }
        id_from(v, base + 18, true)
    } else {
        bare_id(v)
    }
}

/// The whole input as a bare eleven-character id.
fn bare_id(v: &Vec<char>) -> (r: Option<Vec<char>>)
    ensures
        match r {
            Some(x) => spec_valid_video_id(v@) && x@ == v@,
            None => !spec_valid_video_id(v@),
        },
{
    if v.len() != 11 {
        return None;
    }
    let mut j: usize = 0;
    let mut id: Vec<char> = Vec::new();
    while j < 11
        invariant
            0 <= j <= 11,
            v@.len() == 11,
            id@ =~= v@.take(j as int),
            forall|k: int| 0 <= k < j ==> is_id_char(#[trigger] v@[k]),
        decreases 11 - j,
    {
        let c = v[j];
        if !id_char(c) {
            proof {
                assert(!spec_valid_video_id(v@));
            }
            return None;
        }
        id.push(c);
        j = j + 1;
        proof {
            assert(id@ =~= v@.take(j as int));
        }
    }
    proof {
        assert(id@ =~= v@);
        assert(spec_valid_video_id(v@));
    }
    Some(id)
}

/// Why a submitted link was rejected.
#[derive(Clone, Copy, Debug, PartialEq, Eq, Structural)]
pub enum LinkError {
    /// No accepted written form matched the cleaned input.
    InvalidUrl,
}

/// A validated media link, stored in its canonical written form.
#[derive(Debug)]
pub struct YoutubeLink(String);

impl Clone for YoutubeLink {
    fn clone(&self) -> (r: Self)
        ensures
            r@ == self@,
    {
        proof {
            use_type_invariant(self);
        }
        YoutubeLink(self.0.clone())
    }
}

impl View for YoutubeLink {
    type V = Seq<char>;

    closed spec fn view(&self) -> Seq<char> {
        self.0@
    }
}

/// An id character is an ASCII code point.
pub proof fn lemma_id_char_ascii(c: char)
    ensures
        is_id_char(c) ==> c <= '\u{7f}' && (c as u8) < 128,
{
}

/// A valid id is ASCII text.
pub proof fn lemma_valid_id_ascii(s: Seq<char>)
    requires
        spec_valid_video_id(s),
    ensures
        ascii_chars(s),
{
    assert forall|i: int| 0 <= i < s.len() implies #[trigger] s[i] <= '\u{7f}' by {
        assert(is_id_char(s[i]));
        lemma_id_char_ascii(s[i]);
    }
}

/// An extracted id is always a valid one.
pub proof fn lemma_extract_valid(s: Seq<char>)
    ensures
        match spec_extract_video_id(s) {
            Some(id) => spec_valid_video_id(id),
            None => true,
        },
{
}

impl YoutubeLink {
    /// All links hold ASCII text.
    #[verifier::type_invariant]
    pub open spec fn wf(self) -> bool {
        ascii_chars(self@)
    }

    /// Validate and canonicalize a submitted link: trim and strip
    /// backslashes, extract the video id from one of the accepted written
    /// forms, and store the canonical watch URL.  Rejected exactly when no
    /// accepted form matches.
    pub fn new(url: String) -> (r: Result<Self, LinkError>)
        ensures
            match r {
                Ok(l) => link_source_valid(url@) && l@ == spec_canonical_link(
                    spec_extract_video_id(spec_clean(url@)).unwrap(),
                ),
                Err(_) => !link_source_valid(url@),
            },
    {
        let cleaned = clean_chars(url.as_str());
        match extract_video_id(&cleaned) {
            None => Err(LinkError::InvalidUrl),
            Some(id) => {
                proof {
                    lemma_extract_valid(cleaned@);
                }
                Ok(Self::from_id(&id))
            },
        }
    }

    /// Build the canonical watch URL around a valid id.
    fn from_id(id: &Vec<char>) -> (r: Self)
        requires
            spec_valid_video_id(id@),
        ensures
            r@ == spec_canonical_link(id@),
    {
        proof {
            lemma_valid_id_ascii(id@);
        }
        let mut bytes: Vec<u8> = Vec::new();
        let mut i: usize = 0;
        while i < id.len()
            invariant
                0 <= i <= id@.len(),
                ascii_chars(id@),
                bytes@ =~= bytes_of_chars(id@.take(i as int)),
            decreases id@.len() - i,
        {
            bytes.push(id[i] as u8);
            i = i + 1;
            proof {
                assert(bytes@ =~= bytes_of_chars(id@.take(i as int)));
            }
        }
        proof {
            assert(bytes@ =~= bytes_of_chars(id@));
            crate::ascii::lemma_bytes_of_chars_ascii(id@);
        }
        let id_str = ascii_bytes_to_string(bytes);
        proof {
            crate::ascii::lemma_chars_bytes_inverse(id@);
            assert(id_str@ =~= id@);
        }
        let prefix: String = <String as vstd::string::StringExecFns>::from_str(
            "https://www.youtube.com/watch?v=",
        );
        let full: String = prefix.concat(id_str.as_str());
        proof {
            reveal_strlit("https://www.youtube.com/watch?v=");
            assert(ascii_chars("https://www.youtube.com/watch?v="@));
            assert(full@ == spec_canonical_link(id@));
            assert forall|k: int| 0 <= k < full@.len() implies #[trigger] full@[k]
                <= '\u{7f}' by {
                if k < "https://www.youtube.com/watch?v="@.len() {
                    assert(full@[k] == "https://www.youtube.com/watch?v="@[k]);
                } else {
                    assert(full@[k] == id@[k - "https://www.youtube.com/watch?v="@.len()]);
                }
            }
        }
        YoutubeLink(full)
    }

    /// Wrap an ASCII string already known to be the stored written form.
    pub(crate) fn from_ascii_string(s: String) -> (r: Self)
        requires
            ascii_chars(s@),
        ensures
            r@ == s@,
    {
        YoutubeLink(s)
    }

    /// The stored written form of the link.
    pub fn as_str(&self) -> (r: &str)
        ensures
            r@ == self@,
    {
        self.0.as_str()
    }
}

/// One application transaction.  The single current case adds a link to
/// the playback queue; every consumption site matches exhaustively so a
/// future case is a compile-time-checked change.
#[derive(Debug)]
pub enum Transaction {
    AddToQueue { url: YoutubeLink },
}

impl Clone for Transaction {
    fn clone(&self) -> (r: Self)
        ensures
            r@ == self@,
    {
        match self {
            Transaction::AddToQueue { url } => Transaction::AddToQueue { url: url.clone() },
        }
    }
}

impl View for Transaction {
    type V = Seq<char>;

    open spec fn view(&self) -> Seq<char> {
        match self {
            Transaction::AddToQueue { url } => url@,
        }
    }
}

} // verus!
