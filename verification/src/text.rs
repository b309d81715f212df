//! Text as sequences of characters.

use vstd::prelude::*;
use vstd::utf8;

verus! {

/// What `str::to_lowercase` gives for a text.
pub uninterp spec fn lowercase(text: Seq<char>) -> Seq<char>;

/// What `String::from_utf8_lossy` gives for bytes that are not valid UTF-8.
pub uninterp spec fn lossy_text(bytes: Seq<u8>) -> Seq<char>;

/// Whether all characters of a text are ASCII.
pub open spec fn all_ascii(text: Seq<char>) -> bool {
    forall|i: int| 0 <= i < text.len() ==> (#[trigger] text[i] as u32) < 128
}

/// Calls `str::to_lowercase`. The result depends on the text alone and is
/// named [`lowercase`]; of ASCII text it is the text with its letters in lower
/// case. The Unicode case tables beyond ASCII are not spelled out.
#[verifier::external_body]
pub(crate) fn to_lowercase(text: &str) -> (result: String)
    ensures
        result@ == lowercase(text@),
        all_ascii(text@) ==> result@ == ascii_lower(text@),
{
    text.to_lowercase()
}

/// The text of bytes: decoded if they are valid UTF-8, else with replacements.
pub open spec fn readable_text(bytes: Seq<u8>) -> Seq<char> {
    if utf8::valid_utf8(bytes) {
        utf8::decode_utf8(bytes)
    } else {
        lossy_text(bytes)
    }
}

/// Calls `String::from_utf8_lossy`. Bytes that are valid UTF-8 are decoded as
/// such; of others the result depends on the bytes alone and is named
/// [`lossy_text`].
#[verifier::external_body]
pub(crate) fn from_utf8_lossy(bytes: &[u8]) -> (result: String)
    ensures
        result@ == readable_text(bytes@),
        !utf8::valid_utf8(bytes@) ==> result@ == lossy_text(bytes@),
{
    String::from_utf8_lossy(bytes).into_owned()
}

/// Calls `str::from_utf8`, which succeeds exactly on valid UTF-8 and decodes it.
#[verifier::external_body]
pub(crate) fn from_utf8(bytes: &[u8]) -> (result: Option<String>)
    ensures
        result is Some <==> utf8::valid_utf8(bytes@),
        result matches Some(text) ==> text@ == utf8::decode_utf8(bytes@),
{
    match std::str::from_utf8(bytes) {
        Ok(text) => Some(text.to_owned()),
        Err(_) => None,
    }
}

/// The characters that Unicode lists as white space.
pub open spec fn is_blank(c: char) -> bool {
    let code = c as u32;
    9 <= code <= 13 || code == 0x20 || code == 0x85 || code == 0xa0 || code == 0x1680 || 0x2000
        <= code <= 0x200a || code == 0x2028 || code == 0x2029 || code == 0x202f || code == 0x205f
        || code == 0x3000
}

/// Calls `char::is_whitespace`, which tells the characters of the Unicode property
/// `White_Space`.
#[verifier::external_body]
pub(crate) fn is_whitespace(c: char) -> (result: bool)
    ensures
        result == is_blank(c),
{
    c.is_whitespace()
}

/// A text without the white space in front of it.
pub open spec fn without_front(text: Seq<char>) -> Seq<char>
    decreases text.len(),
{
    if text.len() > 0 && is_blank(text[0]) {
        without_front(text.drop_first())
    } else {
        text
    }
}

/// A text without the white space behind it.
pub open spec fn without_back(text: Seq<char>) -> Seq<char>
    decreases text.len(),
{
    if text.len() > 0 && is_blank(text.last()) {
        without_back(text.drop_last())
    } else {
        text
    }
}

/// A text without the white space around it.
pub open spec fn trimmed(text: Seq<char>) -> Seq<char> {
    without_back(without_front(text))
}

/// Calls `str::trim`, which leaves out the white space in front of a text and
/// behind it.
#[verifier::external_body]
pub(crate) fn trim(text: &str) -> (result: String)
    ensures
        result@ == trimmed(text@),
{
    text.trim().to_owned()
}

/// What the standard alphabet of base64, with padding, makes of bytes.
pub uninterp spec fn base64_text(bytes: Seq<u8>) -> Seq<char>;

/// What the standard alphabet of base64, with padding, reads out of a text.
pub uninterp spec fn base64_bytes(text: Seq<char>) -> Option<Seq<u8>>;

/// Calls `base64::Engine::encode` of the engine
/// `base64::engine::general_purpose::STANDARD`. The result depends on the bytes
/// alone and is named [`base64_text`]; the engine reads the bytes back out of
/// it, and it is empty where there are no bytes.
#[verifier::external_body]
pub(crate) fn encode_base64(bytes: &[u8]) -> (result: String)
    ensures
        result@ == base64_text(bytes@),
        base64_bytes(result@) == Some(bytes@),
        bytes@.len() == 0 ==> result@.len() == 0,
{
    base64::Engine::encode(&base64::engine::general_purpose::STANDARD, bytes)
}

/// Calls `base64::Engine::decode` of the engine
/// `base64::engine::general_purpose::STANDARD`. Whether it succeeds, and with
/// which bytes, depends on the text alone and is named [`base64_bytes`].
#[verifier::external_body]
pub(crate) fn decode_base64(text: &str) -> (result: Option<Vec<u8>>)
    ensures
        match base64_bytes(text@) {
            Some(bytes) => result matches Some(r) && r@ == bytes,
            None => result is None,
        },
{
    base64::Engine::decode(&base64::engine::general_purpose::STANDARD, text).ok()
}

/// The text of words in UTF-16: a word outside of the surrogates is a character,
/// and so are a high surrogate and a low one behind it; nothing else is.
pub open spec fn utf16_text(words: Seq<u16>) -> Option<Seq<char>>
    decreases words.len(),
{
    if words.len() == 0 {
        Some(Seq::empty())
    } else if words[0] < 0xd800 || words[0] > 0xdfff {
        match utf16_text(words.drop_first()) {
            None => None,
            Some(rest) => Some(seq![words[0] as char] + rest),
        }
    } else if words[0] < 0xdc00 && words.len() > 1 && 0xdc00 <= words[1] <= 0xdfff {
        match utf16_text(words.subrange(2, words.len() as int)) {
            None => None,
            Some(rest) => Some(
                seq![(0x1_0000 + (words[0] - 0xd800) * 0x400 + (words[1] - 0xdc00)) as char] + rest,
            ),
        }
    } else {
        None
    }
}

/// Calls `String::from_utf16`, which decodes UTF-16 and fails on words that are
/// none.
#[verifier::external_body]
pub(crate) fn from_utf16(words: &[u16]) -> (result: Option<String>)
    ensures
        match utf16_text(words@) {
            Some(text) => result matches Some(r) && r@ == text,
            None => result is None,
        },
{
    String::from_utf16(words).ok()
}

/// Calls `String::push`, which appends one character.
#[verifier::external_body]
pub(crate) fn push_char(text: &mut String, c: char)
    ensures
        final(text)@ == old(text)@.push(c),
{
    text.push(c);
}

/// Appends a text.
pub fn push_text(text: &mut String, other: &str)
    ensures
        final(text)@ == old(text)@ + other@,
{
    text.append(other);
}

/// The characters of a text.
pub fn chars_of(text: &str) -> (result: Vec<char>)
    ensures
        result@ == text@,
{
    let mut chars: Vec<char> = Vec::new();
    for c in iter: text.chars()
        invariant
            iter.seq() == text@,
            chars@ =~= text@.subrange(0, iter.index()),
    {
        chars.push(c);
    }
    assert(chars@ =~= text@);
    chars
}

/// The text of some characters.
pub fn text_of(chars: &[char]) -> (result: String)
    ensures
        result@ == chars@,
{
    let mut text: String = String::new();
    let mut i: usize = 0;
    while i < chars.len()
        invariant
            i <= chars@.len(),
            text@ =~= chars@.subrange(0, i as int),
        decreases chars@.len() - i,
    {
        push_char(&mut text, chars[i]);
        i = i + 1;
    }
    assert(text@ =~= chars@);
    text
}

/// Tells whether two texts are the same.
pub fn same_text(a: &str, b: &str) -> (result: bool)
    ensures
        result == (a@ == b@),
{
    let left: &[u8] = a.as_bytes();
    let right: &[u8] = b.as_bytes();
    proof {
        utf8::encode_utf8_decode_utf8(a@);
        utf8::encode_utf8_decode_utf8(b@);
    }
    if left.len() != right.len() {
        return false;
    }
    let mut i: usize = 0;
    while i < left.len()
        invariant
            i <= left@.len() == right@.len(),
            left@ == utf8::encode_utf8(a@),
            right@ == utf8::encode_utf8(b@),
            forall|k: int| 0 <= k < i ==> left@[k] == right@[k],
        decreases left@.len() - i,
    {
        if left[i] != right[i] {
            return false;
        }
        i = i + 1;
    }
    assert(left@ =~= right@);
    true
}

/// A text that starts with another.
pub open spec fn starts_with(text: Seq<char>, prefix: Seq<char>) -> bool {
    prefix.len() <= text.len() && text.subrange(0, prefix.len() as int) == prefix
}

/// A text that ends with another.
pub open spec fn ends_with(text: Seq<char>, suffix: Seq<char>) -> bool {
    suffix.len() <= text.len() && text.subrange(text.len() - suffix.len(), text.len() as int)
        == suffix
}

/// Tells whether a text ends with another.
pub fn has_suffix(text: &[char], suffix: &str) -> (result: bool)
    ensures
        result == ends_with(text@, suffix@),
{
    let end: Vec<char> = chars_of(suffix);
    if end.len() > text.len() {
        return false;
    }
    let size: usize = text.len();
    let from: usize = size - end.len();
    let mut i: usize = 0;
    while i < end.len()
        invariant
            i <= end@.len() <= text@.len(),
            end@ == suffix@,
            size == text@.len(),
            from == size - end@.len(),
            forall|k: int| 0 <= k < i ==> text@[from + k] == end@[k],
        decreases end@.len() - i,
    {
        if text[from + i] != end[i] {
            assert(text@.subrange(from as int, text@.len() as int)[i as int] != suffix@[i as int]);
            return false;
        }
        i = i + 1;
    }
    assert(text@.subrange(from as int, text@.len() as int) =~= suffix@);
    true
}

/// An ASCII letter in lower case; other characters stay.
pub open spec fn ascii_lower_char(c: char) -> char {
    if 'A' <= c && c <= 'Z' {
        (c as u32 + 32) as char
    } else {
        c
    }
}

/// A text with its ASCII letters in lower case.
pub open spec fn ascii_lower(text: Seq<char>) -> Seq<char> {
    text.map_values(|c: char| ascii_lower_char(c))
}

/// Lowers one ASCII letter.
pub fn lower_char(c: char) -> (result: char)
    ensures
        result == ascii_lower_char(c),
{
    if 'A' <= c && c <= 'Z' {
        (c as u8 + 32) as char
    } else {
        c
    }
}

/// Lowers the ASCII letters of a text.
pub fn ascii_lower_chars(text: &str) -> (result: Vec<char>)
    ensures
        result@ == ascii_lower(text@),
{
    let mut chars: Vec<char> = chars_of(text);
    let mut i: usize = 0;
    while i < chars.len()
        invariant
            i <= chars@.len() == text@.len(),
            forall|k: int| 0 <= k < i ==> chars@[k] == ascii_lower_char(text@[k]),
            forall|k: int| i <= k < chars@.len() ==> chars@[k] == text@[k],
        decreases chars@.len() - i,
    {
        let lower: char = lower_char(chars[i]);
        chars.set(i, lower);
        i = i + 1;
    }
    assert(chars@ =~= ascii_lower(text@));
    chars
}

/// A text with every `from` replaced by `to`.
pub open spec fn replaced(text: Seq<char>, from: char, to: char) -> Seq<char> {
    text.map_values(
        |c: char|
            if c == from {
                to
            } else {
                c
            },
    )
}

/// Replaces every `from` by `to`.
pub fn replace_char(chars: &[char], from: char, to: char) -> (result: Vec<char>)
    ensures
        result@ == replaced(chars@, from, to),
{
    let mut result: Vec<char> = Vec::new();
    let mut i: usize = 0;
    while i < chars.len()
        invariant
            i <= chars@.len(),
            result@ =~= replaced(chars@, from, to).subrange(0, i as int),
        decreases chars@.len() - i,
    {
        if chars[i] == from {
            result.push(to);
        } else {
            result.push(chars[i]);
        }
        i = i + 1;
    }
    assert(result@ =~= replaced(chars@, from, to));
    result
}

/// The characters from `from` up to `to`.
pub fn part_of(chars: &[char], from: usize, to: usize) -> (result: Vec<char>)
    requires
        from <= to <= chars@.len(),
    ensures
        result@ == chars@.subrange(from as int, to as int),
{
    let mut result: Vec<char> = Vec::new();
    let mut i: usize = from;
    while i < to
        invariant
            from <= i <= to <= chars@.len(),
            result@ =~= chars@.subrange(from as int, i as int),
        decreases to - i,
    {
        result.push(chars[i]);
        i = i + 1;
    }
    result
}

} // verus!
