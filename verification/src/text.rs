//! Conversions between strings, characters and bytes, and the truncation of
//! long text at a character boundary.
use vstd::prelude::*;
use vstd::std_specs::iter::IteratorSpec;
use vstd::string::{StringExecFns, StringSliceAdditionalSpecFns};
use vstd::utf8::*;

verus! {

/// `String::push` appends one character to the end of the string.
pub assume_specification[ String::push ](s: &mut String, ch: char)
    ensures
        final(s)@ == old(s)@.push(ch),
;

/// The text that `String::from_utf8_lossy` makes of a byte sequence.
pub uninterp spec fn lossy_text(bytes: Seq<u8>) -> Seq<char>;

/// The text that `Debug` formatting makes of a string: the string between
/// double quotes, with its special characters escaped.
pub uninterp spec fn debug_text(text: Seq<char>) -> Seq<char>;

/// Decodes bytes with `String::from_utf8_lossy`. Valid UTF-8 decodes to the
/// characters it encodes; in other input each malformed sequence is replaced
/// by U+FFFD, which the contract leaves to [`lossy_text`].
#[verifier::external_body]
pub(crate) fn decode_lossy(bytes: &[u8]) -> (s: String)
    ensures
        s@ == lossy_text(bytes@),
        valid_utf8(bytes@) ==> s@ == decode_utf8(bytes@),
{
    String::from_utf8_lossy(bytes).into_owned()
}

/// Formats a string with `{:?}`. The result is [`debug_text`] of the string.
#[verifier::external_body]
pub(crate) fn debug_quoted(text: &str) -> (s: String)
    ensures
        s@ == debug_text(text@),
{
    format!("{:?}", text)
}

/// The characters of a string, in order.
pub fn chars_of(s: &str) -> (v: Vec<char>)
    ensures
        v@ == s@,
{
    let mut v: Vec<char> = Vec::new();
    let mut it = s.chars();
    let mut done = false;
    while !done
        invariant
            v@ + it.remaining() == s@,
            it.obeys_prophetic_iter_laws(),
            it.decrease() is Some,
            done ==> it.remaining().len() == 0,
        decreases (if done { 0int } else { 1int }), it.decrease()->0,
    {
        match it.next() {
            Some(c) => {
                proof {
                    assert(v@.push(c) + it.remaining() =~= s@);
                }
                v.push(c);
            },
            None => {
                done = true;
            },
        }
    }
    assert(v@ + it.remaining() =~= v@);
    v
}

/// The string made of the given characters, in order.
pub fn string_of(chars: &[char]) -> (s: String)
    ensures
        s@ == chars@,
{
    let mut s = String::new();
    let mut i: usize = 0;
    while i < chars.len()
        invariant
            i <= chars.len(),
            s@ == chars@.take(i as int),
        decreases chars.len() - i,
    {
        s.push(chars[i]);
        proof {
            assert(chars@.take(i as int).push(chars@[i as int]) =~= chars@.take(i + 1));
        }
        i = i + 1;
    }
    proof {
        assert(chars@.take(chars.len() as int) =~= chars@);
    }
    s
}

/// The last character boundary of `bytes` at or before `max`.
pub open spec fn cut_point(bytes: Seq<u8>, max: int) -> int
    decreases max,
{
    if max <= 0 {
        0
    } else if is_char_boundary(bytes, max) {
        max
    } else {
        cut_point(bytes, max - 1)
    }
}

/// The three dots that mark truncated text.
pub open spec fn ellipsis() -> Seq<char> {
    seq!['.', '.', '.']
}

/// `text` cut down to `max` bytes of UTF-8. Text that fits is unchanged.
/// Longer text is cut at the last character boundary at or before `max`
/// bytes, and three dots are appended.
pub open spec fn truncated(text: Seq<char>, max: int) -> Seq<char> {
    let bytes = encode_utf8(text);
    if bytes.len() <= max {
        text
    } else {
        decode_utf8(bytes.subrange(0, cut_point(bytes, max))) + ellipsis()
    }
}

/// The cut point is a character boundary within `max`, and no character
/// boundary lies between it and `max`.
pub proof fn lemma_cut_point(bytes: Seq<u8>, max: int)
    requires
        valid_utf8(bytes),
        0 <= max,
    ensures
        0 <= cut_point(bytes, max) <= max,
        is_char_boundary(bytes, cut_point(bytes, max)),
        forall|k: int| cut_point(bytes, max) < k <= max ==> !is_char_boundary(bytes, k),
    decreases max,
{
    if max > 0 && !is_char_boundary(bytes, max) {
        lemma_cut_point(bytes, max - 1);
    }
}

/// Truncates `s` to at most `max` bytes, never splitting a character, and
/// marks the cut with three dots.
pub fn truncate(s: &str, max: usize) -> (res: String)
    ensures
        res@ == truncated(s@, max as int),
{
    broadcast use {encode_utf8_valid_utf8, encode_utf8_decode_utf8};

    if s.as_bytes().len() <= max {
        String::from_str(s)
    } else {
        let ghost bytes = encode_utf8(s@);
        let mut end: usize = max;
        while end > 0 && !s.is_char_boundary(end)
            invariant
                bytes == s.spec_bytes(),
                valid_utf8(bytes),
                end <= max,
                cut_point(bytes, end as int) == cut_point(bytes, max as int),
            decreases end,
        {
            end = end - 1;
        }
        proof {
            is_char_boundary_start_end_of_seq(bytes);
            assert(cut_point(bytes, end as int) == end);
        }
        let (head, _) = s.split_at(end);
        let mut res = String::from_str(head);
        proof {
            reveal_strlit("...");
            assert(head.spec_bytes() == bytes.subrange(0, end as int));
            assert(head@ == decode_utf8(encode_utf8(head@)));
            assert("..."@ =~= ellipsis());
        }
        res.append("...");
        assert(res@ == decode_utf8(bytes.subrange(0, end as int)) + ellipsis());
        res
    }
}

// ---------------------------------------------------------------------------
// Character classes
// ---------------------------------------------------------------------------
/// True for the ten decimal digits.
pub open spec fn is_digit(c: char) -> bool {
    '0' <= c <= '9'
}

/// True for the letters `a` to `z` and `A` to `Z`.
pub open spec fn is_letter(c: char) -> bool {
    ('a' <= c <= 'z') || ('A' <= c <= 'Z')
}

/// True for the characters an identifier is made of: letters, digits and
/// the underscore.
pub open spec fn is_ident_char(c: char) -> bool {
    is_letter(c) || is_digit(c) || c == '_'
}

/// True for the ASCII whitespace characters: space, tab, line feed, form
/// feed and carriage return.
pub open spec fn is_blank(c: char) -> bool {
    c == ' ' || c == '\t' || c == '\n' || c == '\x0C' || c == '\r'
}

/// The lower-case form of an ASCII letter; any other character unchanged.
pub open spec fn lower(c: char) -> char {
    if 'A' <= c <= 'Z' {
        ((c as u8) + 32) as char
    } else {
        c
    }
}

/// Tests whether `c` is a decimal digit.
pub fn char_is_digit(c: char) -> (b: bool)
    ensures
        b == is_digit(c),
{
    '0' <= c && c <= '9'
}

/// Tests whether `c` is an ASCII letter.
pub fn char_is_letter(c: char) -> (b: bool)
    ensures
        b == is_letter(c),
{
    ('a' <= c && c <= 'z') || ('A' <= c && c <= 'Z')
}

/// Tests whether `c` can stand in an identifier.
pub fn char_is_ident(c: char) -> (b: bool)
    ensures
        b == is_ident_char(c),
{
    char_is_letter(c) || char_is_digit(c) || c == '_'
}

/// Tests whether `c` is ASCII whitespace.
pub fn char_is_blank(c: char) -> (b: bool)
    ensures
        b == is_blank(c),
{
    c == ' ' || c == '\t' || c == '\n' || c == '\x0C' || c == '\r'
}

/// Folds an ASCII capital letter to lower case.
pub fn char_lower(c: char) -> (r: char)
    ensures
        r == lower(c),
{
    if 'A' <= c && c <= 'Z' {
        ((c as u8) + 32) as char
    } else {
        c
    }
}

/// The encoding of two texts joined is their encodings joined.
pub proof fn lemma_encode_concat(a: Seq<char>, b: Seq<char>)
    ensures
        encode_utf8(a + b) == encode_utf8(a) + encode_utf8(b),
    decreases a.len(),
{
    if a.len() == 0 {
        assert(a + b =~= b);
        assert(encode_utf8(a) + encode_utf8(b) =~= encode_utf8(b));
    } else {
        lemma_encode_concat(a.drop_first(), b);
        assert((a + b).drop_first() =~= a.drop_first() + b);
        assert((a + b)[0] == a[0]);
        assert(encode_utf8(a + b) =~= encode_utf8(a) + encode_utf8(b));
    }
}

/// Truncated text is short: it takes at most `max` bytes and the three of
/// the dots.
pub proof fn lemma_truncated_len(text: Seq<char>, max: int)
    requires
        0 <= max,
    ensures
        encode_utf8(truncated(text, max)).len() <= max + 3,
        encode_utf8(text).len() <= max ==> truncated(text, max) == text,
{
    let bytes = encode_utf8(text);
    if bytes.len() > max {
        encode_utf8_valid_utf8(text);
        lemma_cut_point(bytes, max);
        let cut = cut_point(bytes, max);
        let head = bytes.subrange(0, cut);
        valid_utf8_split(bytes, cut);
        decode_utf8_encode_utf8(head);
        lemma_encode_concat(decode_utf8(head), ellipsis());
        assert(is_ascii_chars(ellipsis()));
        is_ascii_chars_encode_utf8(ellipsis());
    }
}

} // verus!
