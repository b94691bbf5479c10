//! The character classes and line shapes that recognise parts of a Gecko code.
use vstd::prelude::*;
use regex::Regex;
use crate::text::{is_white_space, white_space};

verus! {

/// Whether the non-ASCII character `c` is in the class `\d` of the `regex` crate with Unicode
/// enabled, the general category Nd (decimal number).
pub uninterp spec fn nd_beyond_ascii(c: char) -> bool;

/// Matches `c`, as a one-character text, against `^\d$` with `regex::Regex::is_match`.
/// Stated: the result is `nd_beyond_ascii(c)`, and no whitespace character is in `\d` (the Nd
/// table of `regex-syntax` holds none of the `White_Space` characters). Callers use it for
/// non-ASCII characters only; which of those are in Nd is left to the name.
#[verifier::external_body]
fn regex_digit_beyond_ascii(c: char) -> (b: bool)
    ensures
        b == nd_beyond_ascii(c),
        white_space(c) ==> !b,
{
    let mut buf = [0u8; 4];
    Regex::new(r"^\d$").unwrap().is_match(c.encode_utf8(&mut buf))
}

/// Whether `c` is a character of the class `\d`: an ASCII digit, or a non-ASCII decimal
/// number (Nd). No decimal number is whitespace, which is written out here so that it can be
/// used without a call.
pub open spec fn decimal_digit(c: char) -> bool {
    ('0' <= c && c <= '9') || ((c as u32) >= 128 && !white_space(c) && nd_beyond_ascii(c))
}

/// Whether `c` is an ASCII letter.
pub open spec fn ascii_letter(c: char) -> bool {
    ('A' <= c && c <= 'Z') || ('a' <= c && c <= 'z')
}

/// The class `[\dA-Za-z]`, which the first eight characters of a code line are drawn from.
pub open spec fn line_char(c: char) -> bool {
    decimal_digit(c) || ascii_letter(c)
}

/// The class `[\dA-Za-z\?]`, which the second eight characters of a code line are drawn from.
pub open spec fn line_char_or_mark(c: char) -> bool {
    line_char(c) || c == '?'
}

/// The class `[\dA-Fa-fXxYyZz/?]` of the characters of a code word.
pub open spec fn word_char(c: char) -> bool {
    decimal_digit(c) || ('A' <= c && c <= 'F') || ('a' <= c && c <= 'f') || c == 'X' || c == 'x'
        || c == 'Y' || c == 'y' || c == 'Z' || c == 'z' || c == '/' || c == '?'
}

/// The class `[\dA-Fa-f]` of the characters of a memory address.
pub open spec fn address_char(c: char) -> bool {
    decimal_digit(c) || ('A' <= c && c <= 'F') || ('a' <= c && c <= 'f')
}

/// Whether the characters of `s` in positions `lo..hi` are all of `line_char`.
pub open spec fn all_line_chars(s: Seq<char>, lo: int, hi: int) -> bool {
    forall|k: int| lo <= k < hi ==> line_char(#[trigger] s[k])
}

/// Whether the characters of `s` in positions `lo..hi` are all of `line_char_or_mark`.
pub open spec fn all_line_chars_or_marks(s: Seq<char>, lo: int, hi: int) -> bool {
    forall|k: int| lo <= k < hi ==> line_char_or_mark(#[trigger] s[k])
}

/// Whether a line is a line of code, as `^[\dA-Za-z]{8}\s?[\dA-Za-z\?]{8}` finds it: eight
/// characters of `line_char`, then eight of `line_char_or_mark`, with one whitespace character
/// allowed between the two groups. Anything may follow.
pub open spec fn is_code_line(l: Seq<char>) -> bool {
    &&& l.len() >= 16
    &&& all_line_chars(l, 0, 8)
    &&& {
        ||| all_line_chars_or_marks(l, 8, 16)
        ||| (l.len() >= 17 && white_space(l[8]) && all_line_chars_or_marks(l, 9, 17))
    }
}

/// Whether a word is a code word, as `^[\dA-Fa-fXxYyZz/?]{8}$` finds it: exactly eight
/// characters of `word_char`.
pub open spec fn is_code_word(w: Seq<char>) -> bool {
    w.len() == 8 && forall|k: int| 0 <= k < 8 ==> word_char(#[trigger] w[k])
}

/// Whether a text is a memory address, as `^[\dA-Fa-f]{6}$` finds it: exactly six characters
/// of `address_char`.
pub open spec fn is_address_text(w: Seq<char>) -> bool {
    w.len() == 6 && forall|k: int| 0 <= k < 6 ==> address_char(#[trigger] w[k])
}

/// `c` in upper case if it is an ASCII letter, else `c`.
pub open spec fn ascii_upper(c: char) -> char {
    if 'a' <= c && c <= 'z' {
        ((c as u32) - 32) as char
    } else {
        c
    }
}

/// `w` with its ASCII letters in upper case.
pub open spec fn upper(w: Seq<char>) -> Seq<char> {
    w.map_values(|c: char| ascii_upper(c))
}

/// Whether `c` is of the class `\d`.
pub fn is_decimal_digit(c: char) -> (b: bool)
    ensures
        b == decimal_digit(c),
{
    if '0' <= c && c <= '9' {
        true
    } else if (c as u32) < 128 {
        false
    } else {
        regex_digit_beyond_ascii(c)
    }
}

/// Whether `c` is of the class `line_char`.
pub fn is_line_char(c: char) -> (b: bool)
    ensures
        b == line_char(c),
{
    ('A' <= c && c <= 'Z') || ('a' <= c && c <= 'z') || is_decimal_digit(c)
}

/// Whether `c` is of the class `word_char`.
pub fn is_word_char(c: char) -> (b: bool)
    ensures
        b == word_char(c),
{
    ('A' <= c && c <= 'F') || ('a' <= c && c <= 'f') || c == 'X' || c == 'x' || c == 'Y' || c
        == 'y' || c == 'Z' || c == 'z' || c == '/' || c == '?' || is_decimal_digit(c)
}

/// Whether `c` is of the class `address_char`.
pub fn is_address_char(c: char) -> (b: bool)
    ensures
        b == address_char(c),
{
    ('A' <= c && c <= 'F') || ('a' <= c && c <= 'f') || is_decimal_digit(c)
}

/// Whether `l[lo..hi]` is all of `line_char` (with `or_mark`, of `line_char_or_mark`).
fn all_of_line_class(l: &[char], lo: usize, hi: usize, or_mark: bool) -> (b: bool)
    requires
        lo <= hi <= l.len(),
    ensures
        !or_mark ==> b == all_line_chars(l@, lo as int, hi as int),
        or_mark ==> b == all_line_chars_or_marks(l@, lo as int, hi as int),
{
    let mut k = lo;
    while k < hi
        invariant
            lo <= k <= hi <= l.len(),
            !or_mark ==> all_line_chars(l@, lo as int, k as int),
            or_mark ==> all_line_chars_or_marks(l@, lo as int, k as int),
        decreases hi - k,
    {
        let c = l[k];
        if !(is_line_char(c) || (or_mark && c == '?')) {
            return false;
        }
        k += 1;
    }
    true
}

/// Whether `l` is a line of code.
pub fn is_code_line_exec(l: &[char]) -> (b: bool)
    ensures
        b == is_code_line(l@),
{
    if l.len() < 16 {
        return false;
    }
    if !all_of_line_class(l, 0, 8, false) {
        return false;
    }
    if all_of_line_class(l, 8, 16, true) {
        return true;
    }
    l.len() >= 17 && is_white_space(l[8]) && all_of_line_class(l, 9, 17, true)
}

/// Whether `w` is a code word.
pub fn is_code_word_exec(w: &[char]) -> (b: bool)
    ensures
        b == is_code_word(w@),
{
    if w.len() != 8 {
        return false;
    }
    let mut k: usize = 0;
    while k < 8
        invariant
            w.len() == 8,
            k <= 8,
            forall|m: int| 0 <= m < k ==> word_char(#[trigger] w@[m]),
        decreases 8 - k,
    {
        if !is_word_char(w[k]) {
            return false;
        }
        k += 1;
    }
    true
}

/// Whether `w` is a memory address text.
pub fn is_address_text_exec(w: &[char]) -> (b: bool)
    ensures
        b == is_address_text(w@),
{
    if w.len() != 6 {
        return false;
    }
    let mut k: usize = 0;
    while k < 6
        invariant
            w.len() == 6,
            k <= 6,
            forall|m: int| 0 <= m < k ==> address_char(#[trigger] w@[m]),
        decreases 6 - k,
    {
        if !is_address_char(w[k]) {
            return false;
        }
        k += 1;
    }
    true
}

/// `c` in upper case if it is an ASCII letter, else `c`.
pub fn ascii_upper_exec(c: char) -> (u: char)
    ensures
        u == ascii_upper(c),
{
    if 'a' <= c && c <= 'z' {
        ((c as u8) - 32) as char
    } else {
        c
    }
}

/// `w` with its ASCII letters in upper case.
pub fn upper_exec(w: &[char]) -> (u: Vec<char>)
    ensures
        u@ == upper(w@),
{
    let mut u: Vec<char> = Vec::new();
    let mut k: usize = 0;
    while k < w.len()
        invariant
            k <= w.len(),
            u@ == upper(w@.subrange(0, k as int)),
        decreases w.len() - k,
    {
        u.push(ascii_upper_exec(w[k]));
        k += 1;
        assert(u@ =~= upper(w@.subrange(0, k as int)));
    }
    assert(w@.subrange(0, w.len() as int) =~= w@);
    u
}

/// On ASCII characters the classes are the ones the patterns write out: `\d` is `0-9`;
/// `[\dA-Fa-f]`, `[\dA-Za-z]`, `[\dA-Za-z\?]` and `[\dA-Fa-fXxYyZz/?]` are what they say.
pub proof fn lemma_ascii_classes(c: char)
    requires
        (c as u32) < 128,
    ensures
        decimal_digit(c) <==> '0' <= c && c <= '9',
        address_char(c) <==> ('0' <= c && c <= '9') || ('A' <= c && c <= 'F') || ('a' <= c && c
            <= 'f'),
        line_char(c) <==> ('0' <= c && c <= '9') || ('A' <= c && c <= 'Z') || ('a' <= c && c
            <= 'z'),
        line_char_or_mark(c) <==> ('0' <= c && c <= '9') || ('A' <= c && c <= 'Z') || ('a' <= c
            && c <= 'z') || c == '?',
        word_char(c) <==> ('0' <= c && c <= '9') || ('A' <= c && c <= 'F') || ('a' <= c && c
            <= 'f') || c == 'X' || c == 'x' || c == 'Y' || c == 'y' || c == 'Z' || c == 'z' || c
            == '/' || c == '?',
{
}

/// A memory address text is six characters of `[\dA-Fa-f]`: every text of six characters
/// each in `0-9`, `A-F` or `a-f` is one; no text of another length is, and none with an ASCII
/// character outside those.
pub proof fn lemma_address_texts(w: Seq<char>)
    ensures
        w.len() == 6 && (forall|k: int|
            0 <= k < 6 ==> ('0' <= #[trigger] w[k] && w[k] <= '9') || ('A' <= w[k] && w[k] <= 'F')
                || ('a' <= w[k] && w[k] <= 'f')) ==> is_address_text(w),
        w.len() != 6 ==> !is_address_text(w),
        (exists|k: int|
            0 <= k < w.len() && (#[trigger] w[k] as u32) < 128 && !(('0' <= w[k] && w[k] <= '9')
                || ('A' <= w[k] && w[k] <= 'F') || ('a' <= w[k] && w[k] <= 'f')))
            ==> !is_address_text(w),
{
    if exists|k: int|
        0 <= k < w.len() && (#[trigger] w[k] as u32) < 128 && !(('0' <= w[k] && w[k] <= '9') || (
        'A' <= w[k] && w[k] <= 'F') || ('a' <= w[k] && w[k] <= 'f')) {
        let k = choose|k: int|
            0 <= k < w.len() && (#[trigger] w[k] as u32) < 128 && !(('0' <= w[k] && w[k] <= '9')
                || ('A' <= w[k] && w[k] <= 'F') || ('a' <= w[k] && w[k] <= 'f'));
        lemma_ascii_classes(w[k]);
    }
}

/// A line of code is eight characters of `[\dA-Za-z]` and eight of `[\dA-Za-z\?]`, perhaps
/// with one whitespace character between them, at the start of the line; a line shorter than
/// sixteen characters is none, and neither is one that starts with whitespace.
pub proof fn lemma_code_line_shapes(a: Seq<char>, c: char, b: Seq<char>, r: Seq<char>)
    ensures
        a.len() == 8 && b.len() == 8 && (forall|k: int| 0 <= k < 8 ==> line_char(#[trigger] a[k]))
            && (forall|k: int| 0 <= k < 8 ==> line_char_or_mark(#[trigger] b[k])) ==> is_code_line(
            a + b + r,
        ) && (white_space(c) ==> is_code_line(a + seq![c] + b + r)),
        (a + b + r).len() < 16 ==> !is_code_line(a + b + r),
        (a + b + r).len() > 0 && white_space((a + b + r)[0]) ==> !is_code_line(a + b + r),
{
    let l = a + b + r;
    if a.len() == 8 && b.len() == 8 && (forall|k: int| 0 <= k < 8 ==> line_char(#[trigger] a[k]))
        && (forall|k: int| 0 <= k < 8 ==> line_char_or_mark(#[trigger] b[k])) {
        assert forall|k: int| 0 <= k < 8 implies line_char(#[trigger] l[k]) by {
            assert(l[k] == a[k]);
        }
        assert forall|k: int| 8 <= k < 16 implies line_char_or_mark(#[trigger] l[k]) by {
            assert(l[k] == b[k - 8]);
        }
        let l2 = a + seq![c] + b + r;
        assert forall|k: int| 0 <= k < 8 implies line_char(#[trigger] l2[k]) by {
            assert(l2[k] == a[k]);
        }
        assert forall|k: int| 9 <= k < 17 implies line_char_or_mark(#[trigger] l2[k]) by {
            assert(l2[k] == b[k - 9]);
        }
        assert(l2[8] == c);
    }
    if l.len() >= 16 && white_space(l[0]) {
        assert(!line_char(l[0]));
    }
}

} // verus!
