//! Gecko codes: a header line `$name [authors]`, description lines starting with `*`, and lines
//! of code words, from which the memory addresses that the code touches are read.
use vstd::prelude::*;
use crate::text::{
    chars_of, copy_range, lines, lines_exec, split, split_exec, starts_with, string_of, trim,
    trim_range, white_space, words, words_exec, no_cr, replace, lemma_crlf_lines,
};
use crate::pattern::{
    is_code_line, is_code_line_exec, is_code_word, is_code_word_exec, line_char, upper, upper_exec,
};
use crate::hexnum::{
    all_hex_digits, hex_digits, hex_digits_exec, hex_value, hex_value_exec, is_hex_digit,
    lemma_hex_digits_len, pow16,
};

verus! {

/// A category of Gecko codes.
#[derive(Debug, PartialEq, Clone)]
pub enum Category {
    Gameplay,
    Aesthetics,
}

/// One Gecko code, as read from its block of text.
#[derive(Debug, Clone, PartialEq)]
pub struct GeckoCode {
    /// The header line without its `$`, trimmed.
    pub header: String,
    /// The version (always empty when read from text).
    pub version: String,
    /// The authors listed in the first `[...]` of the header, if any.
    pub authors: Option<Vec<String>>,
    /// The description lines (those starting with `*`), without the `*`, trimmed.
    pub description: Option<Vec<String>>,
    /// The lines of code, trimmed.
    pub hex_lines: Vec<String>,
    /// The code words of the code lines, in upper case.
    pub hex_words: Vec<String>,
    /// Whether the code is deprecated (always `false` when read from text).
    pub deprecated: bool,
    /// The memory addresses that the code words name, as `0x` and eight hex digits.
    pub addresses: Option<Vec<String>>,
    /// The categories (always empty when read from text).
    pub categories: Option<Vec<String>>,
}

/// The content of a `GeckoCode`.
pub struct GeckoCodeModel {
    pub header: Seq<char>,
    pub version: Seq<char>,
    pub authors: Option<Seq<Seq<char>>>,
    pub description: Option<Seq<Seq<char>>>,
    pub hex_lines: Seq<Seq<char>>,
    pub hex_words: Seq<Seq<char>>,
    pub deprecated: bool,
    pub addresses: Option<Seq<Seq<char>>>,
    pub categories: Option<Seq<Seq<char>>>,
}

impl View for GeckoCode {
    type V = GeckoCodeModel;

    open spec fn view(&self) -> GeckoCodeModel {
        GeckoCodeModel {
            header: self.header@,
            version: self.version@,
            authors: self.authors.deep_view(),
            description: self.description.deep_view(),
            hex_lines: self.hex_lines.deep_view(),
            hex_words: self.hex_words.deep_view(),
            deprecated: self.deprecated,
            addresses: self.addresses.deep_view(),
            categories: self.categories.deep_view(),
        }
    }
}

/// Whether the hex digit `b` is odd.
pub open spec fn odd_hex_digit(b: char) -> bool {
    b == '1' || b == '3' || b == '5' || b == '7' || b == '9' || b == 'B' || b == 'D' || b == 'F'
}

/// The opcodes whose code word carries a memory address: direct RAM writes `00`-`09`, the
/// 32- and 16-bit if-codes `20`-`2F`, the Gecko-register if-codes `A0`-`A7`, the ASM codes
/// `C2`, `C3`, `C6`, `C7`, and `F2`, `F3`. `Some(odd)` says whether the opcode is odd, in which
/// case the address reaches into the opcode's low bit; `None` for all other opcodes.
pub open spec fn opcode_kind(a: char, b: char) -> Option<bool> {
    if (a == '0' && '0' <= b && b <= '9') || (a == '2' && (('0' <= b && b <= '9') || ('A' <= b
        && b <= 'F'))) || (a == 'A' && '0' <= b && b <= '7') || (a == 'C' && (b == '2' || b == '3'
        || b == '6' || b == '7')) || (a == 'F' && (b == '2' || b == '3')) {
        Some(odd_hex_digit(b))
    } else {
        None
    }
}

/// The memory address that the (upper-case) code word `w` names: for an opcode of
/// `opcode_kind` followed by six hex digits, `0x` and the eight-digit hex value of those
/// digits, plus `0x1000000` for an odd opcode.
pub open spec fn word_address(w: Seq<char>) -> Option<Seq<char>> {
    if w.len() < 8 {
        None
    } else {
        match opcode_kind(w[0], w[1]) {
            None => None,
            Some(odd) => {
                let digits = w.subrange(2, 8);
                if all_hex_digits(digits) {
                    Some(
                        seq!['0', 'x'] + hex_digits(
                            hex_value(digits) + (if odd {
                                0x1000000nat
                            } else {
                                0nat
                            }),
                            8,
                        ),
                    )
                } else {
                    None
                }
            },
        }
    }
}

/// Whether the first two bytes of the UTF-8 encoding of the word `w` end on a character
/// boundary, so that they can be taken as its opcode: two ASCII characters, or one character
/// of two bytes.
pub open spec fn opcode_slice_ok(w: Seq<char>) -> bool {
    w.len() >= 2 && (((w[0] as u32) < 0x80 && (w[1] as u32) < 0x80) || (0x80 <= (w[0] as u32) && (
    w[0] as u32) < 0x800))
}

/// The code words among `ws`, in upper case.
pub open spec fn code_words(ws: Seq<Seq<char>>) -> Seq<Seq<char>>
    decreases ws.len(),
{
    if ws.len() == 0 {
        seq![]
    } else {
        (if is_code_word(ws[0]) {
            seq![upper(ws[0])]
        } else {
            seq![]
        }) + code_words(ws.drop_first())
    }
}

/// The addresses that the code words among `ws` name, in order.
pub open spec fn code_addresses(ws: Seq<Seq<char>>) -> Seq<Seq<char>>
    decreases ws.len(),
{
    if ws.len() == 0 {
        seq![]
    } else {
        (if is_code_word(ws[0]) {
            match word_address(upper(ws[0])) {
                Some(a) => seq![a],
                None => seq![],
            }
        } else {
            seq![]
        }) + code_addresses(ws.drop_first())
    }
}

/// Whether every code word among `ws` has an opcode that can be sliced off.
pub open spec fn words_slice_ok(ws: Seq<Seq<char>>) -> bool
    decreases ws.len(),
{
    ws.len() == 0 || ((is_code_word(ws[0]) ==> opcode_slice_ok(upper(ws[0]))) && words_slice_ok(
        ws.drop_first(),
    ))
}

/// What the lines after the header contribute.
pub struct BodyModel {
    pub description: Seq<Seq<char>>,
    pub hex_lines: Seq<Seq<char>>,
    pub hex_words: Seq<Seq<char>>,
    pub addresses: Seq<Seq<char>>,
}

/// The contribution of one line after the header: a line starting with `*` adds a description
/// line; a line of code adds itself (trimmed), its code words and their addresses; any other
/// line adds nothing.
pub open spec fn body_step(st: BodyModel, l: Seq<char>) -> BodyModel {
    if starts_with(l, seq!['*']) {
        BodyModel {
            description: st.description.push(trim(l.drop_first())),
            hex_lines: st.hex_lines,
            hex_words: st.hex_words,
            addresses: st.addresses,
        }
    } else if is_code_line(l) {
        let t = trim(l);
        BodyModel {
            description: st.description,
            hex_lines: st.hex_lines.push(t),
            hex_words: st.hex_words + code_words(words(t)),
            addresses: st.addresses + code_addresses(words(t)),
        }
    } else {
        st
    }
}

/// The contributions of the lines `ls`, in order, added to `st`.
pub open spec fn body_fold(ls: Seq<Seq<char>>, st: BodyModel) -> BodyModel
    decreases ls.len(),
{
    if ls.len() == 0 {
        st
    } else {
        body_fold(ls.drop_first(), body_step(st, ls[0]))
    }
}

/// Whether the opcodes of the code words on the line `l` can be sliced off.
pub open spec fn line_slices_ok(l: Seq<char>) -> bool {
    starts_with(l, seq!['*']) || !is_code_line(l) || words_slice_ok(words(trim(l)))
}

/// Whether the opcodes of the code words on all of the lines `ls` can be sliced off.
pub open spec fn lines_slice_ok(ls: Seq<Seq<char>>) -> bool
    decreases ls.len(),
{
    ls.len() == 0 || (line_slices_ok(ls[0]) && lines_slice_ok(ls.drop_first()))
}

/// Whether reading `s` as a Gecko code slices every opcode on a character boundary (reading
/// stops at once when the first line is not a header line).
pub open spec fn gecko_slices_ok(s: Seq<char>) -> bool {
    let ls = lines(s);
    ls.len() == 0 || !starts_with(ls[0], seq!['$']) || lines_slice_ok(ls.drop_first())
}

/// The position of the first `]` in `h` at or after `k`.
pub open spec fn close_scan(h: Seq<char>, k: int) -> Option<int>
    decreases h.len() - k,
{
    if k < 0 || k >= h.len() {
        None
    } else if h[k] == ']' {
        Some(k)
    } else {
        close_scan(h, k + 1)
    }
}

/// The span inside the leftmost `[...]` of `h` at or after `i` with at least one character
/// inside, as `\[([^]]+)\]` finds it.
pub open spec fn bracket_scan(h: Seq<char>, i: int) -> Option<(int, int)>
    decreases h.len() - i,
{
    if i < 0 || i >= h.len() {
        None
    } else if h[i] == '[' && close_scan(h, i + 1) is Some && close_scan(h, i + 1)->0 > i + 1 {
        Some((i + 1, close_scan(h, i + 1)->0))
    } else {
        bracket_scan(h, i + 1)
    }
}

/// Each of `ps`, trimmed.
pub open spec fn trim_each(ps: Seq<Seq<char>>) -> Seq<Seq<char>> {
    ps.map_values(|p: Seq<char>| trim(p))
}

/// The authors named in a header: the comma-separated, trimmed names inside its first
/// `[...]`; `None` when it has none.
pub open spec fn header_authors(h: Seq<char>) -> Option<Seq<Seq<char>>> {
    match bracket_scan(h, 0) {
        Some((a, b)) => Some(trim_each(split(h.subrange(a, b), seq![',']))),
        None => None,
    }
}

/// The Gecko code that the text `s` holds: its first line must start with `$`, the rest of it,
/// trimmed, is the header; the lines after it contribute as `body_step` says. There is no code
/// when the header is empty or no line of code follows.
pub open spec fn parse_gecko(s: Seq<char>) -> Option<GeckoCodeModel> {
    let ls = lines(s);
    if ls.len() == 0 || !starts_with(ls[0], seq!['$']) {
        None
    } else {
        let header = trim(ls[0].drop_first());
        let body = body_fold(
            ls.drop_first(),
            BodyModel {
                description: seq![],
                hex_lines: seq![],
                hex_words: seq![],
                addresses: seq![],
            },
        );
        if header.len() == 0 || body.hex_lines.len() == 0 {
            None
        } else {
            Some(
                GeckoCodeModel {
                    header: header,
                    version: seq![],
                    authors: header_authors(header),
                    description: Some(body.description),
                    hex_lines: body.hex_lines,
                    hex_words: body.hex_words,
                    deprecated: false,
                    addresses: Some(body.addresses),
                    categories: Some(seq![]),
                },
            )
        }
    }
}

/// Pushes `piece` onto `out`, keeping track of the views.
pub(crate) fn push_text(out: &mut Vec<Vec<char>>, piece: Vec<char>)
    ensures
        final(out).deep_view() == old(out).deep_view().push(piece@),
{
    let ghost before = out.deep_view();
    assert(piece.deep_view() =~= piece@);
    out.push(piece);
    assert(out.deep_view() =~= before.push(piece@));
}

/// The texts `v` as `String`s.
pub(crate) fn strings_of(v: &Vec<Vec<char>>) -> (r: Vec<String>)
    ensures
        r.deep_view() == v.deep_view(),
{
    let mut r: Vec<String> = Vec::new();
    let mut k: usize = 0;
    while k < v.len()
        invariant
            k <= v.len(),
            r.deep_view() == v.deep_view().subrange(0, k as int),
        decreases v.len() - k,
    {
        let s = string_of(&v[k]);
        let ghost before = r.deep_view();
        assert(v[k as int].deep_view() =~= v[k as int]@);
        r.push(s);
        assert(r.deep_view() =~= before.push(s@));
        assert(r.deep_view() =~= v.deep_view().subrange(0, k + 1));
        k += 1;
    }
    assert(v.deep_view().subrange(0, v.len() as int) =~= v.deep_view());
    r
}

/// The address that the upper-case code word `w` names, if any.
pub fn word_address_exec(w: &[char]) -> (r: Option<Vec<char>>)
    requires
        is_code_word(w@),
    ensures
        match r {
            Some(a) => word_address(w@) == Some(a@),
            None => word_address(w@) is None,
        },
{
    let a = w[0];
    let b = w[1];
    let listed = (a == '0' && '0' <= b && b <= '9') || (a == '2' && (('0' <= b && b <= '9') || (
    'A' <= b && b <= 'F'))) || (a == 'A' && '0' <= b && b <= '7') || (a == 'C' && (b == '2' || b
        == '3' || b == '6' || b == '7')) || (a == 'F' && (b == '2' || b == '3'));
    if !listed {
        return None;
    }
    let odd = b == '1' || b == '3' || b == '5' || b == '7' || b == '9' || b == 'B' || b == 'D'
        || b == 'F';
    let digits = copy_range(w, 2, 8);
    match hex_value_exec(&digits) {
        None => None,
        Some(v) => {
            proof {
                reveal_with_fuel(pow16, 7);
            }
            let total: u32 = if odd {
                v + 0x1000000
            } else {
                v
            };
            let mut out: Vec<char> = Vec::new();
            out.push('0');
            out.push('x');
            let d = hex_digits_exec(total, 8);
            crate::text::push_all(&mut out, &d);
            assert(out@ =~= seq!['0', 'x'] + d@);
            Some(out)
        },
    }
}

/// The accumulated contribution of the lines after the header.
struct BodyAcc {
    description: Vec<Vec<char>>,
    hex_lines: Vec<Vec<char>>,
    hex_words: Vec<Vec<char>>,
    addresses: Vec<Vec<char>>,
}

impl BodyAcc {
    spec fn model(&self) -> BodyModel {
        BodyModel {
            description: self.description.deep_view(),
            hex_lines: self.hex_lines.deep_view(),
            hex_words: self.hex_words.deep_view(),
            addresses: self.addresses.deep_view(),
        }
    }
}

/// Adds the code words of the trimmed code line `t` and their addresses.
fn add_code_words(acc: &mut BodyAcc, t: &[char])
    requires
        words_slice_ok(words(t@)),
    ensures
        final(acc).description == old(acc).description,
        final(acc).hex_lines == old(acc).hex_lines,
        final(acc).hex_words.deep_view() == old(acc).hex_words.deep_view() + code_words(words(t@)),
        final(acc).addresses.deep_view() == old(acc).addresses.deep_view() + code_addresses(
            words(t@),
        ),
{
    let ws = words_exec(t);
    let ghost all = ws.deep_view();
    let ghost hw0 = acc.hex_words.deep_view();
    let ghost ad0 = acc.addresses.deep_view();
    let mut i: usize = 0;
    assert(all.skip(0) =~= all);
    while i < ws.len()
        invariant
            i <= ws.len(),
            all == ws.deep_view(),
            all == words(t@),
            acc.description == old(acc).description,
            acc.hex_lines == old(acc).hex_lines,
            words_slice_ok(all.skip(i as int)),
            acc.hex_words.deep_view() + code_words(all.skip(i as int)) == hw0 + code_words(all),
            acc.addresses.deep_view() + code_addresses(all.skip(i as int)) == ad0
                + code_addresses(all),
        decreases ws.len() - i,
    {
        let ghost rest = all.skip(i as int);
        assert(rest.drop_first() =~= all.skip(i + 1));
        assert(rest[0] == ws[i as int]@) by {
            assert(ws[i as int].deep_view() =~= ws[i as int]@);
        }
        let ghost hw = acc.hex_words.deep_view();
        let ghost ad = acc.addresses.deep_view();
        if is_code_word_exec(&ws[i]) {
            let u = upper_exec(&ws[i]);
            let addr = word_address_exec(&u);
            push_text(&mut acc.hex_words, u);
            assert(acc.hex_words.deep_view() + code_words(all.skip(i + 1)) =~= hw + code_words(
                rest,
            ));
            match addr {
                Some(a) => {
                    push_text(&mut acc.addresses, a);
                },
                None => {},
            }
            assert(acc.addresses.deep_view() + code_addresses(all.skip(i + 1)) =~= ad
                + code_addresses(rest));
        } else {
            assert(code_words(rest) =~= code_words(all.skip(i + 1)));
            assert(code_addresses(rest) =~= code_addresses(all.skip(i + 1)));
        }
        i += 1;
    }
    assert(code_words(all.skip(ws.len() as int)) =~= seq![]);
    assert(code_addresses(all.skip(ws.len() as int)) =~= seq![]);
}

/// Adds the contribution of the line `l`.
fn body_step_exec(acc: &mut BodyAcc, l: &[char])
    requires
        line_slices_ok(l@),
    ensures
        final(acc).model() == body_step(old(acc).model(), l@),
{
    if l.len() > 0 && l[0] == '*' {
        assert(starts_with(l@, seq!['*'])) by {
            assert(l@.subrange(0, 1) =~= seq!['*']);
        }
        let d = trim_range(l, 1, l.len());
        assert(l@.subrange(1, l@.len() as int) =~= l@.drop_first());
        push_text(&mut acc.description, d);
    } else {
        assert(!starts_with(l@, seq!['*'])) by {
            if l@.len() >= 1 {
                assert(l@.subrange(0, 1)[0] == l@[0]);
            }
        }
        if is_code_line_exec(l) {
            let t = trim_range(l, 0, l.len());
            assert(l@.subrange(0, l@.len() as int) =~= l@);
            push_text(&mut acc.hex_lines, t.clone());
            add_code_words(acc, &t);
        }
    }
}

impl GeckoCode {
    /// Reads a Gecko code from its block of text: the first line is the header (after a `$`),
    /// then description lines (after a `*`) and lines of code, from whose code words the
    /// addresses are read. `None` when the first line is no header, the header is empty, or no
    /// line of code follows.
    pub fn from_str(s: &str) -> (res: Option<GeckoCode>)
        requires
            gecko_slices_ok(s@),
        ensures
            match res {
                Some(g) => parse_gecko(s@) == Some(g@),
                None => parse_gecko(s@) is None,
            },
    {
        let chars = chars_of(s);
        let ls = lines_exec(&chars);
        let ghost lv = ls.deep_view();
        if ls.len() == 0 {
            return None;
        }
        assert(lv[0] == ls[0]@) by {
            assert(ls[0].deep_view() =~= ls[0]@);
        }
        if ls[0].len() == 0 || ls[0][0] != '$' {
            assert(!starts_with(lv[0], seq!['$'])) by {
                if lv[0].len() >= 1 {
                    assert(lv[0].subrange(0, 1)[0] == lv[0][0]);
                }
            }
            return None;
        }
        assert(starts_with(lv[0], seq!['$'])) by {
            assert(lv[0].subrange(0, 1) =~= seq!['$']);
        }
        let header = trim_range(&ls[0], 1, ls[0].len());
        assert(ls[0]@.subrange(1, ls[0]@.len() as int) =~= lv[0].drop_first());
        let authors = authors_exec(&header);
        let mut acc = BodyAcc {
            description: Vec::new(),
            hex_lines: Vec::new(),
            hex_words: Vec::new(),
            addresses: Vec::new(),
        };
        let ghost body = lv.drop_first();
        let mut k: usize = 1;
        assert(body.skip(0) =~= body);
        assert(acc.description.deep_view() =~= seq![]);
        assert(acc.hex_lines.deep_view() =~= seq![]);
        assert(acc.hex_words.deep_view() =~= seq![]);
        assert(acc.addresses.deep_view() =~= seq![]);
        while k < ls.len()
            invariant
                1 <= k <= ls.len(),
                lv == ls.deep_view(),
                body == lv.drop_first(),
                lines_slice_ok(body.skip(k - 1)),
                body_fold(
                    body,
                    BodyModel {
                        description: seq![],
                        hex_lines: seq![],
                        hex_words: seq![],
                        addresses: seq![],
                    },
                ) == body_fold(body.skip(k - 1), acc.model()),
            decreases ls.len() - k,
        {
            let ghost rest = body.skip(k - 1);
            assert(rest[0] == ls[k as int]@) by {
                assert(ls[k as int].deep_view() =~= ls[k as int]@);
            }
            assert(rest.drop_first() =~= body.skip(k as int));
            body_step_exec(&mut acc, &ls[k]);
            k += 1;
        }
        assert(body.skip(k - 1) =~= seq![]);
        if header.len() == 0 || acc.hex_lines.len() == 0 {
            return None;
        }
        let authors_out = match authors {
            Some(list) => Some(strings_of(&list)),
            None => None,
        };
        let g = GeckoCode {
            header: string_of(&header),
            version: String::new(),
            authors: authors_out,
            description: Some(strings_of(&acc.description)),
            hex_lines: strings_of(&acc.hex_lines),
            hex_words: strings_of(&acc.hex_words),
            deprecated: false,
            addresses: Some(strings_of(&acc.addresses)),
            categories: Some(Vec::new()),
        };
        assert(g.categories.deep_view() =~= Some(Seq::<Seq<char>>::empty()));
        assert(g.version@ =~= Seq::<char>::empty());
        Some(g)
    }
}

/// The position of the first `]` in `h` at or after `k`.
fn close_exec(h: &[char], k: usize) -> (r: Option<usize>)
    ensures
        r matches Some(j) ==> k <= j < h.len(),
        match r {
            Some(j) => close_scan(h@, k as int) == Some(j as int),
            None => close_scan(h@, k as int) is None,
        },
{
    let mut j = k;
    while j < h.len()
        invariant
            k <= j,
            close_scan(h@, k as int) == close_scan(h@, j as int),
        decreases h.len() - j,
    {
        if h[j] == ']' {
            return Some(j);
        }
        j += 1;
    }
    None
}

/// The authors named in the header `h`.
fn authors_exec(h: &[char]) -> (r: Option<Vec<Vec<char>>>)
    ensures
        match r {
            Some(list) => header_authors(h@) == Some(list.deep_view()),
            None => header_authors(h@) is None,
        },
{
    let mut i: usize = 0;
    while i < h.len()
        invariant
            bracket_scan(h@, 0) == bracket_scan(h@, i as int),
        decreases h.len() - i,
    {
        if h[i] == '[' {
            match close_exec(h, i + 1) {
                Some(j) => {
                    if j > i + 1 {
                        let inner = copy_range(h, i + 1, j);
                        let comma: Vec<char> = vec![','];
                        assert(comma@ =~= seq![',']);
                        let pieces = split_exec(&inner, &comma);
                        let mut out: Vec<Vec<char>> = Vec::new();
                        let mut k: usize = 0;
                        while k < pieces.len()
                            invariant
                                k <= pieces.len(),
                                out.deep_view() == trim_each(pieces.deep_view()).subrange(
                                    0,
                                    k as int,
                                ),
                            decreases pieces.len() - k,
                        {
                            let t = trim_range(&pieces[k], 0, pieces[k].len());
                            proof {
                                assert(pieces[k as int]@.subrange(0, pieces[k as int]@.len() as int)
                                    =~= pieces[k as int]@);
                                assert(pieces[k as int].deep_view() =~= pieces[k as int]@);
                            }
                            push_text(&mut out, t);
                            assert(out.deep_view() =~= trim_each(pieces.deep_view()).subrange(
                                0,
                                k + 1,
                            ));
                            k += 1;
                        }
                        assert(out.deep_view() =~= trim_each(pieces.deep_view()));
                        return Some(out);
                    }
                },
                None => {},
            }
        }
        i += 1;
    }
    None
}

proof fn lemma_words_slice_ok_suffix(ws: Seq<Seq<char>>, j: int)
    requires
        0 <= j <= ws.len(),
        words_slice_ok(ws),
    ensures
        words_slice_ok(ws.skip(j)),
    decreases j,
{
    if j > 0 {
        lemma_words_slice_ok_suffix(ws.drop_first(), j - 1);
        assert(ws.drop_first().skip(j - 1) =~= ws.skip(j));
    } else {
        assert(ws.skip(0) =~= ws);
    }
}

proof fn lemma_lines_slice_ok_suffix(ls: Seq<Seq<char>>, j: int)
    requires
        0 <= j <= ls.len(),
        lines_slice_ok(ls),
    ensures
        lines_slice_ok(ls.skip(j)),
    decreases j,
{
    if j > 0 {
        lemma_lines_slice_ok_suffix(ls.drop_first(), j - 1);
        assert(ls.drop_first().skip(j - 1) =~= ls.skip(j));
    } else {
        assert(ls.skip(0) =~= ls);
    }
}

/// Whether the opcode of the upper-case code word `w` can be sliced off.
fn opcode_slice_ok_exec(w: &[char]) -> (b: bool)
    requires
        w.len() >= 2,
    ensures
        b == opcode_slice_ok(w@),
{
    let a = w[0] as u32;
    let c = w[1] as u32;
    (a < 0x80 && c < 0x80) || (0x80 <= a && a < 0x800)
}

/// Whether the code words of the trimmed code line `t` all have opcodes that can be sliced off.
fn words_slice_ok_exec(t: &[char]) -> (b: bool)
    ensures
        b == words_slice_ok(words(t@)),
{
    let ws = words_exec(t);
    let ghost all = ws.deep_view();
    let mut i = ws.len();
    assert(all.skip(all.len() as int) =~= seq![]);
    while i > 0
        invariant
            i <= ws.len(),
            all == ws.deep_view(),
            all == words(t@),
            words_slice_ok(all.skip(i as int)),
        decreases i,
    {
        i -= 1;
        assert(all.skip(i as int).drop_first() =~= all.skip(i + 1));
        assert(all[i as int] == ws[i as int]@) by {
            assert(ws[i as int].deep_view() =~= ws[i as int]@);
        }
        if is_code_word_exec(&ws[i]) {
            let u = upper_exec(&ws[i]);
            if !opcode_slice_ok_exec(&u) {
                proof {
                    assert(!words_slice_ok(all.skip(i as int)));
                    if words_slice_ok(all) {
                        lemma_words_slice_ok_suffix(all, i as int);
                    }
                    assert(all.skip(0) =~= all);
                }
                return false;
            }
        }
    }
    assert(all.skip(0) =~= all);
    true
}

/// Whether reading `s` as a Gecko code slices every opcode on a character boundary. Text for
/// which this is false is outside what `GeckoCode::from_str` accepts.
pub fn gecko_slices_ok_exec(s: &str) -> (b: bool)
    ensures
        b == gecko_slices_ok(s@),
{
    let chars = chars_of(s);
    let ls = lines_exec(&chars);
    let ghost lv = ls.deep_view();
    if ls.len() == 0 {
        return true;
    }
    assert(lv[0] == ls[0]@) by {
        assert(ls[0].deep_view() =~= ls[0]@);
    }
    if ls[0].len() == 0 || ls[0][0] != '$' {
        assert(!starts_with(lv[0], seq!['$'])) by {
            if lv[0].len() >= 1 {
                assert(lv[0].subrange(0, 1)[0] == lv[0][0]);
            }
        }
        return true;
    }
    assert(starts_with(lv[0], seq!['$'])) by {
        assert(lv[0].subrange(0, 1) =~= seq!['$']);
    }
    let ghost body = lv.drop_first();
    let mut k = ls.len();
    assert(body.skip(body.len() as int) =~= seq![]);
    while k > 1
        invariant
            1 <= k <= ls.len(),
            lv == ls.deep_view(),
            lv == lines(s@),
            starts_with(lv[0], seq!['$']),
            body == lv.drop_first(),
            lines_slice_ok(body.skip(k - 1)),
        decreases k,
    {
        k -= 1;
        assert(body.skip(k - 1).drop_first() =~= body.skip(k as int));
        assert(body.skip(k - 1)[0] == ls[k as int]@) by {
            assert(ls[k as int].deep_view() =~= ls[k as int]@);
        }
        let l = &ls[k];
        let starred = l.len() > 0 && l[0] == '*';
        assert(starred == starts_with(l@, seq!['*'])) by {
            if l@.len() >= 1 {
                assert(l@.subrange(0, 1)[0] == l@[0]);
                if l@[0] == '*' {
                    assert(l@.subrange(0, 1) =~= seq!['*']);
                }
            }
        }
        if !starred && is_code_line_exec(l) {
            let t = trim_range(l, 0, l.len());
            assert(l@.subrange(0, l@.len() as int) =~= l@);
            if !words_slice_ok_exec(&t) {
                proof {
                    assert(!lines_slice_ok(body.skip(k - 1)));
                    if lines_slice_ok(body) {
                        lemma_lines_slice_ok_suffix(body, k - 1);
                    }
                }
                return false;
            }
        }
    }
    assert(body.skip(0) =~= body);
    true
}

/// Whether `a` has the shape of an address: `0x` and eight more characters.
pub open spec fn address_shaped(a: Seq<char>) -> bool {
    a.len() == 10 && a[0] == '0' && a[1] == 'x'
}

/// Whether the body `st` holds only code words of eight characters and addresses of the
/// shape `0x` and eight hex digits.
pub open spec fn body_shaped(st: BodyModel) -> bool {
    &&& forall|k: int| 0 <= k < st.hex_words.len() ==> (#[trigger] st.hex_words[k]).len() == 8
    &&& forall|k: int| 0 <= k < st.addresses.len() ==> address_shaped(#[trigger] st.addresses[k])
}

proof fn lemma_word_address_shaped(w: Seq<char>)
    ensures
        word_address(w) matches Some(a) ==> address_shaped(a),
{
    if w.len() >= 8 {
        if let Some(odd) = opcode_kind(w[0], w[1]) {
            let digits = w.subrange(2, 8);
            let v = hex_value(digits) + (if odd {
                0x1000000nat
            } else {
                0nat
            });
            lemma_hex_digits_len(v, 8);
        }
    }
}

proof fn lemma_code_words_shaped(ws: Seq<Seq<char>>)
    ensures
        forall|k: int| 0 <= k < code_words(ws).len() ==> (#[trigger] code_words(ws)[k]).len() == 8,
        forall|k: int|
            0 <= k < code_addresses(ws).len() ==> address_shaped(#[trigger] code_addresses(ws)[k]),
    decreases ws.len(),
{
    if ws.len() > 0 {
        lemma_code_words_shaped(ws.drop_first());
        lemma_word_address_shaped(upper(ws[0]));
        let head = if is_code_word(ws[0]) {
            seq![upper(ws[0])]
        } else {
            seq![]
        };
        assert(code_words(ws) == head + code_words(ws.drop_first()));
        assert forall|k: int| 0 <= k < code_words(ws).len() implies (#[trigger] code_words(
            ws,
        )[k]).len() == 8 by {
            if k < head.len() {
                assert(code_words(ws)[k] == upper(ws[0]));
            } else {
                assert(code_words(ws)[k] == code_words(ws.drop_first())[k - head.len()]);
            }
        }
        let ahead = if is_code_word(ws[0]) {
            match word_address(upper(ws[0])) {
                Some(a) => seq![a],
                None => seq![],
            }
        } else {
            seq![]
        };
        assert(code_addresses(ws) == ahead + code_addresses(ws.drop_first()));
        assert forall|k: int| 0 <= k < code_addresses(ws).len() implies address_shaped(
            #[trigger] code_addresses(ws)[k],
        ) by {
            if k >= ahead.len() {
                assert(code_addresses(ws)[k] == code_addresses(ws.drop_first())[k - ahead.len()]);
            }
        }
    }
}

proof fn lemma_body_fold_shaped(ls: Seq<Seq<char>>, st: BodyModel)
    requires
        body_shaped(st),
    ensures
        body_shaped(body_fold(ls, st)),
    decreases ls.len(),
{
    if ls.len() > 0 {
        let l = ls[0];
        let next = body_step(st, l);
        if !starts_with(l, seq!['*']) && is_code_line(l) {
            let ws = words(trim(l));
            lemma_code_words_shaped(ws);
            assert forall|k: int| 0 <= k < next.hex_words.len() implies (
            #[trigger] next.hex_words[k]).len() == 8 by {
                if k >= st.hex_words.len() {
                    assert(next.hex_words[k] == code_words(ws)[k - st.hex_words.len()]);
                }
            }
            assert forall|k: int| 0 <= k < next.addresses.len() implies address_shaped(
                #[trigger] next.addresses[k],
            ) by {
                if k >= st.addresses.len() {
                    assert(next.addresses[k] == code_addresses(ws)[k - st.addresses.len()]);
                }
            }
        }
        lemma_body_fold_shaped(ls.drop_first(), next);
    }
}

/// A Gecko code read from text has a nonempty header and at least one line of code; its code
/// words have eight characters, and its addresses are `0x` followed by eight characters.
pub proof fn lemma_parsed_code_shape(s: Seq<char>)
    ensures
        parse_gecko(s) matches Some(g) ==> {
            &&& g.header.len() > 0
            &&& g.hex_lines.len() > 0
            &&& forall|k: int| 0 <= k < g.hex_words.len() ==> (#[trigger] g.hex_words[k]).len() == 8
            &&& g.addresses matches Some(l) && forall|k: int|
                0 <= k < l.len() ==> address_shaped(#[trigger] l[k])
        },
{
    let ls = lines(s);
    if ls.len() > 0 && starts_with(ls[0], seq!['$']) {
        let st = BodyModel {
            description: seq![],
            hex_lines: seq![],
            hex_words: seq![],
            addresses: seq![],
        };
        lemma_body_fold_shaped(ls.drop_first(), st);
    }
}

/// Whether each of the lines `ls` is empty or starts with whitespace.
pub open spec fn all_indented(ls: Seq<Seq<char>>) -> bool {
    forall|k: int| 0 <= k < ls.len() ==> (#[trigger] ls[k]).len() == 0 || white_space(ls[k][0])
}

proof fn lemma_body_fold_indented(ls: Seq<Seq<char>>, st: BodyModel)
    requires
        all_indented(ls),
    ensures
        body_fold(ls, st) == st,
    decreases ls.len(),
{
    if ls.len() > 0 {
        let l = ls[0];
        assert(l.len() == 0 || white_space(l[0]));
        if l.len() > 0 {
            assert(l.subrange(0, 1)[0] == l[0]);
        }
        assert(!starts_with(l, seq!['*']));
        assert(!is_code_line(l)) by {
            if l.len() >= 16 {
                assert(!line_char(l[0]));
            }
        }
        assert(all_indented(ls.drop_first())) by {
            assert forall|k: int| 0 <= k < ls.drop_first().len() implies (
            #[trigger] ls.drop_first()[k]).len() == 0 || white_space(ls.drop_first()[k][0]) by {
                assert(ls.drop_first()[k] == ls[k + 1]);
            }
        }
        lemma_body_fold_indented(ls.drop_first(), st);
    }
}

/// A line that is empty or starts with whitespace is neither a description line nor a line of
/// code, so a text whose lines after the first are all such lines holds no Gecko code: leading
/// whitespace has to be removed before a code is read.
pub proof fn lemma_indented_lines_hold_no_code(s: Seq<char>)
    requires
        all_indented(lines(s).drop_first()),
    ensures
        parse_gecko(s) is None,
{
    let ls = lines(s);
    if ls.len() > 0 && starts_with(ls[0], seq!['$']) {
        let st = BodyModel {
            description: seq![],
            hex_lines: seq![],
            hex_words: seq![],
            addresses: seq![],
        };
        lemma_body_fold_indented(ls.drop_first(), st);
    }
}

/// Reading a code does not depend on how its lines are broken: a text without carriage
/// returns gives the same code when each line break is written `\r\n`.
pub proof fn lemma_crlf_same_code(s: Seq<char>)
    requires
        no_cr(s),
    ensures
        parse_gecko(replace(s, "\n"@, "\r\n"@)) == parse_gecko(s),
{
    reveal_strlit("\n");
    reveal_strlit("\r\n");
    assert("\n"@ =~= seq!['\n']);
    assert("\r\n"@ =~= seq!['\r', '\n']);
    lemma_crlf_lines(s);
}

/// The opcodes of the Gecko code table whose code word carries an address, as published:
/// `00`-`09` (direct RAM writes), `20`-`2F` (32- and 16-bit if-codes), `A0`-`A7`
/// (Gecko-register if-codes), `C2`, `C3`, `C6`, `C7` (ASM codes: insert, execute, create a
/// branch) and `F2`, `F3`.
pub open spec fn table_opcode(a: char, b: char) -> bool {
    ||| a == '0' && ('0' <= b && b <= '9')
    ||| a == '2' && (('0' <= b && b <= '9') || ('A' <= b && b <= 'F'))
    ||| a == 'A' && ('0' <= b && b <= '7')
    ||| a == 'C' && (b == '2' || b == '3' || b == '6' || b == '7')
    ||| a == 'F' && (b == '2' || b == '3')
}

/// Whether the word `w` (upper case) is an opcode of the table followed by six hex digits.
pub open spec fn table_word(w: Seq<char>) -> bool {
    &&& w.len() >= 8
    &&& table_opcode(w[0], w[1])
    &&& forall|k: int| 2 <= k < 8 ==> ('0' <= #[trigger] w[k] && w[k] <= '9') || ('A' <= w[k] && w[k] <= 'F')
}

/// The address that a word of the table names: `0x` and the eight-digit hex value of its six
/// digits, plus `0x1000000` when the opcode's second digit is odd.
pub open spec fn table_address(w: Seq<char>) -> Seq<char> {
    let odd = w[1] == '1' || w[1] == '3' || w[1] == '5' || w[1] == '7' || w[1] == '9' || w[1] == 'B'
        || w[1] == 'D' || w[1] == 'F';
    seq!['0', 'x'] + hex_digits(
        hex_value(w.subrange(2, 8)) + (if odd {
            0x1000000nat
        } else {
            0nat
        }),
        8,
    )
}

/// Every word of the opcode table names its address; a word whose opcode is not in the table
/// names none.
pub proof fn lemma_table_word_address(w: Seq<char>)
    ensures
        table_word(w) ==> word_address(w) == Some(table_address(w)),
        w.len() >= 2 && !table_opcode(w[0], w[1]) ==> word_address(w) is None,
{
    if table_word(w) {
        let d = w.subrange(2, 8);
        assert forall|k: int| 0 <= k < d.len() implies is_hex_digit(#[trigger] d[k]) by {
            assert(d[k] == w[k + 2]);
        }
        assert(all_hex_digits(d));
    }
}

proof fn lemma_code_words_named(ws: Seq<Seq<char>>)
    ensures
        forall|k: int|
            0 <= k < code_words(ws).len() ==> (word_address(#[trigger] code_words(ws)[k]) matches Some(
                a,
            ) ==> code_addresses(ws).contains(a)),
    decreases ws.len(),
{
    if ws.len() > 0 {
        lemma_code_words_named(ws.drop_first());
        let rest_w = code_words(ws.drop_first());
        let rest_a = code_addresses(ws.drop_first());
        let head = if is_code_word(ws[0]) {
            seq![upper(ws[0])]
        } else {
            seq![]
        };
        let ahead = if is_code_word(ws[0]) {
            match word_address(upper(ws[0])) {
                Some(a) => seq![a],
                None => seq![],
            }
        } else {
            seq![]
        };
        assert(code_words(ws) == head + rest_w);
        assert(code_addresses(ws) == ahead + rest_a);
        assert forall|k: int| 0 <= k < code_words(ws).len() implies (word_address(
            #[trigger] code_words(ws)[k],
        ) matches Some(a) ==> code_addresses(ws).contains(a)) by {
            if let Some(a) = word_address(code_words(ws)[k]) {
                if k < head.len() {
                    assert(code_words(ws)[k] == upper(ws[0]));
                    assert(code_addresses(ws)[0] == a);
                } else {
                    assert(code_words(ws)[k] == rest_w[k - head.len()]);
                    let m = choose|m: int| 0 <= m < rest_a.len() && rest_a[m] == a;
                    assert(code_addresses(ws)[m + ahead.len()] == a);
                }
            }
        }
    }
}

/// Whether each word of `st` that names an address has that address among those of `st`.
spec fn words_named(st: BodyModel) -> bool {
    forall|k: int|
        0 <= k < st.hex_words.len() ==> (word_address(#[trigger] st.hex_words[k]) matches Some(a)
            ==> st.addresses.contains(a))
}

proof fn lemma_body_fold_named(ls: Seq<Seq<char>>, st: BodyModel)
    requires
        words_named(st),
    ensures
        words_named(body_fold(ls, st)),
    decreases ls.len(),
{
    if ls.len() > 0 {
        let l = ls[0];
        let next = body_step(st, l);
        if !starts_with(l, seq!['*']) && is_code_line(l) {
            let ws = words(trim(l));
            lemma_code_words_named(ws);
            assert forall|k: int| 0 <= k < next.hex_words.len() implies (word_address(
                #[trigger] next.hex_words[k],
            ) matches Some(a) ==> next.addresses.contains(a)) by {
                if let Some(a) = word_address(next.hex_words[k]) {
                    if k < st.hex_words.len() {
                        assert(next.hex_words[k] == st.hex_words[k]);
                        let m = choose|m: int| 0 <= m < st.addresses.len() && st.addresses[m] == a;
                        assert(next.addresses[m] == a);
                    } else {
                        let cw = code_words(ws);
                        let ca = code_addresses(ws);
                        assert(next.hex_words[k] == cw[k - st.hex_words.len()]);
                        let m = choose|m: int| 0 <= m < ca.len() && ca[m] == a;
                        assert(next.addresses[m + st.addresses.len()] == a);
                    }
                }
            }
        }
        lemma_body_fold_named(ls.drop_first(), next);
    }
}

/// A code read from text lists the address of each of its code words whose opcode is in the
/// table and whose other six characters are hex digits: `0x` and the eight-digit value of those
/// digits, plus `0x1000000` for an odd opcode.
pub proof fn lemma_code_addresses_named(s: Seq<char>)
    ensures
        parse_gecko(s) matches Some(g) ==> forall|k: int|
            0 <= k < g.hex_words.len() && table_word(#[trigger] g.hex_words[k])
                ==> g.addresses->0.contains(table_address(g.hex_words[k])),
{
    let ls = lines(s);
    if ls.len() > 0 && starts_with(ls[0], seq!['$']) {
        let st = BodyModel {
            description: seq![],
            hex_lines: seq![],
            hex_words: seq![],
            addresses: seq![],
        };
        lemma_body_fold_named(ls.drop_first(), st);
        if let Some(g) = parse_gecko(s) {
            assert forall|k: int|
                0 <= k < g.hex_words.len() && table_word(#[trigger] g.hex_words[k]) implies g.addresses->0.contains(
                table_address(g.hex_words[k]),
            ) by {
                lemma_table_word_address(g.hex_words[k]);
            }
        }
    }
}

proof fn lemma_body_fold_push(ls: Seq<Seq<char>>, l: Seq<char>, st: BodyModel)
    ensures
        body_fold(ls.push(l), st) == body_step(body_fold(ls, st), l),
    decreases ls.len(),
{
    let e = Seq::<Seq<char>>::empty();
    if ls.len() > 0 {
        assert(ls.push(l).drop_first() =~= ls.drop_first().push(l));
        assert(ls.push(l)[0] == ls[0]);
        lemma_body_fold_push(ls.drop_first(), l, body_step(st, ls[0]));
        assert(body_fold(ls.push(l), st) == body_fold(
            ls.push(l).drop_first(),
            body_step(st, ls.push(l)[0]),
        ));
        assert(body_fold(ls, st) == body_fold(ls.drop_first(), body_step(st, ls[0])));
    } else {
        assert(ls.push(l).drop_first() =~= e);
        assert(ls.push(l)[0] == l);
        assert(body_fold(e, body_step(st, l)) == body_step(st, l));
        assert(body_fold(ls.push(l), st) == body_fold(e, body_step(st, l)));
    }
}

/// Whether `l` is a description line.
pub open spec fn is_description_line(l: Seq<char>) -> bool {
    starts_with(l, seq!['*'])
}

/// Whether `l` is a line of code that is not a description line.
pub open spec fn is_hex_line(l: Seq<char>) -> bool {
    !starts_with(l, seq!['*']) && is_code_line(l)
}

proof fn lemma_body_fold_lines(ls: Seq<Seq<char>>, i: int)
    requires
        0 <= i <= ls.len(),
    ensures
        ({
            let st = body_fold(
                ls.take(i),
                BodyModel {
                    description: seq![],
                    hex_lines: seq![],
                    hex_words: seq![],
                    addresses: seq![],
                },
            );
            &&& st.description == ls.take(i).filter(|l: Seq<char>| is_description_line(l)).map_values(
                |l: Seq<char>| trim(l.drop_first()),
            )
            &&& st.hex_lines == ls.take(i).filter(|l: Seq<char>| is_hex_line(l)).map_values(
                |l: Seq<char>| trim(l),
            )
            &&& st.hex_words == ls.take(i).filter(|l: Seq<char>| is_hex_line(l)).map_values(
                |l: Seq<char>| code_words(words(trim(l))),
            ).flatten()
        }),
    decreases i,
{
    let st0 = BodyModel {
        description: seq![],
        hex_lines: seq![],
        hex_words: seq![],
        addresses: seq![],
    };
    if i == 0 {
        assert(ls.take(0) =~= Seq::<Seq<char>>::empty());
    } else {
        lemma_body_fold_lines(ls, i - 1);
        let t = ls.take(i);
        assert(t.drop_last() =~= ls.take(i - 1));
        assert(t =~= ls.take(i - 1).push(ls[i - 1]));
        lemma_body_fold_push(ls.take(i - 1), ls[i - 1], st0);
        reveal(Seq::filter);
        let pd = |l: Seq<char>| is_description_line(l);
        let ph = |l: Seq<char>| is_hex_line(l);
        assert(t.last() == ls[i - 1]);
        let fd = ls.take(i - 1).filter(pd);
        let fh = ls.take(i - 1).filter(ph);
        assert(t.filter(pd) == if pd(ls[i - 1]) {
            fd.push(ls[i - 1])
        } else {
            fd
        });
        assert(t.filter(ph) == if ph(ls[i - 1]) {
            fh.push(ls[i - 1])
        } else {
            fh
        });
        assert(fd.push(ls[i - 1]).map_values(|l: Seq<char>| trim(l.drop_first())) =~= fd.map_values(
            |l: Seq<char>| trim(l.drop_first()),
        ).push(trim(ls[i - 1].drop_first())));
        assert(fh.push(ls[i - 1]).map_values(|l: Seq<char>| trim(l)) =~= fh.map_values(
            |l: Seq<char>| trim(l),
        ).push(trim(ls[i - 1])));
        let cw = |l: Seq<char>| code_words(words(trim(l)));
        assert(fh.push(ls[i - 1]).map_values(cw) =~= fh.map_values(cw).push(cw(ls[i - 1])));
        fh.map_values(cw).lemma_flatten_push(cw(ls[i - 1]));
    }
}

/// What a code read from text holds, said line by line: its header is the first line without
/// its `$`, trimmed; its description the lines after it that start with `*`, each without the
/// `*` and trimmed; its lines of code the other lines after it that are lines of code,
/// trimmed; all in the order of the text. There is a code exactly when the first line starts
/// with `$`, the header is not empty, and at least one line of code follows.
pub proof fn lemma_code_by_lines(s: Seq<char>)
    ensures
        parse_gecko(s) is Some <==> ({
            let ls = lines(s);
            &&& ls.len() > 0
            &&& starts_with(ls[0], seq!['$'])
            &&& trim(ls[0].drop_first()).len() > 0
            &&& ls.drop_first().filter(|l: Seq<char>| is_hex_line(l)).len() > 0
        }),
        parse_gecko(s) matches Some(g) ==> ({
            let ls = lines(s);
            &&& g.header == trim(ls[0].drop_first())
            &&& g.description == Some(
                ls.drop_first().filter(|l: Seq<char>| is_description_line(l)).map_values(
                    |l: Seq<char>| trim(l.drop_first()),
                ),
            )
            &&& g.hex_lines == ls.drop_first().filter(|l: Seq<char>| is_hex_line(l)).map_values(
                |l: Seq<char>| trim(l),
            )
            &&& g.hex_words == ls.drop_first().filter(|l: Seq<char>| is_hex_line(l)).map_values(
                |l: Seq<char>| code_words(words(trim(l))),
            ).flatten()
            &&& g.authors == header_authors(g.header)
            &&& g.version == Seq::<char>::empty()
            &&& !g.deprecated
            &&& g.categories == Some(Seq::<Seq<char>>::empty())
        }),
{
    let ls = lines(s);
    if ls.len() > 0 {
        let rest = ls.drop_first();
        lemma_body_fold_lines(rest, rest.len() as int);
        assert(rest.take(rest.len() as int) =~= rest);
    }
}

proof fn lemma_close_scan(h: Seq<char>, k: int, c: int)
    requires
        0 <= k <= c < h.len(),
        h[c] == ']',
        forall|m: int| k <= m < c ==> h[m] != ']',
    ensures
        close_scan(h, k) == Some(c),
    decreases c - k,
{
    if k < c {
        lemma_close_scan(h, k + 1, c);
    }
}

proof fn lemma_bracket_scan(h: Seq<char>, i: int, o: int, c: int)
    requires
        0 <= i <= o,
        o + 1 < c < h.len(),
        h[o] == '[',
        h[c] == ']',
        forall|m: int| i <= m < o ==> h[m] != '[',
        forall|m: int| o < m < c ==> h[m] != ']',
    ensures
        bracket_scan(h, i) == Some((o + 1, c)),
    decreases o - i,
{
    if i < o {
        lemma_bracket_scan(h, i + 1, o, c);
    } else {
        lemma_close_scan(h, o + 1, c);
    }
}

proof fn lemma_bracket_scan_none(h: Seq<char>, i: int)
    requires
        0 <= i,
        forall|m: int| 0 <= m < h.len() ==> h[m] != '[',
    ensures
        bracket_scan(h, i) is None,
    decreases h.len() - i,
{
    if i < h.len() {
        lemma_bracket_scan_none(h, i + 1);
    }
}

/// The authors of a header are the comma-separated names, each trimmed, inside its first
/// `[...]` that holds something: for a header `p[x]q` where `p` has no `[` and `x` is not
/// empty and has no `]`, they are the pieces of `x` between commas, trimmed; a header without
/// `[` names no authors.
pub proof fn lemma_header_authors(p: Seq<char>, x: Seq<char>, q: Seq<char>)
    ensures
        (forall|m: int| 0 <= m < p.len() ==> p[m] != '[') && x.len() > 0 && (forall|m: int|
            0 <= m < x.len() ==> x[m] != ']') ==> header_authors(p + seq!['['] + x + seq![']'] + q)
            == Some(split(x, seq![',']).map_values(|a: Seq<char>| trim(a))),
        (forall|m: int| 0 <= m < p.len() ==> p[m] != '[') ==> header_authors(p) is None,
{
    let h = p + seq!['['] + x + seq![']'] + q;
    let o = p.len() as int;
    let c = o + 1 + x.len();
    if (forall|m: int| 0 <= m < p.len() ==> p[m] != '[') && x.len() > 0 && (forall|m: int|
        0 <= m < x.len() ==> x[m] != ']') {
        assert(h[o] == '[');
        assert(h[c] == ']');
        assert forall|m: int| 0 <= m < o implies h[m] != '[' by {
            assert(h[m] == p[m]);
        }
        assert forall|m: int| o < m < c implies h[m] != ']' by {
            assert(h[m] == x[m - o - 1]);
        }
        lemma_bracket_scan(h, 0, o, c);
        assert(h.subrange(o + 1, c) =~= x);
    }
    if forall|m: int| 0 <= m < p.len() ==> p[m] != '[' {
        lemma_bracket_scan_none(p, 0);
    }
}

proof fn lemma_filter_map_concat(a: Seq<Seq<char>>, b: Seq<Seq<char>>)
    ensures
        (a + b).filter_map(|w: Seq<char>| word_address(w)) == a.filter_map(
            |w: Seq<char>| word_address(w),
        ) + b.filter_map(|w: Seq<char>| word_address(w)),
    decreases b.len(),
{
    let f = |w: Seq<char>| word_address(w);
    if b.len() == 0 {
        assert(a + b =~= a);
        assert(b.filter_map(f) =~= Seq::<Seq<char>>::empty());
    } else {
        lemma_filter_map_concat(a, b.drop_last());
        assert((a + b).drop_last() =~= a + b.drop_last());
        assert((a + b).last() == b.last());
        match f(b.last()) {
            Some(x) => {
                assert((a + b).filter_map(f) =~= a.filter_map(f) + b.filter_map(f));
            },
            None => {
                assert((a + b).filter_map(f) =~= a.filter_map(f) + b.filter_map(f));
            },
        }
    }
}

/// The code words among words are those of eight characters of the word class, upper-cased,
/// in order; their addresses are what each names, in order.
pub proof fn lemma_code_words_filter(ws: Seq<Seq<char>>)
    ensures
        code_words(ws) == ws.filter(|w: Seq<char>| is_code_word(w)).map_values(
            |w: Seq<char>| upper(w),
        ),
        code_addresses(ws) == code_words(ws).filter_map(|w: Seq<char>| word_address(w)),
    decreases ws.len(),
{
    let p = |w: Seq<char>| is_code_word(w);
    let f = |w: Seq<char>| word_address(w);
    if ws.len() == 0 {
        reveal(Seq::filter);
        assert(ws.filter(p) =~= Seq::<Seq<char>>::empty());
        assert(code_words(ws).filter_map(f) =~= Seq::<Seq<char>>::empty());
    } else {
        let w0 = ws[0];
        let rest = ws.drop_first();
        lemma_code_words_filter(rest);
        assert(ws =~= seq![w0] + rest);
        rest.lemma_filter_prepend(w0, p);
        let head = if is_code_word(w0) {
            seq![upper(w0)]
        } else {
            seq![]
        };
        assert(code_words(ws) == head + code_words(rest));
        assert(code_words(ws) =~= ws.filter(p).map_values(|w: Seq<char>| upper(w)));
        lemma_filter_map_concat(head, code_words(rest));
        if is_code_word(w0) {
            Seq::<Seq<char>>::lemma_filter_map_singleton(upper(w0), f);
        } else {
            assert(head.filter_map(f) =~= Seq::<Seq<char>>::empty());
        }
        assert(code_addresses(ws) =~= code_words(ws).filter_map(f));
    }
}

/// Whether the addresses of `st` are those its words name, in order.
spec fn addresses_of_words(st: BodyModel) -> bool {
    st.addresses == st.hex_words.filter_map(|w: Seq<char>| word_address(w))
}

proof fn lemma_body_fold_addresses(ls: Seq<Seq<char>>, st: BodyModel)
    requires
        addresses_of_words(st),
    ensures
        addresses_of_words(body_fold(ls, st)),
    decreases ls.len(),
{
    if ls.len() > 0 {
        let l = ls[0];
        let next = body_step(st, l);
        if !starts_with(l, seq!['*']) && is_code_line(l) {
            let ws = words(trim(l));
            lemma_code_words_filter(ws);
            lemma_filter_map_concat(st.hex_words, code_words(ws));
        }
        lemma_body_fold_addresses(ls.drop_first(), next);
    }
}

/// The addresses of a code read from text are exactly those that its code words name, in the
/// order of the words.
pub proof fn lemma_code_addresses_of_words(s: Seq<char>)
    ensures
        parse_gecko(s) matches Some(g) ==> g.addresses == Some(
            g.hex_words.filter_map(|w: Seq<char>| word_address(w)),
        ),
{
    let ls = lines(s);
    if ls.len() > 0 && starts_with(ls[0], seq!['$']) {
        let st = BodyModel {
            description: seq![],
            hex_lines: seq![],
            hex_words: seq![],
            addresses: seq![],
        };
        assert(st.hex_words.filter_map(|w: Seq<char>| word_address(w)) =~= Seq::<Seq<char>>::empty());
        lemma_body_fold_addresses(ls.drop_first(), st);
    }
}

/// Why a text cannot be read as Gecko code.
#[derive(Debug, PartialEq, Clone, Copy)]
pub enum ReadError {
    /// A code word has an opcode whose first two bytes end inside a character.
    OpcodeOffBoundary,
}

impl GeckoCode {
    /// Reads a Gecko code as `from_str` does, after checking that every opcode can be sliced
    /// off: `Err` exactly when one cannot (where `from_str` does not apply).
    pub fn try_from_str(s: &str) -> (res: Result<Option<GeckoCode>, ReadError>)
        ensures
            res is Err <==> !gecko_slices_ok(s@),
            res matches Ok(r) ==> match r {
                Some(g) => parse_gecko(s@) == Some(g@),
                None => parse_gecko(s@) is None,
            },
    {
        if gecko_slices_ok_exec(s) {
            Ok(GeckoCode::from_str(s))
        } else {
            Err(ReadError::OpcodeOffBoundary)
        }
    }
}

} // verus!
