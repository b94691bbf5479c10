//! Splitting a page of Gecko codes into code blocks: cutting out the blocks, decoding the
//! HTML entities of the page, removing repeated blocks, and reading every block as a code.
use vstd::prelude::*;
use crate::text::{
    chars_of, find, find_exec, push_all, replace, replace_exec, split, split_exec, starts_with,
    string_of, trim, trim_end, trim_end_range, trim_range, trim_start,
    trim_start_at,
};
use crate::gecko::{gecko_slices_ok, parse_gecko, push_text, GeckoCode, GeckoCodeModel, ReadError};
use crate::text::{copy_range, matches_at, matches_at_exec};
use crate::text::{
    all_white, free_of, is_trimmed, lemma_crlf_absent, lemma_crlf_lines, lemma_find_bounds,
    lemma_free_no_match, lemma_lines_final_break, lemma_no_match_subrange, lemma_replace_no_match,
    lemma_replace_prefix, lemma_split_concat, lemma_split_no_match, lemma_split_nonempty,
    lemma_split_prefix, lemma_split_scan_shift, lemma_split_scan_skip, lemma_split_suffix,
    lemma_split_whole, lemma_trim_line_break, lemma_trim_shape, lemma_trim_start_concat,
    lemma_trim_white, lemma_trim_white_tail, lemma_trimmed_fixed, lines, no_cr, no_match,
    split_scan, white_space, breaks, part_of, lemma_free_concat, lemma_part_facts,
    lemma_breaks_concat, lemma_replace_free, lemma_replace_breaks, lemma_split_parts,
};

verus! {

/// One block of the page as it is kept: up to the end marker of the code listing if there
/// is one (`\n&lt;/pre&gt;`), else the block without trailing whitespace, prefixed with `$`
/// and followed by an empty line; a block that is all whitespace and has no end marker is
/// dropped.
pub open spec fn format_block(b: Seq<char>) -> Seq<char> {
    match find(b, "\n&lt;/pre&gt;"@) {
        Some(e) => seq!['$'] + b.subrange(0, e) + seq!['\n', '\n'],
        None => if trim(b).len() > 0 {
            seq!['$'] + trim_end(b) + seq!['\n', '\n']
        } else {
            seq![]
        },
    }
}

/// The blocks `bs`, each formatted with `format_block`, one after the other.
pub open spec fn format_blocks(bs: Seq<Seq<char>>) -> Seq<char>
    decreases bs.len(),
{
    if bs.len() == 0 {
        seq![]
    } else {
        format_block(bs[0]) + format_blocks(bs.drop_first())
    }
}

/// The HTML entities of the page decoded, in this order: `&amp;`, the closing `div` line
/// removed, three line breaks made two, then `&lt;`, `&gt;`, `&quot;`, `&apos;`, `&cent;`,
/// `&pound;`, `&yen;`, `&euro;`, `&copy;`, `&reg;`.
pub open spec fn decode_entities(s: Seq<char>) -> Seq<char> {
    let s = replace(s, "&amp;"@, "&"@);
    let s = replace(s, "\n&lt;/div&gt;\n"@, ""@);
    let s = replace(s, "\n\n\n"@, "\n\n"@);
    let s = replace(s, "&lt;"@, "<"@);
    let s = replace(s, "&gt;"@, ">"@);
    let s = replace(s, "&quot;"@, "\""@);
    let s = replace(s, "&apos;"@, "'"@);
    let s = replace(s, "&cent;"@, "\u{a2}"@);
    let s = replace(s, "&pound;"@, "\u{a3}"@);
    let s = replace(s, "&yen;"@, "\u{a5}"@);
    let s = replace(s, "&euro;"@, "\u{20ac}"@);
    let s = replace(s, "&copy;"@, "\u{a9}"@);
    replace(s, "&reg;"@, "\u{ae}"@)
}

/// The blocks of a page with `\r\n` line breaks made `\n`: split before each `$` that starts a
/// line; when the page (past leading whitespace) does not start with `$`, the text before the
/// first block is left out.
pub open spec fn page_blocks(normalized: Seq<char>) -> Seq<Seq<char>> {
    if starts_with(trim_start(normalized), "$"@) {
        split(seq!['\n'] + normalized, "\n$"@)
    } else {
        split(normalized, "\n$"@).drop_first()
    }
}

/// All Gecko codes of a page, as whole blocks of text: line breaks normalized, the page split
/// into blocks, each block formatted, and the HTML entities decoded.
pub open spec fn whole_gecko_codes(content: Seq<char>) -> Seq<char> {
    decode_entities(format_blocks(page_blocks(replace(content, "\r\n"@, "\n"@))))
}

/// The trimmed blocks of `ps` kept after `seen`: those not empty and not seen before.
pub open spec fn unique_blocks(ps: Seq<Seq<char>>, seen: Seq<Seq<char>>) -> Seq<Seq<char>>
    decreases ps.len(),
{
    if ps.len() == 0 {
        seen
    } else {
        let t = trim(ps[0]);
        if t.len() > 0 && !seen.contains(t) {
            unique_blocks(ps.drop_first(), seen.push(t))
        } else {
            unique_blocks(ps.drop_first(), seen)
        }
    }
}

/// The blocks `bs` written one after the other, each followed by a line break and all but
/// the first preceded by `\n$`.
pub open spec fn join_blocks(bs: Seq<Seq<char>>) -> Seq<char>
    decreases bs.len(),
{
    if bs.len() == 0 {
        seq![]
    } else if bs.len() == 1 {
        bs[0] + seq!['\n']
    } else {
        join_blocks(bs.drop_last()) + "\n$"@ + bs.last() + seq!['\n']
    }
}

/// The blocks of the whole codes without repetitions: each block trimmed, empty and repeated
/// blocks left out, the first occurrence kept, written back with `$` before each block and
/// without trailing whitespace.
pub open spec fn filtered_gecko_codes(whole: Seq<char>) -> Seq<char> {
    trim_end(
        seq!['$'] + join_blocks(unique_blocks(split(seq!['\n'] + whole, "\n$"@), seq![])),
    )
}

/// The blocks of a text of Gecko codes, ready to be read as codes: the text split before
/// each `$` that starts a line, and that `$` put back on all blocks after the first.
pub open spec fn code_blocks_of(input: Seq<char>) -> Seq<Seq<char>> {
    let bs = split(input, "\n$"@);
    Seq::new(bs.len(), |i: int| if i == 0 { bs[0] } else { seq!['$'] + bs[i] })
}

/// The Gecko codes read from the blocks `bs`, in order, leaving out the blocks that hold none.
pub open spec fn parse_blocks(bs: Seq<Seq<char>>) -> Seq<GeckoCodeModel>
    decreases bs.len(),
{
    if bs.len() == 0 {
        seq![]
    } else {
        (match parse_gecko(bs[0]) {
            Some(g) => seq![g],
            None => seq![],
        }) + parse_blocks(bs.drop_first())
    }
}

/// Whether every block of `input` can be read as a Gecko code without slicing an opcode off
/// a character boundary.
pub open spec fn blocks_slice_ok(input: Seq<char>) -> bool {
    forall|i: int| 0 <= i < code_blocks_of(input).len() ==> gecko_slices_ok(
        #[trigger] code_blocks_of(input)[i],
    )
}

/// The characters of the literal `lit`.
fn lit(l: &str) -> (v: Vec<char>)
    ensures
        v@ == l@,
{
    chars_of(l)
}

/// `s` with each occurrence of the literal `pat` replaced by the literal `rep`.
fn replace_lit(s: &Vec<char>, pat: &str, rep: &str) -> (r: Vec<char>)
    requires
        pat@.len() > 0,
    ensures
        r@ == replace(s@, pat@, rep@),
{
    let p = lit(pat);
    let q = lit(rep);
    replace_exec(s, &p, &q)
}

/// One block, formatted as `format_block` says.
fn format_block_exec(b: &[char]) -> (r: Vec<char>)
    ensures
        r@ == format_block(b@),
{
    proof {
        reveal_strlit("\n&lt;/pre&gt;");
    }
    let marker = lit("\n&lt;/pre&gt;");
    match find_exec(b, &marker) {
        Some(e) => {
            proof {
                crate::text::lemma_find_bounds(b@, marker@);
            }
            let mut out: Vec<char> = vec!['$'];
            let head = copy_range(b, 0, e);
            push_all(&mut out, &head);
            out.push('\n');
            out.push('\n');
            assert(out@ =~= seq!['$'] + b@.subrange(0, e as int) + seq!['\n', '\n']);
            out
        },
        None => {
            let t = trim_range(b, 0, b.len());
            assert(b@.subrange(0, b@.len() as int) =~= b@);
            if t.len() > 0 {
                let mut out: Vec<char> = vec!['$'];
                let body = trim_end_range(b, 0, b.len());
                push_all(&mut out, &body);
                out.push('\n');
                out.push('\n');
                assert(out@ =~= seq!['$'] + trim_end(b@) + seq!['\n', '\n']);
                out
            } else {
                Vec::new()
            }
        },
    }
}

/// The blocks `bs` from position `from` on, formatted and written one after the other.
fn format_blocks_exec(bs: &Vec<Vec<char>>, from: usize) -> (r: Vec<char>)
    requires
        from <= bs.len(),
    ensures
        r@ == format_blocks(bs.deep_view().skip(from as int)),
{
    let ghost all = bs.deep_view();
    let mut out: Vec<char> = Vec::new();
    let mut k = from;
    while k < bs.len()
        invariant
            from <= k <= bs.len(),
            all == bs.deep_view(),
            format_blocks(all.skip(from as int)) == out@ + format_blocks(all.skip(k as int)),
        decreases bs.len() - k,
    {
        let f = format_block_exec(&bs[k]);
        assert(all.skip(k as int)[0] == bs[k as int]@) by {
            assert(bs[k as int].deep_view() =~= bs[k as int]@);
        }
        assert(all.skip(k as int).drop_first() =~= all.skip(k + 1));
        let ghost before = out@;
        push_all(&mut out, &f);
        assert(before + format_blocks(all.skip(k as int)) =~= out@ + format_blocks(
            all.skip(k + 1),
        ));
        k += 1;
    }
    assert(format_blocks(all.skip(bs.len() as int)) =~= seq![]) by {
        assert(all.skip(bs.len() as int).len() == 0);
    }
    assert(out@ + seq![] =~= out@);
    out
}

/// The HTML entities of `s` decoded, as `decode_entities` says.
fn decode_entities_exec(s: &Vec<char>) -> (r: Vec<char>)
    ensures
        r@ == decode_entities(s@),
{
    proof {
        reveal_strlit("&amp;");
        reveal_strlit("\n&lt;/div&gt;\n");
        reveal_strlit("\n\n\n");
        reveal_strlit("&lt;");
        reveal_strlit("&gt;");
        reveal_strlit("&quot;");
        reveal_strlit("&apos;");
        reveal_strlit("&cent;");
        reveal_strlit("&pound;");
        reveal_strlit("&yen;");
        reveal_strlit("&euro;");
        reveal_strlit("&copy;");
        reveal_strlit("&reg;");
    }
    let s = replace_lit(s, "&amp;", "&");
    let s = replace_lit(&s, "\n&lt;/div&gt;\n", "");
    let s = replace_lit(&s, "\n\n\n", "\n\n");
    let s = replace_lit(&s, "&lt;", "<");
    let s = replace_lit(&s, "&gt;", ">");
    let s = replace_lit(&s, "&quot;", "\"");
    let s = replace_lit(&s, "&apos;", "'");
    let s = replace_lit(&s, "&cent;", "\u{a2}");
    let s = replace_lit(&s, "&pound;", "\u{a3}");
    let s = replace_lit(&s, "&yen;", "\u{a5}");
    let s = replace_lit(&s, "&euro;", "\u{20ac}");
    let s = replace_lit(&s, "&copy;", "\u{a9}");
    replace_lit(&s, "&reg;", "\u{ae}")
}

/// All Gecko codes of a page (the source text of the wiki page, or a file of codes) as whole
/// blocks of text, as `whole_gecko_codes` says.
pub fn extract_whole_gecko_codes(file_content: &str) -> (r: String)
    ensures
        r@ == whole_gecko_codes(file_content@),
{
    proof {
        reveal_strlit("\r\n");
        reveal_strlit("\n$");
        reveal_strlit("$");
    }
    let c = chars_of(file_content);
    let normalized = replace_lit(&c, "\r\n", "\n");
    let ts = trim_start_at(&normalized, 0, normalized.len());
    assert(normalized@.subrange(0, normalized@.len() as int) =~= normalized@);
    let dollar = lit("$");
    let starts = matches_at_exec(&normalized, ts, &dollar);
    let ghost rest = normalized@.subrange(ts as int, normalized@.len() as int);
    assert(rest == trim_start(normalized@));
    assert(starts == starts_with(rest, "$"@)) by {
        if rest.len() >= 1 {
            assert(rest.subrange(0, 1) =~= normalized@.subrange(ts as int, ts + 1));
        }
    }
    let sep = lit("\n$");
    let formatted;
    if starts {
        let mut t: Vec<char> = vec!['\n'];
        push_all(&mut t, &normalized);
        assert(t@ =~= seq!['\n'] + normalized@);
        let bs = split_exec(&t, &sep);
        assert(bs.deep_view().skip(0) =~= bs.deep_view());
        formatted = format_blocks_exec(&bs, 0);
    } else {
        let bs = split_exec(&normalized, &sep);
        proof {
            crate::text::lemma_split_nonempty(normalized@, sep@);
        }
        assert(bs.deep_view().skip(1) =~= bs.deep_view().drop_first());
        formatted = format_blocks_exec(&bs, 1);
    }
    let decoded = decode_entities_exec(&formatted);
    string_of(&decoded)
}

/// Whether `a` and `b` hold the same characters.
pub(crate) fn same_text(a: &[char], b: &[char]) -> (r: bool)
    ensures
        r == (a@ == b@),
{
    if a.len() != b.len() {
        return false;
    }
    let r = matches_at_exec(a, 0, b);
    assert(r == (a@ == b@)) by {
        assert(a@.subrange(0, a@.len() as int) =~= a@);
    }
    r
}

/// Whether `t` is one of the texts `v`.
pub(crate) fn contains_text(v: &Vec<Vec<char>>, t: &[char]) -> (r: bool)
    ensures
        r == v.deep_view().contains(t@),
{
    let mut k: usize = 0;
    while k < v.len()
        invariant
            k <= v.len(),
            forall|m: int| 0 <= m < k ==> v.deep_view()[m] != t@,
        decreases v.len() - k,
    {
        assert(v.deep_view()[k as int] == v[k as int]@) by {
            assert(v[k as int].deep_view() =~= v[k as int]@);
        }
        if same_text(&v[k], t) {
            return true;
        }
        k += 1;
    }
    false
}

/// The whole codes without repeated blocks, as `filtered_gecko_codes` says.
pub fn filter_duplicate_blocks(whole: &str) -> (r: String)
    ensures
        r@ == filtered_gecko_codes(whole@),
{
    proof {
        reveal_strlit("\n$");
    }
    let mut w: Vec<char> = vec!['\n'];
    let c = chars_of(whole);
    push_all(&mut w, &c);
    assert(w@ =~= seq!['\n'] + whole@);
    let sep = lit("\n$");
    let pieces = split_exec(&w, &sep);
    let ghost ps = pieces.deep_view();
    let mut seen: Vec<Vec<char>> = Vec::new();
    let mut out: Vec<char> = Vec::new();
    let mut k: usize = 0;
    assert(ps.skip(0) =~= ps);
    assert(seen.deep_view() =~= Seq::<Seq<char>>::empty());
    while k < pieces.len()
        invariant
            k <= pieces.len(),
            ps == pieces.deep_view(),
            ps == crate::text::split(seq!['\n'] + whole@, "\n$"@),
            unique_blocks(ps, seq![]) == unique_blocks(ps.skip(k as int), seen.deep_view()),
            out@ == join_blocks(seen.deep_view()),
        decreases pieces.len() - k,
    {
        assert(ps.skip(k as int)[0] == pieces[k as int]@) by {
            assert(pieces[k as int].deep_view() =~= pieces[k as int]@);
        }
        assert(ps.skip(k as int).drop_first() =~= ps.skip(k + 1));
        let t = trim_range(&pieces[k], 0, pieces[k].len());
        assert(pieces[k as int]@.subrange(0, pieces[k as int]@.len() as int) =~= pieces[k as int]@);
        if t.len() > 0 && !contains_text(&seen, &t) {
            let ghost before = seen.deep_view();
            if seen.len() > 0 {
                out.push('\n');
                out.push('$');
            }
            push_all(&mut out, &t);
            out.push('\n');
            push_text(&mut seen, t);
            proof {
                reveal_strlit("\n$");
                let now = seen.deep_view();
                assert(now.drop_last() =~= before);
                if before.len() == 0 {
                    assert(out@ =~= join_blocks(now));
                } else {
                    assert(out@ =~= join_blocks(now));
                }
            }
        }
        k += 1;
    }
    assert(ps.skip(pieces.len() as int) =~= seq![]);
    assert(unique_blocks(ps, seq![]) == seen.deep_view());
    let mut full: Vec<char> = vec!['$'];
    push_all(&mut full, &out);
    assert(full@ =~= seq!['$'] + out@);
    let trimmed = trim_end_range(&full, 0, full.len());
    assert(full@.subrange(0, full@.len() as int) =~= full@);
    string_of(&trimmed)
}

/// The blocks of a text of Gecko codes, ready to be read as codes, as `code_blocks_of` says.
pub fn split_code_blocks(input: &str) -> (r: Vec<String>)
    ensures
        r.deep_view() == code_blocks_of(input@),
{
    proof {
        reveal_strlit("\n$");
    }
    let c = chars_of(input);
    let sep = lit("\n$");
    let bs = split_exec(&c, &sep);
    let mut out: Vec<String> = Vec::new();
    let mut k: usize = 0;
    while k < bs.len()
        invariant
            k <= bs.len(),
            bs.deep_view() == split(input@, "\n$"@),
            out.deep_view() =~= code_blocks_of(input@).subrange(0, k as int),
        decreases bs.len() - k,
    {
        assert(bs.deep_view()[k as int] == bs[k as int]@) by {
            assert(bs[k as int].deep_view() =~= bs[k as int]@);
        }
        let s;
        if k == 0 {
            s = string_of(&bs[k]);
        } else {
            let mut b: Vec<char> = vec!['$'];
            push_all(&mut b, &bs[k]);
            assert(b@ =~= seq!['$'] + bs[k as int]@);
            s = string_of(&b);
        }
        let ghost before = out.deep_view();
        out.push(s);
        assert(out.deep_view() =~= before.push(s@));
        assert(code_blocks_of(input@)[k as int] == s@);
        k += 1;
    }
    out
}

/// The Gecko codes of a text of codes: the text split into code blocks, every block read with
/// `GeckoCode::from_str`, and the blocks that hold no code left out.
pub fn extract_and_destructure_gecko_codes(input: &str) -> (r: Vec<GeckoCode>)
    requires
        blocks_slice_ok(input@),
    ensures
        r@.map_values(|g: GeckoCode| g@) == parse_blocks(code_blocks_of(input@)),
{
    let blocks = split_code_blocks(input);
    let ghost bv = blocks.deep_view();
    let mut out: Vec<GeckoCode> = Vec::new();
    let mut k: usize = 0;
    assert(bv.skip(0) =~= bv);
    while k < blocks.len()
        invariant
            k <= blocks.len(),
            bv == blocks.deep_view(),
            bv == code_blocks_of(input@),
            blocks_slice_ok(input@),
            parse_blocks(bv) == out@.map_values(|g: GeckoCode| g@) + parse_blocks(
                bv.skip(k as int),
            ),
        decreases blocks.len() - k,
    {
        assert(bv.skip(k as int)[0] == blocks[k as int]@);
        assert(bv.skip(k as int).drop_first() =~= bv.skip(k + 1));
        assert(gecko_slices_ok(bv[k as int]));
        let ghost before = out@.map_values(|g: GeckoCode| g@);
        match GeckoCode::from_str(blocks[k].as_str()) {
            Some(g) => {
                out.push(g);
                assert(out@.map_values(|g: GeckoCode| g@) =~= before.push(g@));
            },
            None => {},
        }
        assert(before + parse_blocks(bv.skip(k as int)) =~= out@.map_values(|g: GeckoCode| g@)
            + parse_blocks(bv.skip(k + 1)));
        k += 1;
    }
    assert(bv.skip(blocks.len() as int) =~= seq![]);
    assert(out@.map_values(|g: GeckoCode| g@) + seq![] =~= out@.map_values(|g: GeckoCode| g@));
    out
}

/// Whether every block of `input` can be read with `GeckoCode::from_str` (see
/// `blocks_slice_ok`); input for which this is false is outside what
/// `extract_and_destructure_gecko_codes` accepts.
pub fn blocks_slice_ok_exec(input: &str) -> (b: bool)
    ensures
        b == blocks_slice_ok(input@),
{
    let blocks = split_code_blocks(input);
    let ghost bv = blocks.deep_view();
    let mut k: usize = 0;
    while k < blocks.len()
        invariant
            k <= blocks.len(),
            bv == blocks.deep_view(),
            bv == code_blocks_of(input@),
            forall|i: int| 0 <= i < k ==> gecko_slices_ok(#[trigger] bv[i]),
        decreases blocks.len() - k,
    {
        assert(bv[k as int] == blocks[k as int]@);
        if !crate::gecko::gecko_slices_ok_exec(blocks[k].as_str()) {
            return false;
        }
        k += 1;
    }
    true
}

/// The blocks that filtering keeps from the whole codes `whole`, in order.
pub open spec fn kept_blocks(whole: Seq<char>) -> Seq<Seq<char>> {
    unique_blocks(split(seq!['\n'] + whole, "\n$"@), seq![])
}

proof fn lemma_unique_blocks(ps: Seq<Seq<char>>, seen: Seq<Seq<char>>)
    requires
        seen.no_duplicates(),
        forall|k: int| 0 <= k < seen.len() ==> (#[trigger] seen[k]).len() > 0,
    ensures
        unique_blocks(ps, seen).no_duplicates(),
        forall|k: int|
            0 <= k < unique_blocks(ps, seen).len() ==> (#[trigger] unique_blocks(ps, seen)[k]).len()
                > 0,
        forall|t: Seq<char>|
            unique_blocks(ps, seen).contains(t) <==> (seen.contains(t) || (t.len() > 0 && exists|
                i: int,
            | 0 <= i < ps.len() && #[trigger] trim(ps[i]) == t)),
    decreases ps.len(),
{
    if ps.len() > 0 {
        let t0 = trim(ps[0]);
        let rest = ps.drop_first();
        let next = if t0.len() > 0 && !seen.contains(t0) {
            seen.push(t0)
        } else {
            seen
        };
        if t0.len() > 0 && !seen.contains(t0) {
            assert forall|i: int, j: int| 0 <= i < j < next.len() implies next[i] != next[j] by {
                if j == seen.len() {
                    assert(seen.contains(seen[i]));
                }
            }
        }
        assert forall|k: int| 0 <= k < next.len() implies (#[trigger] next[k]).len() > 0 by {
            if k < seen.len() {
                assert(next[k] == seen[k]);
            }
        }
        lemma_unique_blocks(rest, next);
        assert(unique_blocks(ps, seen) == unique_blocks(rest, next));
        assert forall|t: Seq<char>|
            unique_blocks(ps, seen).contains(t) <==> (seen.contains(t) || (t.len() > 0 && exists|
                i: int,
            | 0 <= i < ps.len() && #[trigger] trim(ps[i]) == t)) by {
            let u = unique_blocks(ps, seen);
            let in_ps = exists|i: int| 0 <= i < ps.len() && #[trigger] trim(ps[i]) == t;
            let in_rest = exists|i: int| 0 <= i < rest.len() && #[trigger] trim(rest[i]) == t;
            assert(u.contains(t) <==> (next.contains(t) || (t.len() > 0 && in_rest)));
            if in_rest {
                let i = choose|i: int| 0 <= i < rest.len() && #[trigger] trim(rest[i]) == t;
                assert(rest[i] == ps[i + 1]);
                assert(trim(ps[i + 1]) == t);
                assert(in_ps);
            }
            if next.contains(t) && !seen.contains(t) {
                let k = choose|k: int| 0 <= k < next.len() && next[k] == t;
                if k < seen.len() {
                    assert(next[k] == seen[k]);
                    assert(seen.contains(t));
                }
                assert(t == t0);
                assert(trim(ps[0]) == t);
                assert(in_ps);
            }
            if seen.contains(t) {
                let k = choose|k: int| 0 <= k < seen.len() && seen[k] == t;
                assert(next[k] == t);
                assert(next.contains(t));
            }
            if t.len() > 0 && in_ps {
                let i = choose|i: int| 0 <= i < ps.len() && #[trigger] trim(ps[i]) == t;
                if i == 0 {
                    if !seen.contains(t) {
                        assert(next[seen.len() as int] == t);
                        assert(next.contains(t));
                    }
                } else {
                    assert(rest[i - 1] == ps[i]);
                    assert(trim(rest[i - 1]) == t);
                    assert(in_rest);
                }
            }
        }
    }
}

/// Filtering keeps each nonempty trimmed block of the whole codes once: the kept blocks are
/// all different, none is empty, and a text is kept exactly when some block trims to it.
pub proof fn lemma_filtered_blocks(whole: Seq<char>)
    ensures
        kept_blocks(whole).no_duplicates(),
        forall|k: int| 0 <= k < kept_blocks(whole).len() ==> (#[trigger] kept_blocks(whole)[k]).len() > 0,
        forall|t: Seq<char>|
            kept_blocks(whole).contains(t) <==> (t.len() > 0 && exists|i: int|
                0 <= i < split(seq!['\n'] + whole, "\n$"@).len() && #[trigger] trim(
                    split(seq!['\n'] + whole, "\n$"@)[i],
                ) == t),
{
    let e = Seq::<Seq<char>>::empty();
    assert(e.no_duplicates());
    assert forall|t: Seq<char>| !e.contains(t) by {}
    let ps = split(seq!['\n'] + whole, "\n$"@);
    lemma_unique_blocks(ps, e);
    assert(kept_blocks(whole) == unique_blocks(ps, e));
    assert forall|t: Seq<char>|
        kept_blocks(whole).contains(t) <==> (t.len() > 0 && exists|i: int|
            0 <= i < ps.len() && #[trigger] trim(ps[i]) == t) by {
        assert(!e.contains(t));
    }
}

/// The Gecko codes of a text of codes, as `extract_and_destructure_gecko_codes` reads them,
/// after checking that every block can be read: `Err` exactly when one cannot.
pub fn try_extract_and_destructure_gecko_codes(input: &str) -> (r: Result<Vec<GeckoCode>, ReadError>)
    ensures
        r is Err <==> !blocks_slice_ok(input@),
        r matches Ok(codes) ==> codes@.map_values(|g: GeckoCode| g@) == parse_blocks(
            code_blocks_of(input@),
        ),
{
    if blocks_slice_ok_exec(input) {
        Ok(extract_and_destructure_gecko_codes(input))
    } else {
        Err(ReadError::OpcodeOffBoundary)
    }
}

/// The blocks `k` written one after the other, each after the first preceded by `\n\n$`.
pub open spec fn flat_blocks(k: Seq<Seq<char>>) -> Seq<char>
    decreases k.len(),
{
    if k.len() == 0 {
        seq![]
    } else if k.len() == 1 {
        k[0]
    } else {
        flat_blocks(k.drop_last()) + seq!['\n', '\n', '$'] + k.last()
    }
}

/// `flat_blocks`, built from the front.
pub open spec fn front_blocks(k: Seq<Seq<char>>) -> Seq<char>
    decreases k.len(),
{
    if k.len() == 0 {
        seq![]
    } else if k.len() == 1 {
        k[0]
    } else {
        k[0] + seq!['\n', '\n', '$'] + front_blocks(k.drop_first())
    }
}

/// The pieces that splitting `front_blocks(k)` yields: each block but the last with its line
/// break.
pub open spec fn block_pieces(k: Seq<Seq<char>>) -> Seq<Seq<char>> {
    Seq::new(
        k.len(),
        |i: int|
            if i < k.len() - 1 {
                k[i] + seq!['\n']
            } else {
                k[i]
            },
    )
}

/// Whether the blocks `k` are nonempty, trimmed, free of `\n$`, and all different.
pub open spec fn clean_blocks(k: Seq<Seq<char>>) -> bool {
    &&& k.no_duplicates()
    &&& forall|i: int|
        0 <= i < k.len() ==> (#[trigger] k[i]).len() > 0 && is_trimmed(k[i]) && no_match(
            k[i],
            "\n$"@,
        )
}

proof fn lemma_join_flat(k: Seq<Seq<char>>)
    requires
        k.len() >= 1,
    ensures
        join_blocks(k) == flat_blocks(k) + seq!['\n'],
    decreases k.len(),
{
    reveal_strlit("\n$");
    if k.len() > 1 {
        lemma_join_flat(k.drop_last());
        assert(join_blocks(k) =~= flat_blocks(k) + seq!['\n']);
    }
}

proof fn lemma_flat_front(k: Seq<Seq<char>>)
    ensures
        flat_blocks(k) == front_blocks(k),
    decreases k.len(),
{
    let x = seq!['\n', '\n', '$'];
    if k.len() > 2 {
        let dl = k.drop_last();
        let df = k.drop_first();
        lemma_flat_front(dl);
        lemma_flat_front(df);
        lemma_flat_front(df.drop_last());
        assert(dl.drop_first() =~= df.drop_last());
        assert(df.last() == k.last());
        assert(dl[0] == k[0]);
        assert(flat_blocks(k) == flat_blocks(dl) + x + k.last());
        assert(flat_blocks(dl) == front_blocks(dl));
        assert(front_blocks(dl) == dl[0] + x + front_blocks(dl.drop_first()));
        assert(front_blocks(k) == k[0] + x + front_blocks(df));
        assert(front_blocks(df) == flat_blocks(df));
        assert(flat_blocks(df) == flat_blocks(df.drop_last()) + x + df.last());
        assert(flat_blocks(df.drop_last()) == front_blocks(df.drop_last()));
        assert(flat_blocks(k) =~= front_blocks(k));
    } else if k.len() == 2 {
        assert(k.drop_last()[0] == k[0]);
        assert(k.drop_first()[0] == k.last());
        assert(flat_blocks(k.drop_last()) == k[0]);
        assert(front_blocks(k.drop_first()) == k.last());
        assert(flat_blocks(k) =~= front_blocks(k));
    }
}

/// Whether the blocks `k` can be split apart again: nonempty, not ending in a line break, and
/// free of `\n$`.
pub open spec fn separable_blocks(k: Seq<Seq<char>>) -> bool {
    forall|i: int|
        0 <= i < k.len() ==> (#[trigger] k[i]).len() > 0 && k[i].last() != '\n' && no_match(
            k[i],
            "\n$"@,
        )
}

proof fn lemma_clean_separable(k: Seq<Seq<char>>)
    requires
        clean_blocks(k),
    ensures
        separable_blocks(k),
{
    assert(white_space('\n'));
    assert forall|i: int| 0 <= i < k.len() implies (#[trigger] k[i]).len() > 0 && k[i].last()
        != '\n' && no_match(k[i], "\n$"@) by {
        assert(is_trimmed(k[i]));
    }
}

proof fn lemma_split_front(k: Seq<Seq<char>>)
    requires
        k.len() >= 1,
        separable_blocks(k),
    ensures
        split(front_blocks(k), "\n$"@) == block_pieces(k),
    decreases k.len(),
{
    reveal_strlit("\n$");
    let pat = "\n$"@;
    let s = front_blocks(k);
    let k0 = k[0];
    assert(no_match(k0, pat));
    if k.len() == 1 {
        assert(s == k0);
        lemma_split_scan_skip(s, pat, 0, 0, s.len() as int);
        assert(s.subrange(0, s.len() as int) =~= s);
        assert(block_pieces(k) =~= seq![k0]);
    } else {
        let rest = k.drop_first();
        let n = k0.len() as int;
        let p = k0 + seq!['\n', '\n', '$'];
        assert(s == p + front_blocks(rest));
        assert(k0.last() != '\n');
        assert forall|m: int| 0 <= m < n + 1 implies !#[trigger] matches_at(s, pat, m) by {
            if matches_at(s, pat, m) {
                if m + 2 <= n {
                    assert(s.subrange(m, m + 2) =~= k0.subrange(m, m + 2));
                    assert(matches_at(k0, pat, m));
                } else if m == n - 1 {
                    assert(s[m] == k0.last());
                    assert(s.subrange(m, m + 2)[0] == s[m]);
                } else {
                    assert(s[m + 1] == '\n');
                    assert(s.subrange(m, m + 2)[1] == s[m + 1]);
                }
            }
        }
        lemma_split_scan_skip(s, pat, 0, 0, n + 1);
        assert(s.subrange(n + 1, n + 3) =~= pat);
        assert(matches_at(s, pat, n + 1));
        assert(s.subrange(0, n + 1) =~= k0 + seq!['\n']);
        lemma_split_scan_shift(p, front_blocks(rest), pat, 0, 0);
        assert(separable_blocks(rest)) by {
            assert forall|i: int| 0 <= i < rest.len() implies (#[trigger] rest[i]).len() > 0
                && rest[i].last() != '\n' && no_match(rest[i], "\n$"@) by {
                assert(rest[i] == k[i + 1]);
            }
        }
        lemma_split_front(rest);
        assert(split(s, pat) == seq![k0 + seq!['\n']] + block_pieces(rest));
        assert(block_pieces(k) =~= seq![k0 + seq!['\n']] + block_pieces(rest));
    }
}

proof fn lemma_unique_pieces(k: Seq<Seq<char>>, seen: Seq<Seq<char>>)
    requires
        clean_blocks(k),
        forall|i: int| 0 <= i < k.len() ==> !seen.contains(#[trigger] k[i]),
    ensures
        unique_blocks(block_pieces(k), seen) == seen + k,
    decreases k.len(),
{
    let ps = block_pieces(k);
    if k.len() == 0 {
        assert(seen + k =~= seen);
    } else {
        let k0 = k[0];
        lemma_trimmed_fixed(k0);
        if k.len() > 1 {
            lemma_trim_line_break(k0);
        }
        assert(trim(ps[0]) == k0);
        assert(!seen.contains(k0));
        let rest = k.drop_first();
        assert(ps.drop_first() =~= block_pieces(rest));
        assert(clean_blocks(rest)) by {
            assert forall|i: int| 0 <= i < rest.len() implies (#[trigger] rest[i]).len() > 0
                && is_trimmed(rest[i]) && no_match(rest[i], "\n$"@) by {
                assert(rest[i] == k[i + 1]);
            }
            assert forall|i: int, j: int| 0 <= i < rest.len() && 0 <= j < rest.len() && i != j implies rest[i] != rest[j] by {
                assert(rest[i] == k[i + 1]);
                assert(rest[j] == k[j + 1]);
            }
        }
        assert forall|i: int| 0 <= i < rest.len() implies !seen.push(k0).contains(#[trigger] rest[i]) by {
            assert(rest[i] == k[i + 1]);
            assert(k[i + 1] != k[0]);
            if seen.push(k0).contains(rest[i]) {
                let j = choose|j: int| 0 <= j < seen.push(k0).len() && seen.push(k0)[j] == rest[i];
                if j < seen.len() {
                    assert(seen.contains(k[i + 1]));
                }
            }
        }
        lemma_unique_pieces(rest, seen.push(k0));
        assert(seen.push(k0) + rest =~= seen + k);
    }
}

/// The kept blocks are clean: different, nonempty, trimmed, and free of `\n$`.
proof fn lemma_kept_clean(whole: Seq<char>)
    ensures
        clean_blocks(kept_blocks(whole)),
{
    reveal_strlit("\n$");
    let ps = split(seq!['\n'] + whole, "\n$"@);
    let k = kept_blocks(whole);
    lemma_filtered_blocks(whole);
    lemma_split_no_match(seq!['\n'] + whole, "\n$"@);
    assert forall|i: int| 0 <= i < k.len() implies (#[trigger] k[i]).len() > 0 && is_trimmed(k[i])
        && no_match(k[i], "\n$"@) by {
        assert(k.contains(k[i]));
        let j = choose|j: int| 0 <= j < ps.len() && #[trigger] trim(ps[j]) == k[i];
        let r = lemma_trim_shape(ps[j]);
        lemma_no_match_subrange(ps[j], "\n$"@, r.0, r.1);
    }
}

/// Filtering filtered codes changes nothing: the blocks of the filtered text are the kept
/// blocks again, each once.
pub proof fn lemma_filtering_idempotent(whole: Seq<char>)
    ensures
        filtered_gecko_codes(filtered_gecko_codes(whole)) == filtered_gecko_codes(whole),
{
    reveal_strlit("\n$");
    let pat = "\n$"@;
    let k = kept_blocks(whole);
    let f = filtered_gecko_codes(whole);
    lemma_kept_clean(whole);
    lemma_filtered_shape(whole);
    if k.len() == 0 {
        let t = seq!['\n'] + f;
        assert(t =~= seq!['\n', '$']);
        assert(t.subrange(0, 2) =~= pat);
        assert(split(t, pat) =~= seq![seq![], seq![]]) by {
            assert(t.subrange(0, 0) =~= Seq::<char>::empty());
            assert(t.subrange(2, 2) =~= Seq::<char>::empty());
            assert(matches_at(t, pat, 0));
            assert(split_scan(t, pat, 2, 2) == seq![t.subrange(2, 2)]);
            assert(split_scan(t, pat, 0, 0) == seq![t.subrange(0, 0)] + split_scan(t, pat, 2, 2));
        }
        assert(trim(Seq::<char>::empty()) =~= Seq::<char>::empty());
        assert(unique_blocks(split(t, pat), seq![]) =~= seq![]) by {
            let ps = split(t, pat);
            let e = Seq::<Seq<char>>::empty();
            assert(ps.drop_first().drop_first() =~= Seq::<Seq<char>>::empty());
            assert(ps[0] == Seq::<char>::empty());
            assert(ps.drop_first()[0] == Seq::<char>::empty());
            assert(unique_blocks(ps.drop_first().drop_first(), e) == e);
            assert(unique_blocks(ps.drop_first(), e) == unique_blocks(ps.drop_first().drop_first(), e));
            assert(unique_blocks(ps, e) == unique_blocks(ps.drop_first(), e));
        }
    } else {
        let t = seq!['\n'] + f;
        assert(t =~= pat + front_blocks(k));
        lemma_clean_separable(k);
        lemma_split_front(k);
        assert(t.subrange(0, 2) =~= pat);
        lemma_split_scan_shift(pat, front_blocks(k), pat, 0, 0);
        assert(t.subrange(0, 0) =~= Seq::<char>::empty());
        let ps = split(t, pat);
        assert(ps == seq![Seq::<char>::empty()] + block_pieces(k));
        assert(trim(Seq::<char>::empty()) =~= Seq::<char>::empty());
        assert(ps.drop_first() =~= block_pieces(k));
        assert(unique_blocks(ps, seq![]) == unique_blocks(block_pieces(k), seq![]));
        lemma_unique_pieces(k, seq![]);
        assert(Seq::<Seq<char>>::empty() + k =~= k);
    }
}

/// The code blocks of filtered codes are the kept blocks, each with its `$` back (and a line
/// break after all but the last): what is read as codes from the filtered text is each kept
/// block once.
pub proof fn lemma_filtered_code_blocks(whole: Seq<char>)
    ensures
        kept_blocks(whole).len() > 0 ==> code_blocks_of(filtered_gecko_codes(whole))
            == block_pieces(kept_blocks(whole)).map_values(|b: Seq<char>| seq!['$'] + b),
        kept_blocks(whole).len() == 0 ==> code_blocks_of(filtered_gecko_codes(whole)) == seq![
            seq!['$'],
        ],
{
    reveal_strlit("\n$");
    let pat = "\n$"@;
    let k = kept_blocks(whole);
    let f = filtered_gecko_codes(whole);
    lemma_kept_clean(whole);
    lemma_clean_separable(k);
    lemma_filtered_shape(whole);
    if k.len() == 0 {
        assert(split_scan(f, pat, 0, 0) == seq![f.subrange(0, 1)]);
        assert(f.subrange(0, 1) =~= f);
        assert(code_blocks_of(f) =~= seq![seq!['$']]);
    } else {
        let k0 = k[0];
        let k2 = k.update(0, seq!['$'] + k0);
        assert(front_blocks(k2) =~= f) by {
            if k.len() > 1 {
                assert(k2.drop_first() =~= k.drop_first());
            }
        }
        assert(separable_blocks(k2)) by {
            assert forall|i: int| 0 <= i < k2.len() implies (#[trigger] k2[i]).len() > 0
                && k2[i].last() != '\n' && no_match(k2[i], pat) by {
                if i == 0 {
                    let d = seq!['$'] + k0;
                    assert(d.last() == k0.last());
                    assert forall|m: int| !#[trigger] matches_at(d, pat, m) by {
                        if matches_at(d, pat, m) {
                            if m == 0 {
                                assert(d.subrange(0, 2)[0] == d[0]);
                            } else {
                                assert(d.subrange(m, m + 2) =~= k0.subrange(m - 1, m + 1));
                                assert(matches_at(k0, pat, m - 1));
                            }
                        }
                    }
                }
            }
        }
        lemma_split_front(k2);
        let bp = block_pieces(k);
        let bp2 = block_pieces(k2);
        assert(code_blocks_of(f) =~= bp.map_values(|b: Seq<char>| seq!['$'] + b)) by {
            assert(split(f, pat) == bp2);
            assert forall|i: int| 0 <= i < bp.len() implies #[trigger] code_blocks_of(f)[i] == seq![
                '$',
            ] + bp[i] by {
                if i == 0 {
                    if k.len() > 1 {
                        assert(bp2[0] =~= seq!['$'] + bp[0]);
                    } else {
                        assert(bp2[0] =~= seq!['$'] + bp[0]);
                    }
                } else {
                    assert(bp2[i] == bp[i]);
                }
            }
        }
    }
}

/// Reading the same codes from blocks that read alike.
proof fn lemma_parse_blocks_alike(a: Seq<Seq<char>>, b: Seq<Seq<char>>)
    requires
        a.len() == b.len(),
        forall|i: int| 0 <= i < a.len() ==> parse_gecko(#[trigger] a[i]) == parse_gecko(b[i]),
    ensures
        parse_blocks(a) == parse_blocks(b),
    decreases a.len(),
{
    if a.len() > 0 {
        assert(parse_gecko(a[0]) == parse_gecko(b[0]));
        assert forall|i: int| 0 <= i < a.drop_first().len() implies parse_gecko(
            #[trigger] a.drop_first()[i],
        ) == parse_gecko(b.drop_first()[i]) by {
            assert(a.drop_first()[i] == a[i + 1]);
            assert(b.drop_first()[i] == b[i + 1]);
        }
        lemma_parse_blocks_alike(a.drop_first(), b.drop_first());
    }
}

/// Reading the filtered codes gives exactly the codes of the kept blocks, each read once with
/// its `$` back, in the order in which they were kept: the line break that ends each block
/// but the last changes nothing of what is read from it.
pub proof fn lemma_filtered_codes_read(whole: Seq<char>)
    ensures
        parse_blocks(code_blocks_of(filtered_gecko_codes(whole))) == parse_blocks(
            kept_blocks(whole).map_values(|b: Seq<char>| seq!['$'] + b),
        ),
{
    let k = kept_blocks(whole);
    let cb = code_blocks_of(filtered_gecko_codes(whole));
    let want = k.map_values(|b: Seq<char>| seq!['$'] + b);
    lemma_filtered_code_blocks(whole);
    lemma_kept_clean(whole);
    if k.len() == 0 {
        let d = seq!['$'];
        assert(lines(d) == seq![d]) by {
            assert(d[0] != '\n');
            assert(d.subrange(0, 1) =~= d);
            assert(crate::text::lines_scan(d, 0, 1) == seq![d.subrange(0, 1)]);
            assert(crate::text::lines_scan(d, 0, 0) == crate::text::lines_scan(d, 0, 1));
        }
        assert(d.drop_first() =~= Seq::<char>::empty());
        assert(trim(Seq::<char>::empty()) =~= Seq::<char>::empty());
        assert(parse_gecko(d) is None);
        assert(cb.drop_first() =~= Seq::<Seq<char>>::empty());
        assert(cb[0] == d);
        assert(parse_blocks(cb.drop_first()) =~= Seq::<GeckoCodeModel>::empty());
        assert(parse_blocks(cb) =~= Seq::<GeckoCodeModel>::empty());
        assert(want =~= Seq::<Seq<char>>::empty());
    } else {
        let bp = block_pieces(k);
        assert(white_space('\n'));
        assert(white_space('\r'));
        assert forall|i: int| 0 <= i < cb.len() implies parse_gecko(#[trigger] cb[i]) == parse_gecko(
            want[i],
        ) by {
            assert(cb[i] == seq!['$'] + bp[i]);
            assert(want[i] == seq!['$'] + k[i]);
            if i < k.len() - 1 {
                let x = seq!['$'] + k[i];
                assert(is_trimmed(k[i]) && k[i].len() > 0);
                assert(x.last() == k[i].last());
                assert(cb[i] =~= x.push('\n'));
                lemma_lines_final_break(x);
            }
        }
        lemma_parse_blocks_alike(cb, want);
    }
}

/// Line breaks are normalized first: a page without carriage returns gives the same whole
/// codes when each of its line breaks is written `\r\n`.
pub proof fn lemma_crlf_same_whole(content: Seq<char>)
    requires
        no_cr(content),
    ensures
        whole_gecko_codes(replace(content, "\n"@, "\r\n"@)) == whole_gecko_codes(content),
{
    reveal_strlit("\n");
    reveal_strlit("\r\n");
    assert("\n"@ =~= seq!['\n']);
    assert("\r\n"@ =~= seq!['\r', '\n']);
    lemma_crlf_lines(content);
    lemma_crlf_absent(content);
}

/// The codes read from two lists of blocks one after the other are the codes of the first
/// list and then those of the second.
pub proof fn lemma_parse_blocks_concat(a: Seq<Seq<char>>, b: Seq<Seq<char>>)
    ensures
        parse_blocks(a + b) == parse_blocks(a) + parse_blocks(b),
    decreases a.len(),
{
    if a.len() == 0 {
        assert(a + b =~= b);
    } else {
        assert((a + b).drop_first() =~= a.drop_first() + b);
        assert((a + b)[0] == a[0]);
        lemma_parse_blocks_concat(a.drop_first(), b);
    }
}

/// The code blocks of two texts joined by a line break, the second starting with `$`, are
/// the code blocks of the first and then those of the second.
pub proof fn lemma_code_blocks_concat(x: Seq<char>, y: Seq<char>)
    requires
        y.len() > 0,
        y[0] == '$',
    ensures
        code_blocks_of(x + seq!['\n'] + y) == code_blocks_of(x) + code_blocks_of(y),
{
    reveal_strlit("\n$");
    let pat = "\n$"@;
    let y1 = y.drop_first();
    let input = x + seq!['\n'] + y;
    let n = x.len() as int;
    assert(input =~= x + pat + y1);
    assert forall|m: int| n - pat.len() < m < n implies !#[trigger] matches_at(x + pat + y1, pat, m) by {
        let t = x + pat + y1;
        if matches_at(t, pat, m) {
            assert(m == n - 1);
            assert(t.subrange(m, m + 2)[1] == t[n]);
        }
    }
    lemma_split_concat(x, pat, y1);
    let q = seq!['$'];
    assert(y =~= q + y1);
    assert forall|m: int| 0 <= m < q.len() implies !#[trigger] matches_at(q + y1, pat, m) by {
        if matches_at(q + y1, pat, m) {
            assert((q + y1).subrange(m, m + 2)[0] == (q + y1)[0]);
        }
    }
    lemma_split_prefix(q, y1, pat);
    lemma_split_nonempty(x, pat);
    let sx = split(x, pat);
    let sy = split(y1, pat);
    let cx = code_blocks_of(x);
    let cy = code_blocks_of(y);
    let ci = code_blocks_of(input);
    assert(split(input, pat) == sx + sy);
    assert(split(y, pat) == sy.update(0, q + sy[0]));
    assert forall|i: int| 0 <= i < ci.len() implies #[trigger] ci[i] == (cx + cy)[i] by {
        if i < sx.len() {
            assert((sx + sy)[i] == sx[i]);
        } else {
            assert((sx + sy)[i] == sy[i - sx.len()]);
            if i == sx.len() {
                assert(cy[0] == split(y, pat)[0]);
            }
        }
    }
    assert(ci =~= cx + cy);
}

/// Reading codes from two texts joined by a line break, the second starting with `$`, gives
/// the codes of the first and then those of the second; and the joined text can be read
/// exactly when both can.
pub proof fn lemma_joined_texts_read(x: Seq<char>, y: Seq<char>)
    requires
        y.len() > 0,
        y[0] == '$',
    ensures
        parse_blocks(code_blocks_of(x + seq!['\n'] + y)) == parse_blocks(code_blocks_of(x))
            + parse_blocks(code_blocks_of(y)),
        blocks_slice_ok(x + seq!['\n'] + y) <==> blocks_slice_ok(x) && blocks_slice_ok(y),
{
    lemma_code_blocks_concat(x, y);
    let cx = code_blocks_of(x);
    let cy = code_blocks_of(y);
    let c = cx + cy;
    lemma_parse_blocks_concat(cx, cy);
    if blocks_slice_ok(x) && blocks_slice_ok(y) {
        assert forall|i: int| 0 <= i < c.len() implies gecko_slices_ok(#[trigger] c[i]) by {
            if i < cx.len() {
                assert(c[i] == cx[i]);
            } else {
                assert(c[i] == cy[i - cx.len()]);
            }
        }
    }
    if blocks_slice_ok(x + seq!['\n'] + y) {
        assert forall|i: int| 0 <= i < cx.len() implies gecko_slices_ok(#[trigger] cx[i]) by {
            assert(c[i] == cx[i]);
        }
        assert forall|i: int| 0 <= i < cy.len() implies gecko_slices_ok(#[trigger] cy[i]) by {
            assert(c[i + cx.len()] == cy[i]);
        }
    }
}

/// A text of whitespace only is no block: formatting it gives nothing.
proof fn lemma_format_white_block(b: Seq<char>)
    requires
        all_white(b),
    ensures
        format_block(b) == Seq::<char>::empty(),
{
    reveal_strlit("\n&lt;/pre&gt;");
    let pat = "\n&lt;/pre&gt;"@;
    lemma_find_bounds(b, pat);
    if find(b, pat) is Some {
        let j = find(b, pat)->0;
        assert(b.subrange(j, j + pat.len())[1] == b[j + 1]);
        assert(!white_space('&'));
    }
    lemma_trim_white(b);
}

/// The text of a page before the line that starts its first block is left out: a page
/// `p`, then `\n$` and the rest `y`, gives the same whole codes as `$` and `y` alone, when `p`
/// holds no carriage return and no line starting with `$`, and does not itself start with
/// `$` after leading whitespace.
pub proof fn lemma_text_before_blocks_ignored(p: Seq<char>, y: Seq<char>)
    requires
        no_cr(p),
        no_match(p, "\n$"@),
        !starts_with(trim_start(p), "$"@),
    ensures
        whole_gecko_codes(p + "\n$"@ + y) == whole_gecko_codes("$"@ + y),
{
    reveal_strlit("\n$");
    reveal_strlit("$");
    reveal_strlit("\r\n");
    reveal_strlit("\n");
    let pat = "\n$"@;
    let crlf = "\r\n"@;
    let lf = "\n"@;
    let d = "$"@;
    let q1 = p + pat;
    assert(p + pat + y == q1 + y);
    assert forall|m: int| 0 <= m < q1.len() implies !#[trigger] matches_at(q1 + y, crlf, m) by {
        if matches_at(q1 + y, crlf, m) {
            assert((q1 + y).subrange(m, m + 2)[0] == (q1 + y)[m]);
            if m < p.len() {
                assert((q1 + y)[m] == p[m]);
            }
        }
    }
    lemma_replace_prefix(q1, y, crlf, lf);
    assert forall|m: int| 0 <= m < d.len() implies !#[trigger] matches_at(d + y, crlf, m) by {
        if matches_at(d + y, crlf, m) {
            assert((d + y).subrange(m, m + 2)[0] == (d + y)[m]);
        }
    }
    lemma_replace_prefix(d, y, crlf, lf);
    let y2 = replace(y, crlf, lf);
    let n1 = q1 + y2;
    let n2 = d + y2;
    assert(n1 == p + pat + y2);
    // the page that starts with its first block
    let e = Seq::<char>::empty();
    assert(trim_start(n2) == n2);
    assert(n2.subrange(0, 1) =~= d);
    assert(starts_with(n2, d));
    assert(seq!['\n'] + n2 =~= e + pat + y2);
    lemma_split_concat(e, pat, y2);
    lemma_split_whole(e, pat);
    assert(page_blocks(n2) == seq![e] + split(y2, pat));
    lemma_format_white_block(e);
    assert((seq![e] + split(y2, pat)).drop_first() =~= split(y2, pat));
    assert(format_blocks(page_blocks(n2)) == format_blocks(split(y2, pat))) by {
        assert(format_block(e) =~= e);
        assert(format_blocks(seq![e] + split(y2, pat)) == e + format_blocks(split(y2, pat)));
    }
    // the page with text in front
    lemma_trim_start_concat(p, pat + y2);
    assert(p + (pat + y2) =~= n1);
    if trim_start(p).len() > 0 {
        assert(trim_start(n1) == trim_start(p) + (pat + y2));
        assert(trim_start(p)[0] != '$') by {
            if trim_start(p)[0] == '$' {
                assert(trim_start(p).subrange(0, 1) =~= d);
            }
        }
        assert(!starts_with(trim_start(n1), d)) by {
            assert(trim_start(n1).subrange(0, 1)[0] == trim_start(p)[0]);
        }
        assert forall|m: int| p.len() - pat.len() < m < p.len() implies !#[trigger] matches_at(
            p + pat + y2,
            pat,
            m,
        ) by {
            if matches_at(p + pat + y2, pat, m) {
                assert((p + pat + y2).subrange(m, m + 2)[1] == (p + pat + y2)[p.len() as int]);
            }
        }
        lemma_split_concat(p, pat, y2);
        lemma_split_whole(p, pat);
        assert((seq![p] + split(y2, pat)).drop_first() =~= split(y2, pat));
        assert(page_blocks(n1) == split(y2, pat));
    } else {
        let w = seq!['\n'] + p;
        assert(trim_start(n1) == trim_start(pat + y2));
        assert((pat + y2)[0] == '\n');
        assert((pat + y2).drop_first() =~= d + y2);
        assert(trim_start(pat + y2) == trim_start(d + y2));
        assert(trim_start(n1) == n2);
        assert(all_white(w)) by {
            assert forall|k: int| 0 <= k < w.len() implies white_space(#[trigger] w[k]) by {
                if k > 0 {
                    assert(w[k] == p[k - 1]);
                }
            }
        }
        assert(seq!['\n'] + n1 =~= w + pat + y2);
        assert forall|m: int| w.len() - pat.len() < m < w.len() implies !#[trigger] matches_at(
            w + pat + y2,
            pat,
            m,
        ) by {
            if matches_at(w + pat + y2, pat, m) {
                assert((w + pat + y2).subrange(m, m + 2)[1] == (w + pat + y2)[w.len() as int]);
            }
        }
        lemma_split_concat(w, pat, y2);
        assert(no_match(w, pat)) by {
            assert forall|m: int| !#[trigger] matches_at(w, pat, m) by {
                if matches_at(w, pat, m) {
                    assert(w.subrange(m, m + 2)[1] == w[m + 1]);
                    assert(!white_space('$'));
                }
            }
        }
        lemma_split_whole(w, pat);
        assert(page_blocks(n1) == seq![w] + split(y2, pat));
        lemma_format_white_block(w);
        assert(format_blocks(seq![w] + split(y2, pat)) == format_block(w) + format_blocks(
            (seq![w] + split(y2, pat)).drop_first(),
        ));
        assert((seq![w] + split(y2, pat)).drop_first() =~= split(y2, pat));
        assert(format_blocks(page_blocks(n1)) =~= format_blocks(split(y2, pat)));
    }
}

/// The filtered codes are `$` and the kept blocks joined by `\n\n$`; just `$` when no block
/// is kept.
pub proof fn lemma_filtered_shape(whole: Seq<char>)
    ensures
        kept_blocks(whole).len() > 0 ==> filtered_gecko_codes(whole) == seq!['$'] + front_blocks(
            kept_blocks(whole),
        ),
        kept_blocks(whole).len() == 0 ==> filtered_gecko_codes(whole) == seq!['$'],
{
    let k = kept_blocks(whole);
    let f = filtered_gecko_codes(whole);
    lemma_kept_clean(whole);
    assert(!white_space('$'));
    assert(white_space('\n'));
    if k.len() == 0 {
        assert(join_blocks(k) =~= seq![]);
        assert(seq!['$'] + join_blocks(k) =~= seq!['$']);
    } else {
        lemma_join_flat(k);
        lemma_flat_front(k);
        let fl = flat_blocks(k);
        let u = seq!['$'] + join_blocks(k);
        assert(u == (seq!['$'] + fl).push('\n'));
        assert(u.drop_last() =~= seq!['$'] + fl);
        let last = k.last();
        assert(is_trimmed(last) && last.len() > 0);
        assert((seq!['$'] + fl).last() == last.last()) by {
            if k.len() > 1 {
                assert(fl == flat_blocks(k.drop_last()) + seq!['\n', '\n', '$'] + last);
            }
        }
        assert(trim_end(u) == trim_end(u.drop_last()));
        assert(trim_end(seq!['$'] + fl) == seq!['$'] + fl);
    }
}

/// Blocks written one after the other hold no character that the written text lacks.
proof fn lemma_front_free(k: Seq<Seq<char>>, c: char)
    requires
        free_of(front_blocks(k), c),
    ensures
        forall|i: int| 0 <= i < k.len() ==> free_of(#[trigger] k[i], c),
    decreases k.len(),
{
    if k.len() > 1 {
        let x = seq!['\n', '\n', '$'];
        let rest = k.drop_first();
        let f = front_blocks(k);
        assert(f == k[0] + x + front_blocks(rest));
        assert forall|j: int| 0 <= j < front_blocks(rest).len() implies front_blocks(rest)[j] != c by {
            assert(f[k[0].len() + 3 + j] == front_blocks(rest)[j]);
        }
        lemma_front_free(rest, c);
        assert forall|i: int| 0 <= i < k.len() implies free_of(#[trigger] k[i], c) by {
            if i == 0 {
                assert forall|j: int| 0 <= j < k[0].len() implies k[0][j] != c by {
                    assert(f[j] == k[0][j]);
                }
            } else {
                assert(k[i] == rest[i - 1]);
            }
        }
    }
}

/// A nonempty trimmed block without `&`, alone or followed by a line break, is formatted as
/// `$`, the block, and an empty line.
pub proof fn lemma_format_clean_block(t: Seq<char>, b: Seq<char>)
    requires
        t.len() > 0,
        is_trimmed(t),
        free_of(t, '&'),
        b == t || b == t.push('\n'),
    ensures
        format_block(b) == seq!['$'] + t + seq!['\n', '\n'],
{
    reveal_strlit("\n&lt;/pre&gt;");
    let pat = "\n&lt;/pre&gt;"@;
    assert(free_of(b, '&')) by {
        assert forall|j: int| 0 <= j < b.len() implies b[j] != '&' by {
            if j < t.len() {
                assert(b[j] == t[j]);
            }
        }
    }
    assert(pat[1] == '&');
    lemma_free_no_match(b, pat, 1);
    lemma_find_bounds(b, pat);
    assert(find(b, pat) is None);
    lemma_trimmed_fixed(t);
    assert(trim_end(t) == t) by {
        assert(!white_space(t.last()));
    }
    if b != t {
        lemma_trim_line_break(t);
        assert(white_space('\n'));
        assert(b.last() == '\n');
        assert(b.drop_last() =~= t);
    }
}

/// Formatting the pieces of clean blocks without `&` writes each block after `$` and before an
/// empty line.
proof fn lemma_format_pieces(k: Seq<Seq<char>>)
    requires
        k.len() >= 1,
        forall|i: int|
            0 <= i < k.len() ==> (#[trigger] k[i]).len() > 0 && is_trimmed(k[i]) && free_of(
                k[i],
                '&',
            ),
    ensures
        format_blocks(block_pieces(k)) == seq!['$'] + front_blocks(k) + seq!['\n', '\n'],
    decreases k.len(),
{
    let bp = block_pieces(k);
    if k.len() == 1 {
        lemma_format_clean_block(k[0], k[0]);
        assert(bp.drop_first() =~= Seq::<Seq<char>>::empty());
        assert(bp[0] == k[0]);
        assert(format_blocks(bp.drop_first()) =~= Seq::<char>::empty());
        assert(format_blocks(bp) == format_block(bp[0]) + format_blocks(bp.drop_first()));
        assert(format_blocks(bp) =~= format_block(k[0]));
    } else {
        let rest = k.drop_first();
        assert(bp.drop_first() =~= block_pieces(rest));
        assert(bp[0] == k[0].push('\n'));
        lemma_format_clean_block(k[0], bp[0]);
        assert forall|i: int| 0 <= i < rest.len() implies (#[trigger] rest[i]).len() > 0
            && is_trimmed(rest[i]) && free_of(rest[i], '&') by {
            assert(rest[i] == k[i + 1]);
        }
        lemma_format_pieces(rest);
        assert(format_blocks(bp) =~= seq!['$'] + front_blocks(k) + seq!['\n', '\n']);
    }
}

/// Decoding a text without `&` and without three line breaks in a row changes nothing.
proof fn lemma_decode_plain(s: Seq<char>)
    requires
        free_of(s, '&'),
        no_match(s, "\n\n\n"@),
    ensures
        decode_entities(s) == s,
{
    reveal_strlit("&amp;");
    reveal_strlit("\n&lt;/div&gt;\n");
    reveal_strlit("&lt;");
    reveal_strlit("&gt;");
    reveal_strlit("&quot;");
    reveal_strlit("&apos;");
    reveal_strlit("&cent;");
    reveal_strlit("&pound;");
    reveal_strlit("&yen;");
    reveal_strlit("&euro;");
    reveal_strlit("&copy;");
    reveal_strlit("&reg;");
    reveal_strlit("\n\n\n");
    lemma_free_no_match(s, "&amp;"@, 0);
    lemma_replace_no_match(s, "&amp;"@, "&"@);
    lemma_free_no_match(s, "\n&lt;/div&gt;\n"@, 1);
    lemma_replace_no_match(s, "\n&lt;/div&gt;\n"@, ""@);
    lemma_replace_no_match(s, "\n\n\n"@, "\n\n"@);
    lemma_free_no_match(s, "&lt;"@, 0);
    lemma_replace_no_match(s, "&lt;"@, "<"@);
    lemma_free_no_match(s, "&gt;"@, 0);
    lemma_replace_no_match(s, "&gt;"@, ">"@);
    lemma_free_no_match(s, "&quot;"@, 0);
    lemma_replace_no_match(s, "&quot;"@, "\""@);
    lemma_free_no_match(s, "&apos;"@, 0);
    lemma_replace_no_match(s, "&apos;"@, "'"@);
    lemma_free_no_match(s, "&cent;"@, 0);
    lemma_replace_no_match(s, "&cent;"@, "\u{a2}"@);
    lemma_free_no_match(s, "&pound;"@, 0);
    lemma_replace_no_match(s, "&pound;"@, "\u{a3}"@);
    lemma_free_no_match(s, "&yen;"@, 0);
    lemma_replace_no_match(s, "&yen;"@, "\u{a5}"@);
    lemma_free_no_match(s, "&euro;"@, 0);
    lemma_replace_no_match(s, "&euro;"@, "\u{20ac}"@);
    lemma_free_no_match(s, "&copy;"@, 0);
    lemma_replace_no_match(s, "&copy;"@, "\u{a9}"@);
    lemma_free_no_match(s, "&reg;"@, 0);
    lemma_replace_no_match(s, "&reg;"@, "\u{ae}"@);
}

/// Reading blocks whose pieces trim alike keeps the same blocks.
proof fn lemma_unique_blocks_trims(a: Seq<Seq<char>>, b: Seq<Seq<char>>, seen: Seq<Seq<char>>)
    requires
        a.len() == b.len(),
        forall|i: int| 0 <= i < a.len() ==> trim(#[trigger] a[i]) == trim(b[i]),
    ensures
        unique_blocks(a, seen) == unique_blocks(b, seen),
    decreases a.len(),
{
    if a.len() > 0 {
        assert(trim(a[0]) == trim(b[0]));
        assert forall|i: int| 0 <= i < a.drop_first().len() implies trim(
            #[trigger] a.drop_first()[i],
        ) == trim(b.drop_first()[i]) by {
            assert(a.drop_first()[i] == a[i + 1]);
            assert(b.drop_first()[i] == b[i + 1]);
        }
        let t = trim(a[0]);
        let seen2 = if t.len() > 0 && !seen.contains(t) {
            seen.push(t)
        } else {
            seen
        };
        lemma_unique_blocks_trims(a.drop_first(), b.drop_first(), seen2);
    }
}

/// Extracting the filtered codes again gives them back, followed by an empty line (nothing,
/// when no block was kept), and filtering that gives the filtered codes once more, when they
/// hold no `&`, no carriage return and no three line breaks in a row.
pub proof fn lemma_filtered_extracts_to_itself(whole: Seq<char>)
    requires
        free_of(filtered_gecko_codes(whole), '&'),
        no_cr(filtered_gecko_codes(whole)),
        no_match(filtered_gecko_codes(whole), "\n\n\n"@),
    ensures
        filtered_gecko_codes(whole) == seq!['$'] ==> whole_gecko_codes(filtered_gecko_codes(whole))
            == Seq::<char>::empty(),
        filtered_gecko_codes(whole) != seq!['$'] ==> whole_gecko_codes(
            filtered_gecko_codes(whole),
        ) == filtered_gecko_codes(whole) + seq!['\n', '\n'],
        filtered_gecko_codes(whole_gecko_codes(filtered_gecko_codes(whole)))
            == filtered_gecko_codes(whole),
{
    reveal_strlit("\n$");
    reveal_strlit("$");
    reveal_strlit("\r\n");
    reveal_strlit("\n");
    reveal_strlit("\n\n\n");
    let pat = "\n$"@;
    let e = Seq::<char>::empty();
    let k = kept_blocks(whole);
    let f = filtered_gecko_codes(whole);
    lemma_filtered_shape(whole);
    lemma_kept_clean(whole);
    lemma_crlf_absent(f);
    assert("\r\n"@ =~= seq!['\r', '\n']);
    assert("\n"@ =~= seq!['\n']);
    assert(replace(f, "\r\n"@, "\n"@) == f);
    assert(f[0] == '$');
    assert(!white_space('$'));
    assert(trim_start(f) == f);
    assert(f.subrange(0, 1) =~= "$"@);
    assert(seq!['\n'] + f =~= e + pat + f.drop_first());
    assert forall|m: int| e.len() - pat.len() < m < e.len() implies !#[trigger] matches_at(
        e + pat + f.drop_first(),
        pat,
        m,
    ) by {}
    lemma_split_concat(e, pat, f.drop_first());
    lemma_split_whole(e, pat);
    assert(page_blocks(f) == seq![e] + split(f.drop_first(), pat));
    lemma_format_white_block(e);
    if k.len() == 0 {
        assert(f.drop_first() =~= e);
        assert(split(e, pat) == seq![e]);
        assert(format_blocks(seq![e, e]) =~= e) by {
            let one = seq![e];
            let two = seq![e, e];
            assert(two.drop_first() =~= one);
            assert(one.drop_first() =~= Seq::<Seq<char>>::empty());
            assert(two[0] == e && one[0] == e);
            assert(format_blocks(one.drop_first()) =~= e);
            assert(format_blocks(one) == format_block(e) + format_blocks(one.drop_first()));
            assert(format_blocks(one) =~= e);
            assert(format_blocks(two) == format_block(e) + format_blocks(one));
        }
        assert(seq![e] + split(e, pat) =~= seq![e, e]);
        assert(no_match(e, "\n\n\n"@));
        lemma_decode_plain(e);
        assert(whole_gecko_codes(f) == e);
        // filtering nothing keeps no block
        let nl = seq!['\n'];
        assert(seq!['\n'] + e =~= nl);
        assert(no_match(nl, pat));
        lemma_split_whole(nl, pat);
        assert(trim(nl).len() == 0) by {
            assert(all_white(nl));
            lemma_trim_white(nl);
        }
        assert(seq![nl].drop_first() =~= Seq::<Seq<char>>::empty());
        assert(seq![nl][0] == nl);
        assert(unique_blocks(Seq::<Seq<char>>::empty(), seq![]) == Seq::<Seq<char>>::empty());
        assert(unique_blocks(seq![nl], seq![]) == Seq::<Seq<char>>::empty());
        assert(join_blocks(Seq::<Seq<char>>::empty()) =~= e);
        assert(seq!['$'] + e =~= seq!['$']);
        assert(trim_end(seq!['$']) == seq!['$']);
    } else {
        let fr = front_blocks(k);
        assert(f.drop_first() =~= fr);
        lemma_clean_separable(k);
        lemma_split_front(k);
        let bp = block_pieces(k);
        assert forall|j: int| 0 <= j < fr.len() implies fr[j] != '&' by {
            assert(f[j + 1] == fr[j]);
        }
        lemma_front_free(k, '&');
        lemma_format_pieces(k);
        assert(format_blocks(seq![e] + bp) == format_block(e) + format_blocks(bp)) by {
            assert((seq![e] + bp).drop_first() =~= bp);
        }
        let w = f + seq!['\n', '\n'];
        assert(format_blocks(seq![e] + bp) =~= w);
        assert(free_of(w, '&'));
        assert(no_match(w, "\n\n\n"@)) by {
            assert forall|m: int| !#[trigger] matches_at(w, "\n\n\n"@, m) by {
                if matches_at(w, "\n\n\n"@, m) {
                    let t = w.subrange(m, m + 3);
                    assert(t[0] == w[m] && t[1] == w[m + 1] && t[2] == w[m + 2]);
                    if m + 3 <= f.len() {
                        assert(f.subrange(m, m + 3) =~= t);
                        assert(matches_at(f, "\n\n\n"@, m));
                    } else {
                        assert(w[f.len() - 1] == f.last());
                        assert(f.last() == k.last().last()) by {
                            assert(fr.len() > 0);
                            if k.len() > 1 {
                                lemma_flat_front(k);
                                assert(flat_blocks(k) == flat_blocks(k.drop_last()) + seq![
                                    '\n',
                                    '\n',
                                    '$',
                                ] + k.last());
                            } else {
                                assert(fr == k[0]);
                            }
                        }
                        assert(is_trimmed(k.last()));
                        assert(white_space('\n'));
                    }
                }
            }
        }
        lemma_decode_plain(w);
        assert(whole_gecko_codes(f) == w);
        assert(f != seq!['$']) by {
            assert(fr.len() > 0) by {
                if k.len() > 1 {
                    assert(fr == k[0] + seq!['\n', '\n', '$'] + front_blocks(k.drop_first()));
                }
            }
        }
        // filtering the extracted codes again
        let x = seq!['\n'] + f;
        let nn = seq!['\n', '\n'];
        assert(seq!['\n'] + w =~= x + nn);
        assert(x =~= pat + fr);
        lemma_split_scan_shift(pat, fr, pat, 0, 0);
        assert(x.subrange(0, 2) =~= pat);
        assert(x.subrange(0, 0) =~= e);
        let ps = split(x, pat);
        assert(ps == seq![e] + bp);
        assert forall|m: int| x.len() - pat.len() < m implies !#[trigger] matches_at(x + nn, pat, m) by {
            if matches_at(x + nn, pat, m) {
                assert((x + nn).subrange(m, m + 2)[1] == (x + nn)[m + 1]);
                assert((x + nn)[m + 1] == '\n') by {
                    if m + 1 < x.len() {
                        assert(m + 1 == x.len() - 1);
                        assert(x[x.len() - 1] == f.last());
                    }
                }
            }
        }
        lemma_split_suffix(x, nn, pat);
        let ps2 = split(x + nn, pat);
        assert(ps2 == ps.update(ps.len() - 1, ps.last() + nn));
        assert forall|i: int| 0 <= i < ps2.len() implies trim(#[trigger] ps2[i]) == trim(ps[i]) by {
            if i == ps.len() - 1 {
                assert(ps[i] == bp[k.len() - 1]);
                assert(bp[k.len() - 1] == k.last());
                assert(all_white(nn));
                lemma_trim_white_tail(k.last(), nn);
                lemma_trimmed_fixed(k.last());
            }
        }
        lemma_unique_blocks_trims(ps2, ps, seq![]);
        lemma_filtering_idempotent(whole);
    }
}

/// Without three line breaks in a row there are not four either.
proof fn lemma_no_four_breaks(s: Seq<char>)
    requires
        no_match(s, breaks(3)),
    ensures
        no_match(s, breaks(4)),
{
    assert forall|m: int| !#[trigger] matches_at(s, breaks(4), m) by {
        if matches_at(s, breaks(4), m) {
            assert(s.subrange(m, m + 3) =~= breaks(3)) by {
                assert forall|q: int| 0 <= q < 3 implies #[trigger] s.subrange(m, m + 3)[q] == '\n' by {
                    assert(s.subrange(m, m + 4)[q] == s[m + q]);
                }
            }
            assert(matches_at(s, breaks(3), m));
        }
    }
}

/// A block of a page without `&`, carriage returns and four line breaks in a row formats
/// to a text without them, which is empty or starts with `$`.
proof fn lemma_format_plain_block(b: Seq<char>)
    requires
        free_of(b, '&'),
        free_of(b, '\r'),
        no_match(b, breaks(4)),
    ensures
        free_of(format_block(b), '&'),
        free_of(format_block(b), '\r'),
        no_match(format_block(b), breaks(4)),
        format_block(b).len() == 0 || format_block(b)[0] == '$',
{
    reveal_strlit("\n&lt;/pre&gt;");
    let marker = "\n&lt;/pre&gt;"@;
    assert(marker[1] == '&');
    lemma_free_no_match(b, marker, 1);
    lemma_find_bounds(b, marker);
    assert(find(b, marker) is None);
    if trim(b).len() > 0 {
        let k = crate::text::lemma_trim_end_shape(b);
        let t = trim_end(b);
        assert(part_of(t, b)) by {
            assert(t == b.subrange(0, k));
        }
        lemma_part_facts(t, b, breaks(4), '&');
        lemma_part_facts(t, b, breaks(4), '\r');
        let d = seq!['$'];
        let nn = seq!['\n', '\n'];
        assert(no_match(d, breaks(4)));
        assert(no_match(nn, breaks(4)));
        assert(free_of(d, '&') && free_of(d, '\r') && free_of(nn, '&') && free_of(nn, '\r'));
        lemma_breaks_concat(d, t, 4);
        assert((d + t).last() != '\n') by {
            if t.len() > 0 {
                assert((d + t).last() == t.last());
                assert(!white_space(t.last()));
            }
        }
        lemma_breaks_concat(d + t, nn, 4);
        lemma_free_concat(d, t, '&');
        lemma_free_concat(d + t, nn, '&');
        lemma_free_concat(d, t, '\r');
        lemma_free_concat(d + t, nn, '\r');
    }
}

/// Formatting blocks without `&`, carriage returns and four line breaks in a row gives a
/// text without them, which is empty or starts with `$`.
proof fn lemma_format_plain_blocks(bs: Seq<Seq<char>>)
    requires
        forall|i: int|
            0 <= i < bs.len() ==> free_of(#[trigger] bs[i], '&') && free_of(bs[i], '\r')
                && no_match(bs[i], breaks(4)),
    ensures
        free_of(format_blocks(bs), '&'),
        free_of(format_blocks(bs), '\r'),
        no_match(format_blocks(bs), breaks(4)),
        format_blocks(bs).len() == 0 || format_blocks(bs)[0] == '$',
    decreases bs.len(),
{
    if bs.len() > 0 {
        let rest = bs.drop_first();
        assert forall|i: int| 0 <= i < rest.len() implies free_of(#[trigger] rest[i], '&')
            && free_of(rest[i], '\r') && no_match(rest[i], breaks(4)) by {
            assert(rest[i] == bs[i + 1]);
        }
        lemma_format_plain_blocks(rest);
        assert(free_of(bs[0], '&') && free_of(bs[0], '\r') && no_match(bs[0], breaks(4)));
        lemma_format_plain_block(bs[0]);
        let a = format_block(bs[0]);
        let b = format_blocks(rest);
        lemma_breaks_concat(a, b, 4);
        lemma_free_concat(a, b, '&');
        lemma_free_concat(a, b, '\r');
        if a.len() == 0 {
            assert(a + b =~= b);
        } else {
            assert((a + b)[0] == a[0]);
        }
    }
}

/// Decoding a text without `&`, carriage returns and four line breaks in a row only makes
/// three line breaks in a row two: it gives a text without `&`, carriage returns and three
/// line breaks in a row.
proof fn lemma_decode_plain_page(x: Seq<char>)
    requires
        free_of(x, '&'),
        free_of(x, '\r'),
        no_match(x, breaks(4)),
    ensures
        free_of(decode_entities(x), '&'),
        free_of(decode_entities(x), '\r'),
        no_match(decode_entities(x), breaks(3)),
{
    reveal_strlit("&amp;");
    reveal_strlit("\n&lt;/div&gt;\n");
    reveal_strlit("\n\n\n");
    reveal_strlit("\n\n");
    assert("\n\n\n"@ =~= breaks(3));
    assert("\n\n"@ =~= breaks(2));
    lemma_free_no_match(x, "&amp;"@, 0);
    lemma_replace_no_match(x, "&amp;"@, "&"@);
    lemma_free_no_match(x, "\n&lt;/div&gt;\n"@, 1);
    lemma_replace_no_match(x, "\n&lt;/div&gt;\n"@, ""@);
    let y = replace(x, breaks(3), breaks(2));
    assert(free_of(breaks(2), '&') && free_of(breaks(2), '\r'));
    lemma_replace_free(x, breaks(3), breaks(2), '&');
    lemma_replace_free(x, breaks(3), breaks(2), '\r');
    lemma_replace_breaks(x);
    lemma_free_no_match(y, "&amp;"@, 0);
    lemma_replace_no_match(y, "&amp;"@, "&"@);
    lemma_free_no_match(y, "\n&lt;/div&gt;\n"@, 1);
    lemma_replace_no_match(y, "\n&lt;/div&gt;\n"@, ""@);
    lemma_replace_no_match(y, breaks(3), breaks(2));
    assert(decode_entities(x) == decode_entities(y));
    lemma_decode_plain(y);
}

/// Blocks written one after the other, trimmed, nonempty, and without `&`, carriage returns
/// and three line breaks in a row, give a text without them.
proof fn lemma_front_plain(k: Seq<Seq<char>>)
    requires
        forall|i: int|
            0 <= i < k.len() ==> (#[trigger] k[i]).len() > 0 && is_trimmed(k[i]) && free_of(
                k[i],
                '&',
            ) && free_of(k[i], '\r') && no_match(k[i], breaks(3)),
    ensures
        free_of(front_blocks(k), '&'),
        free_of(front_blocks(k), '\r'),
        no_match(front_blocks(k), breaks(3)),
    decreases k.len(),
{
    if k.len() == 1 {
        assert(front_blocks(k) == k[0]);
    } else if k.len() > 1 {
        let rest = k.drop_first();
        assert forall|i: int| 0 <= i < rest.len() implies (#[trigger] rest[i]).len() > 0
            && is_trimmed(rest[i]) && free_of(rest[i], '&') && free_of(rest[i], '\r') && no_match(
            rest[i],
            breaks(3),
        ) by {
            assert(rest[i] == k[i + 1]);
        }
        lemma_front_plain(rest);
        let x = seq!['\n', '\n', '$'];
        let k0 = k[0];
        assert(k0.len() > 0 && is_trimmed(k0));
        assert(no_match(x, breaks(3))) by {
            assert forall|m: int| !#[trigger] matches_at(x, breaks(3), m) by {
                if matches_at(x, breaks(3), m) {
                    assert(x.subrange(m, m + 3)[2] == x[2]);
                }
            }
        }
        assert(free_of(x, '&') && free_of(x, '\r'));
        assert(k0.last() != '\n') by {
            assert(white_space('\n'));
        }
        lemma_breaks_concat(k0, x, 3);
        assert((k0 + x).last() == '$');
        lemma_breaks_concat(k0 + x, front_blocks(rest), 3);
        lemma_free_concat(k0, x, '&');
        lemma_free_concat(k0 + x, front_blocks(rest), '&');
        lemma_free_concat(k0, x, '\r');
        lemma_free_concat(k0 + x, front_blocks(rest), '\r');
        assert(front_blocks(k) == k0 + x + front_blocks(rest));
    }
}

/// The kept blocks of whole codes without `&`, carriage returns and three line breaks in a
/// row are parts of them, so they lack these too.
proof fn lemma_kept_plain(whole: Seq<char>)
    requires
        free_of(whole, '&'),
        free_of(whole, '\r'),
        no_match(whole, breaks(3)),
    ensures
        forall|i: int|
            0 <= i < kept_blocks(whole).len() ==> (#[trigger] kept_blocks(whole)[i]).len() > 0
                && is_trimmed(kept_blocks(whole)[i]) && free_of(kept_blocks(whole)[i], '&')
                && free_of(kept_blocks(whole)[i], '\r') && no_match(
                kept_blocks(whole)[i],
                breaks(3),
            ),
{
    reveal_strlit("\n$");
    let pat = "\n$"@;
    let u = seq!['\n'] + whole;
    let ps = split(u, pat);
    let k = kept_blocks(whole);
    lemma_kept_clean(whole);
    lemma_filtered_blocks(whole);
    lemma_split_parts(u, pat);
    assert forall|i: int| 0 <= i < k.len() implies (#[trigger] k[i]).len() > 0 && is_trimmed(k[i])
        && free_of(k[i], '&') && free_of(k[i], '\r') && no_match(k[i], breaks(3)) by {
        assert(k.contains(k[i]));
        let j = choose|j: int| 0 <= j < ps.len() && #[trigger] trim(ps[j]) == k[i];
        assert(part_of(ps[j], u));
        let (a, c) = choose|a: int, c: int| 0 <= a <= c <= u.len() && ps[j] == #[trigger] u.subrange(a, c);
        let r = lemma_trim_shape(ps[j]);
        let lo = a + r.0;
        let hi = a + r.1;
        assert(k[i] =~= u.subrange(lo, hi));
        assert(k[i][0] == u[lo]);
        assert(white_space(u[0]));
        assert(lo >= 1);
        assert(k[i] =~= whole.subrange(lo - 1, hi - 1));
        assert(part_of(k[i], whole));
        lemma_part_facts(k[i], whole, breaks(3), '&');
        lemma_part_facts(k[i], whole, breaks(3), '\r');
    }
}

/// Extracting a page without `&`, carriage returns and three line breaks in a row, filtering,
/// and extracting the filtered codes again gives them back, followed by an empty line (nothing
/// when no block was kept); filtering that gives the filtered codes once more.
pub proof fn lemma_page_extraction_settles(content: Seq<char>)
    requires
        free_of(content, '&'),
        no_cr(content),
        no_match(content, "\n\n\n"@),
    ensures
        filtered_gecko_codes(whole_gecko_codes(content)) == seq!['$'] ==> whole_gecko_codes(
            filtered_gecko_codes(whole_gecko_codes(content)),
        ) == Seq::<char>::empty(),
        filtered_gecko_codes(whole_gecko_codes(content)) != seq!['$'] ==> whole_gecko_codes(
            filtered_gecko_codes(whole_gecko_codes(content)),
        ) == filtered_gecko_codes(whole_gecko_codes(content)) + seq!['\n', '\n'],
        filtered_gecko_codes(whole_gecko_codes(filtered_gecko_codes(whole_gecko_codes(content))))
            == filtered_gecko_codes(whole_gecko_codes(content)),
{
    reveal_strlit("\n$");
    reveal_strlit("\r\n");
    reveal_strlit("\n");
    reveal_strlit("\n\n\n");
    let pat = "\n$"@;
    assert("\n\n\n"@ =~= breaks(3));
    assert("\r\n"@ =~= seq!['\r', '\n']);
    assert("\n"@ =~= seq!['\n']);
    lemma_crlf_absent(content);
    assert(replace(content, "\r\n"@, "\n"@) == content);
    assert(free_of(content, '\r'));
    lemma_no_four_breaks(content);
    let u = seq!['\n'] + content;
    lemma_free_concat(seq!['\n'], content, '&');
    lemma_free_concat(seq!['\n'], content, '\r');
    assert(no_match(u, breaks(4))) by {
        assert forall|m: int| !#[trigger] matches_at(u, breaks(4), m) by {
            if matches_at(u, breaks(4), m) {
                assert(content.subrange(m, m + 3) =~= breaks(3)) by {
                    assert forall|q: int| 0 <= q < 3 implies #[trigger] content.subrange(m, m + 3)[q]
                        == '\n' by {
                        assert(u.subrange(m, m + 4)[q + 1] == u[m + q + 1]);
                        assert(u[m + q + 1] == content[m + q]);
                    }
                }
                assert(matches_at(content, breaks(3), m));
            }
        }
    }
    let p = page_blocks(content);
    assert forall|i: int| 0 <= i < p.len() implies free_of(#[trigger] p[i], '&') && free_of(
        p[i],
        '\r',
    ) && no_match(p[i], breaks(4)) by {
        if starts_with(trim_start(content), "$"@) {
            lemma_split_parts(u, pat);
            assert(part_of(split(u, pat)[i], u));
            lemma_part_facts(p[i], u, breaks(4), '&');
            lemma_part_facts(p[i], u, breaks(4), '\r');
        } else {
            lemma_split_parts(content, pat);
            lemma_split_nonempty(content, pat);
            assert(p == split(content, pat).drop_first());
            assert(p[i] == split(content, pat)[i + 1]);
            assert(part_of(split(content, pat)[i + 1], content));
            lemma_part_facts(p[i], content, breaks(4), '&');
            lemma_part_facts(p[i], content, breaks(4), '\r');
        }
    }
    lemma_format_plain_blocks(p);
    let x = format_blocks(p);
    lemma_decode_plain_page(x);
    let w = decode_entities(x);
    assert(whole_gecko_codes(content) == w);
    lemma_kept_plain(w);
    lemma_filtered_shape(w);
    let k = kept_blocks(w);
    let f = filtered_gecko_codes(w);
    let d = seq!['$'];
    assert(free_of(d, '&') && free_of(d, '\r') && no_match(d, breaks(3)));
    if k.len() > 0 {
        lemma_front_plain(k);
        lemma_breaks_concat(d, front_blocks(k), 3);
        lemma_free_concat(d, front_blocks(k), '&');
        lemma_free_concat(d, front_blocks(k), '\r');
    }
    assert(no_cr(f));
    lemma_filtered_extracts_to_itself(w);
}

proof fn lemma_parse_blocks_take(bs: Seq<Seq<char>>, i: int)
    requires
        0 <= i <= bs.len(),
    ensures
        parse_blocks(bs.take(i)) == bs.take(i).filter_map(|b: Seq<char>| parse_gecko(b)),
    decreases i,
{
    let f = |b: Seq<char>| parse_gecko(b);
    if i == 0 {
        assert(bs.take(0) =~= Seq::<Seq<char>>::empty());
        assert(bs.take(0).filter_map(f) =~= Seq::<GeckoCodeModel>::empty());
    } else {
        lemma_parse_blocks_take(bs, i - 1);
        bs.lemma_filter_map_take_succ(f, i - 1);
        assert(bs.take(i) =~= bs.take(i - 1) + seq![bs[i - 1]]);
        lemma_parse_blocks_concat(bs.take(i - 1), seq![bs[i - 1]]);
        let one = seq![bs[i - 1]];
        assert(one.drop_first() =~= Seq::<Seq<char>>::empty());
        assert(one[0] == bs[i - 1]);
        assert(parse_blocks(one.drop_first()) =~= Seq::<GeckoCodeModel>::empty());
        assert(parse_blocks(one) =~= match parse_gecko(bs[i - 1]) {
            Some(g) => seq![g],
            None => Seq::<GeckoCodeModel>::empty(),
        });
    }
}

/// The codes read from blocks are exactly the codes that reading each block gives, in the
/// order of the blocks, leaving out only the blocks that hold no code: `filter_map` of
/// reading one code over the blocks.
pub proof fn lemma_codes_of_every_block(bs: Seq<Seq<char>>)
    ensures
        parse_blocks(bs) == bs.filter_map(|b: Seq<char>| parse_gecko(b)),
{
    lemma_parse_blocks_take(bs, bs.len() as int);
    assert(bs.take(bs.len() as int) =~= bs);
}

/// A text in which no line starts with `$` (past its first) is one code block, as it is.
pub proof fn lemma_code_blocks_single(x: Seq<char>)
    requires
        no_match(x, "\n$"@),
    ensures
        code_blocks_of(x) == seq![x],
{
    reveal_strlit("\n$");
    lemma_split_whole(x, "\n$"@);
    assert(code_blocks_of(x) =~= seq![x]);
}

proof fn lemma_unique_blocks_order(ps: Seq<Seq<char>>, seen: Seq<Seq<char>>)
    requires
        seen.no_duplicates(),
        forall|k: int| 0 <= k < seen.len() ==> (#[trigger] seen[k]).len() > 0,
    ensures
        unique_blocks(ps, seen).len() >= seen.len(),
        forall|k: int| 0 <= k < seen.len() ==> #[trigger] unique_blocks(ps, seen)[k] == seen[k],
        ordered_from(ps, unique_blocks(ps, seen), seen.len() as int),
    decreases ps.len(),
{
    lemma_unique_blocks(ps, seen);
    if ps.len() > 0 {
        let t0 = trim(ps[0]);
        let rest = ps.drop_first();
        let pushed = t0.len() > 0 && !seen.contains(t0);
        let next = if pushed {
            seen.push(t0)
        } else {
            seen
        };
        if pushed {
            assert forall|i: int, j: int| 0 <= i < j < next.len() implies next[i] != next[j] by {
                if j == seen.len() {
                    assert(seen.contains(seen[i]));
                }
            }
        }
        assert forall|k: int| 0 <= k < next.len() implies (#[trigger] next[k]).len() > 0 by {
            if k < seen.len() {
                assert(next[k] == seen[k]);
            }
        }
        lemma_unique_blocks_order(rest, next);
        let u = unique_blocks(ps, seen);
        assert(u == unique_blocks(rest, next));
        assert forall|k: int| 0 <= k < seen.len() implies #[trigger] u[k] == seen[k] by {
            assert(u[k] == next[k]);
        }
        assert forall|i: int, j: int, q: int|
            #![trigger unique_blocks(ps, seen)[i], unique_blocks(ps, seen)[j], ps[q]]
            seen.len() <= i < j < unique_blocks(ps, seen).len() && 0 <= q < ps.len() && trim(ps[q])
                == unique_blocks(ps, seen)[j] implies occurs_before(
            ps,
            unique_blocks(ps, seen)[i],
            q,
        ) by {
            lemma_order_step(ps, seen, i, j, q);
        }
        assert(ordered_from(ps, unique_blocks(ps, seen), seen.len() as int));
    } else {
        assert(unique_blocks(ps, seen) == seen);
    }
}

/// Whether each text of `k` from position `n` on occurs, as a trimmed piece of `ps`, before
/// every occurrence of any text after it in `k`.
pub open spec fn ordered_from(ps: Seq<Seq<char>>, k: Seq<Seq<char>>, n: int) -> bool {
    forall|i: int, j: int, q: int|
        #![trigger k[i], k[j], ps[q]]
        n <= i < j < k.len() && 0 <= q < ps.len() && trim(ps[q]) == k[j] ==> occurs_before(
            ps,
            k[i],
            q,
        )
}

/// Whether `t` is the trim of one of the first `q` pieces of `ps`.
pub open spec fn occurs_before(ps: Seq<Seq<char>>, t: Seq<char>, q: int) -> bool {
    exists|p: int| 0 <= p < q && trim(#[trigger] ps[p]) == t
}

/// The kept blocks are in the order of their first occurrence: a block kept before another
/// occurs, as a trimmed piece of the whole codes, before every occurrence of the other.
pub proof fn lemma_kept_in_first_order(whole: Seq<char>)
    ensures
        ordered_from(split(seq!['\n'] + whole, "\n$"@), kept_blocks(whole), 0),
{
    let e = Seq::<Seq<char>>::empty();
    let ps = split(seq!['\n'] + whole, "\n$"@);
    assert(e.no_duplicates());
    lemma_unique_blocks_order(ps, e);
    let u = unique_blocks(ps, e);
    assert(kept_blocks(whole) == u);
}

proof fn lemma_order_step(ps: Seq<Seq<char>>, seen: Seq<Seq<char>>, i: int, j: int, q: int)
    requires
        ps.len() > 0,
        seen.no_duplicates(),
        forall|k: int| 0 <= k < seen.len() ==> (#[trigger] seen[k]).len() > 0,
        seen.len() <= i < j < unique_blocks(ps, seen).len(),
        0 <= q < ps.len(),
        trim(ps[q]) == unique_blocks(ps, seen)[j],
        ({
            let t0 = trim(ps[0]);
            let next = if t0.len() > 0 && !seen.contains(t0) {
                seen.push(t0)
            } else {
                seen
            };
            &&& unique_blocks(ps, seen) == unique_blocks(ps.drop_first(), next)
            &&& forall|k: int| 0 <= k < next.len() ==> #[trigger] unique_blocks(ps, seen)[k] == next[k]
            &&& ordered_from(ps.drop_first(), unique_blocks(ps, seen), next.len() as int)
            &&& unique_blocks(ps, seen).no_duplicates()
            &&& forall|k: int|
                0 <= k < unique_blocks(ps, seen).len() ==> (#[trigger] unique_blocks(ps, seen)[k]).len() > 0
        }),
    ensures
        occurs_before(ps, unique_blocks(ps, seen)[i], q),
{
    let u = unique_blocks(ps, seen);
    let t0 = trim(ps[0]);
    let rest = ps.drop_first();
    let pushed = t0.len() > 0 && !seen.contains(t0);
    let next = if pushed {
        seen.push(t0)
    } else {
        seen
    };
    if pushed && i == seen.len() {
        assert(u[i] == next[i]);
        assert(u[i] == t0);
        assert(u[j] != u[i]);
        assert(q != 0);
        assert(trim(ps[0]) == u[i]);
    } else {
        assert(i >= next.len());
        if q == 0 {
            if pushed {
                assert(u[seen.len() as int] == next[seen.len() as int]);
                assert(u[seen.len() as int] == t0);
            } else if t0.len() > 0 {
                assert(seen.contains(t0));
                let k = choose|k: int| 0 <= k < seen.len() && seen[k] == t0;
                assert(u[k] == next[k]);
                assert(u[k] == t0);
            } else {
                assert(u[j].len() > 0);
            }
        } else {
            assert(rest[q - 1] == ps[q]);
            assert(trim(rest[q - 1]) == u[j]);
            assert(occurs_before(rest, u[i], q - 1));
            let p = choose|p: int| 0 <= p < q - 1 && trim(#[trigger] rest[p]) == u[i];
            assert(rest[p] == ps[p + 1]);
            assert(trim(ps[p + 1]) == u[i]);
        }
    }
}

/// A block that holds the end marker of a code listing is cut there: a block `t`, the
/// marker `\n&lt;/pre&gt;` and anything after it, where `t` has no `&`, is formatted as `$`,
/// `t` and an empty line.
pub proof fn lemma_format_cut_at_marker(t: Seq<char>, r: Seq<char>)
    requires
        free_of(t, '&'),
    ensures
        format_block(t + "\n&lt;/pre&gt;"@ + r) == seq!['$'] + t + seq!['\n', '\n'],
{
    reveal_strlit("\n&lt;/pre&gt;");
    let marker = "\n&lt;/pre&gt;"@;
    let b = t + marker + r;
    let n = t.len() as int;
    crate::text::lemma_find_first(b, marker);
    lemma_find_bounds(b, marker);
    assert(b.subrange(n, n + marker.len()) =~= marker);
    assert(matches_at(b, marker, n));
    assert forall|m: int| 0 <= m < n implies !#[trigger] matches_at(b, marker, m) by {
        if matches_at(b, marker, m) {
            assert(b.subrange(m, m + marker.len())[1] == b[m + 1]);
            if m + 1 < n {
                assert(b[m + 1] == t[m + 1]);
            } else {
                assert(b[m + 1] == marker[0]);
            }
        }
    }
    if let Some(j) = find(b, marker) {
        assert(j == n) by {
            if j < n {
                assert(matches_at(b, marker, j));
            } else if j > n {
                assert(!matches_at(b, marker, n));
            }
        }
    }
    assert(b.subrange(0, n) =~= t);
}

} // verus!
