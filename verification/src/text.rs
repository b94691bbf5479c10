//! Character-level text model: whitespace, trimming, searching, splitting, replacing.
//!
//! Text is handled as sequences of Unicode scalar values (`char`s); every operation here
//! is stated over `Seq<char>` and carried out on `Vec<char>` or `&[char]`.
use vstd::prelude::*;

verus! {

/// Whether `c` has the Unicode `White_Space` property, the whitespace of `char::is_whitespace`,
/// `str::trim`, `str::split_whitespace` and of `\s` in regular expressions: tab to carriage
/// return, space, U+0085, U+00A0, U+1680, U+2000 to U+200A, U+2028, U+2029, U+202F, U+205F and
/// U+3000.
pub open spec fn white_space(c: char) -> bool {
    ||| ('\t' <= c && c <= '\r')
    ||| c == ' '
    ||| c == '\u{85}'
    ||| c == '\u{a0}'
    ||| c == '\u{1680}'
    ||| ('\u{2000}' <= c && c <= '\u{200a}')
    ||| c == '\u{2028}'
    ||| c == '\u{2029}'
    ||| c == '\u{202f}'
    ||| c == '\u{205f}'
    ||| c == '\u{3000}'
}

/// Whether `c` is whitespace.
pub fn is_white_space(c: char) -> (b: bool)
    ensures
        b == white_space(c),
{
    ('\t' <= c && c <= '\r') || c == ' ' || c == '\u{85}' || c == '\u{a0}' || c == '\u{1680}'
        || ('\u{2000}' <= c && c <= '\u{200a}') || c == '\u{2028}' || c == '\u{2029}' || c
        == '\u{202f}' || c == '\u{205f}' || c == '\u{3000}'
}

/// Collects characters into a `String` with `FromIterator`. Stated: the text of the result is
/// exactly `v`.
#[verifier::external_body]
pub(crate) fn string_of(v: &[char]) -> (s: String)
    ensures
        s@ == v@,
{
    v.iter().collect()
}

/// Copies the characters of `s` into a vector.
pub fn chars_of(s: &str) -> (v: Vec<char>)
    ensures
        v@ == s@,
{
    let mut v: Vec<char> = Vec::new();
    for c in it: s.chars()
        invariant
            v@ == it.seq().take(it.index() as int),
    {
        v.push(c);
    }
    proof {
        assert(v@ == s@);
    }
    v
}

/// Copies the characters of `s` in positions `lo..hi`.
pub fn copy_range(s: &[char], lo: usize, hi: usize) -> (v: Vec<char>)
    requires
        lo <= hi <= s.len(),
    ensures
        v@ == s@.subrange(lo as int, hi as int),
{
    let mut v: Vec<char> = Vec::new();
    let mut k = lo;
    while k < hi
        invariant
            lo <= k <= hi <= s.len(),
            v@ == s@.subrange(lo as int, k as int),
        decreases hi - k,
    {
        v.push(s[k]);
        k += 1;
        assert(v@ =~= s@.subrange(lo as int, k as int));
    }
    v
}

/// Appends the characters of `t` to `v`.
pub fn push_all(v: &mut Vec<char>, t: &[char])
    ensures
        final(v)@ == old(v)@ + t@,
{
    let mut k: usize = 0;
    while k < t.len()
        invariant
            k <= t.len(),
            v@ == old(v)@ + t@.subrange(0, k as int),
        decreases t.len() - k,
    {
        v.push(t[k]);
        k += 1;
        assert(v@ =~= old(v)@ + t@.subrange(0, k as int));
    }
    assert(t@.subrange(0, t@.len() as int) =~= t@);
}

/// `s` with its leading whitespace removed (`str::trim_start`).
pub open spec fn trim_start(s: Seq<char>) -> Seq<char>
    decreases s.len(),
{
    if s.len() > 0 && white_space(s[0]) {
        trim_start(s.drop_first())
    } else {
        s
    }
}

/// `s` with its trailing whitespace removed (`str::trim_end`).
pub open spec fn trim_end(s: Seq<char>) -> Seq<char>
    decreases s.len(),
{
    if s.len() > 0 && white_space(s.last()) {
        trim_end(s.drop_last())
    } else {
        s
    }
}

/// `s` with leading and trailing whitespace removed (`str::trim`).
pub open spec fn trim(s: Seq<char>) -> Seq<char> {
    trim_end(trim_start(s))
}

/// Whether `p` is a prefix of `s` (`str::starts_with`).
pub open spec fn starts_with(s: Seq<char>, p: Seq<char>) -> bool {
    p.len() <= s.len() && s.subrange(0, p.len() as int) == p
}

/// Whether `pat` occurs in `s` at position `i`.
pub open spec fn matches_at(s: Seq<char>, pat: Seq<char>, i: int) -> bool {
    0 <= i && i + pat.len() <= s.len() && s.subrange(i, i + pat.len()) == pat
}

/// The first position at or after `i` where the nonempty `pat` occurs in `s`.
pub open spec fn find_scan(s: Seq<char>, pat: Seq<char>, i: int) -> Option<int>
    decreases s.len() - i,
{
    if pat.len() == 0 || i < 0 || i + pat.len() > s.len() {
        None
    } else if matches_at(s, pat, i) {
        Some(i)
    } else {
        find_scan(s, pat, i + 1)
    }
}

/// The first position where the nonempty `pat` occurs in `s` (`str::find`).
pub open spec fn find(s: Seq<char>, pat: Seq<char>) -> Option<int> {
    find_scan(s, pat, 0)
}

/// The pieces of `s` from `start` on, split at the occurrences of the nonempty `pat` found
/// scanning from `i`, leftmost first and without overlap.
pub open spec fn split_scan(s: Seq<char>, pat: Seq<char>, start: int, i: int) -> Seq<Seq<char>>
    decreases s.len() - i,
{
    if pat.len() == 0 || start < 0 || i < start || i + pat.len() > s.len() {
        seq![s.subrange(start, s.len() as int)]
    } else if matches_at(s, pat, i) {
        seq![s.subrange(start, i)] + split_scan(s, pat, i + pat.len(), i + pat.len())
    } else {
        split_scan(s, pat, start, i + 1)
    }
}

/// The pieces of `s` between the occurrences of the nonempty `pat` (`str::split`).
pub open spec fn split(s: Seq<char>, pat: Seq<char>) -> Seq<Seq<char>> {
    split_scan(s, pat, 0, 0)
}

/// `s` from `start` on with each occurrence of the nonempty `pat` found scanning from `i`
/// replaced by `rep`.
pub open spec fn replace_scan(
    s: Seq<char>,
    pat: Seq<char>,
    rep: Seq<char>,
    start: int,
    i: int,
) -> Seq<char>
    decreases s.len() - i,
{
    if pat.len() == 0 || start < 0 || i < start || i + pat.len() > s.len() {
        s.subrange(start, s.len() as int)
    } else if matches_at(s, pat, i) {
        s.subrange(start, i) + rep + replace_scan(s, pat, rep, i + pat.len(), i + pat.len())
    } else {
        replace_scan(s, pat, rep, start, i + 1)
    }
}

/// `s` with each occurrence of the nonempty `pat` replaced by `rep` (`str::replace`).
pub open spec fn replace(s: Seq<char>, pat: Seq<char>, rep: Seq<char>) -> Seq<char> {
    replace_scan(s, pat, rep, 0, 0)
}


/// The start of `trim_start` of `s[lo..hi]`.
pub fn trim_start_at(s: &[char], lo: usize, hi: usize) -> (i: usize)
    requires
        lo <= hi <= s.len(),
    ensures
        lo <= i <= hi,
        s@.subrange(i as int, hi as int) == trim_start(s@.subrange(lo as int, hi as int)),
{
    let mut i = lo;
    while i < hi && is_white_space(s[i])
        invariant
            lo <= i <= hi <= s.len(),
            trim_start(s@.subrange(lo as int, hi as int)) == trim_start(
                s@.subrange(i as int, hi as int),
            ),
        decreases hi - i,
    {
        assert(s@.subrange(i as int, hi as int).drop_first() =~= s@.subrange(i + 1, hi as int));
        i += 1;
    }
    i
}

/// The end of `trim_end` of `s[lo..hi]`.
pub fn trim_end_at(s: &[char], lo: usize, hi: usize) -> (j: usize)
    requires
        lo <= hi <= s.len(),
    ensures
        lo <= j <= hi,
        s@.subrange(lo as int, j as int) == trim_end(s@.subrange(lo as int, hi as int)),
{
    let mut j = hi;
    while lo < j && is_white_space(s[j - 1])
        invariant
            lo <= j <= hi <= s.len(),
            trim_end(s@.subrange(lo as int, hi as int)) == trim_end(
                s@.subrange(lo as int, j as int),
            ),
        decreases j - lo,
    {
        assert(s@.subrange(lo as int, j as int).drop_last() =~= s@.subrange(lo as int, j - 1));
        j -= 1;
    }
    j
}

/// `trim` of `s[lo..hi]`.
pub fn trim_range(s: &[char], lo: usize, hi: usize) -> (v: Vec<char>)
    requires
        lo <= hi <= s.len(),
    ensures
        v@ == trim(s@.subrange(lo as int, hi as int)),
{
    let a = trim_start_at(s, lo, hi);
    let b = trim_end_at(s, a, hi);
    copy_range(s, a, b)
}

/// `trim_end` of `s[lo..hi]`.
pub fn trim_end_range(s: &[char], lo: usize, hi: usize) -> (v: Vec<char>)
    requires
        lo <= hi <= s.len(),
    ensures
        v@ == trim_end(s@.subrange(lo as int, hi as int)),
{
    let b = trim_end_at(s, lo, hi);
    copy_range(s, lo, b)
}

/// Whether `pat` occurs in `s` at position `i`.
pub fn matches_at_exec(s: &[char], i: usize, pat: &[char]) -> (b: bool)
    ensures
        b == matches_at(s@, pat@, i as int),
{
    if i > s.len() || pat.len() > s.len() - i {
        return false;
    }
    let mut k: usize = 0;
    while k < pat.len()
        invariant
            i + pat.len() <= s.len(),
            k <= pat.len(),
            forall|m: int| 0 <= m < k ==> s@[i + m] == pat@[m],
        decreases pat.len() - k,
    {
        if s[i + k] != pat[k] {
            assert(s@.subrange(i as int, i + pat.len())[k as int] != pat@[k as int]);
            return false;
        }
        k += 1;
    }
    assert(s@.subrange(i as int, i + pat.len()) =~= pat@);
    true
}

/// Whether `s` starts with `p`.
pub fn starts_with_exec(s: &[char], p: &[char]) -> (b: bool)
    ensures
        b == starts_with(s@, p@),
{
    let b = matches_at_exec(s, 0, p);
    assert(b == starts_with(s@, p@));
    b
}

/// The first position of the nonempty `pat` in `s`.
pub fn find_exec(s: &[char], pat: &[char]) -> (r: Option<usize>)
    requires
        pat.len() > 0,
    ensures
        r matches Some(j) ==> find(s@, pat@) == Some(j as int),
        r is None ==> find(s@, pat@) is None,
{
    let mut i: usize = 0;
    while i <= s.len() && pat.len() <= s.len() - i
        invariant
            i <= s.len(),
            pat@.len() > 0,
            find(s@, pat@) == find_scan(s@, pat@, i as int),
        decreases s.len() - i,
    {
        if matches_at_exec(s, i, pat) {
            return Some(i);
        }
        i += 1;
    }
    None
}

/// The pieces of `s` between the occurrences of the nonempty `pat`.
pub fn split_exec(s: &[char], pat: &[char]) -> (r: Vec<Vec<char>>)
    requires
        pat.len() > 0,
    ensures
        r.deep_view() == split(s@, pat@),
{
    let mut out: Vec<Vec<char>> = Vec::new();
    let mut start: usize = 0;
    let mut i: usize = 0;
    while pat.len() <= s.len() - i
        invariant
            start <= i <= s.len(),
            pat@.len() > 0,
            out.deep_view() + split_scan(s@, pat@, start as int, i as int) == split(s@, pat@),
        decreases s.len() - i,
    {
        if matches_at_exec(s, i, pat) {
            let piece = copy_range(s, start, i);
            let ghost before = out.deep_view();
            assert(piece.deep_view() =~= piece@);
            out.push(piece);
            assert(out.deep_view() =~= before.push(piece@));
            i = i + pat.len();
            start = i;
        } else {
            i += 1;
        }
    }
    let piece = copy_range(s, start, s.len());
    let ghost before = out.deep_view();
    assert(piece.deep_view() =~= piece@);
    out.push(piece);
    assert(out.deep_view() =~= before.push(piece@));
    out
}

/// `s` with each occurrence of the nonempty `pat` replaced by `rep`.
pub fn replace_exec(s: &[char], pat: &[char], rep: &[char]) -> (r: Vec<char>)
    requires
        pat.len() > 0,
    ensures
        r@ == replace(s@, pat@, rep@),
{
    let mut out: Vec<char> = Vec::new();
    let mut start: usize = 0;
    let mut i: usize = 0;
    while pat.len() <= s.len() - i
        invariant
            start <= i <= s.len(),
            pat@.len() > 0,
            out@ + replace_scan(s@, pat@, rep@, start as int, i as int) == replace(
                s@,
                pat@,
                rep@,
            ),
        decreases s.len() - i,
    {
        if matches_at_exec(s, i, pat) {
            let ghost before = out@;
            let piece = copy_range(s, start, i);
            push_all(&mut out, &piece);
            push_all(&mut out, rep);
            i = i + pat.len();
            start = i;
        } else {
            i += 1;
        }
    }
    let piece = copy_range(s, start, s.len());
    push_all(&mut out, &piece);
    out
}


/// `x` without one trailing carriage return.
pub open spec fn strip_cr(x: Seq<char>) -> Seq<char> {
    if x.len() > 0 && x.last() == '\r' {
        x.drop_last()
    } else {
        x
    }
}

/// The lines of `s` from `start` on, the line break searched from `i`.
pub open spec fn lines_scan(s: Seq<char>, start: int, i: int) -> Seq<Seq<char>>
    decreases s.len() - i,
{
    if start < 0 || i < start || i >= s.len() {
        if 0 <= start < s.len() {
            seq![s.subrange(start, s.len() as int)]
        } else {
            seq![]
        }
    } else if s[i] == '\n' {
        seq![strip_cr(s.subrange(start, i))] + lines_scan(s, i + 1, i + 1)
    } else {
        lines_scan(s, start, i + 1)
    }
}

/// The lines of `s` (`str::lines`): split after each `\n`, the `\n` and a `\r` right before it
/// removed; a last line without `\n` is kept as it is, and no empty line follows a final `\n`.
pub open spec fn lines(s: Seq<char>) -> Seq<Seq<char>> {
    lines_scan(s, 0, 0)
}

/// The whitespace-separated words of `s` from `start` on, scanning from `i`.
pub open spec fn words_scan(s: Seq<char>, start: int, i: int) -> Seq<Seq<char>>
    decreases s.len() - i,
{
    if start < 0 || i < start || i >= s.len() {
        if 0 <= start < s.len() {
            seq![s.subrange(start, s.len() as int)]
        } else {
            seq![]
        }
    } else if white_space(s[i]) {
        (if start < i {
            seq![s.subrange(start, i)]
        } else {
            seq![]
        }) + words_scan(s, i + 1, i + 1)
    } else {
        words_scan(s, start, i + 1)
    }
}

/// The nonempty maximal runs of non-whitespace in `s` (`str::split_whitespace`).
pub open spec fn words(s: Seq<char>) -> Seq<Seq<char>> {
    words_scan(s, 0, 0)
}

/// `s` with every leading repetition of the nonempty `p` removed (`str::trim_start_matches`).
pub open spec fn trim_start_matches(s: Seq<char>, p: Seq<char>) -> Seq<char>
    decreases s.len(),
{
    if p.len() > 0 && starts_with(s, p) {
        trim_start_matches(s.subrange(p.len() as int, s.len() as int), p)
    } else {
        s
    }
}

/// Pushes `piece` onto `out`, keeping track of the views.
fn push_piece(out: &mut Vec<Vec<char>>, piece: Vec<char>)
    ensures
        final(out).deep_view() == old(out).deep_view().push(piece@),
{
    let ghost before = out.deep_view();
    assert(piece.deep_view() =~= piece@);
    out.push(piece);
    assert(out.deep_view() =~= before.push(piece@));
}

/// The lines of `s`.
pub fn lines_exec(s: &[char]) -> (r: Vec<Vec<char>>)
    ensures
        r.deep_view() == lines(s@),
{
    let mut out: Vec<Vec<char>> = Vec::new();
    let mut start: usize = 0;
    let mut i: usize = 0;
    while i < s.len()
        invariant
            start <= i <= s.len(),
            out.deep_view() + lines_scan(s@, start as int, i as int) == lines(s@),
        decreases s.len() - i,
    {
        if s[i] == '\n' {
            let mut end = i;
            if start < i && s[i - 1] == '\r' {
                end = i - 1;
            }
            let piece = copy_range(s, start, end);
            assert(piece@ =~= strip_cr(s@.subrange(start as int, i as int)));
            let ghost before = out.deep_view();
            push_piece(&mut out, piece);
            assert(out.deep_view() + lines_scan(s@, i + 1, i + 1) =~= before + lines_scan(
                s@,
                start as int,
                i as int,
            ));
            i += 1;
            start = i;
        } else {
            i += 1;
        }
    }
    if start < s.len() {
        let piece = copy_range(s, start, s.len());
        push_piece(&mut out, piece);
    }
    assert(out.deep_view() =~= lines(s@));
    out
}

/// The whitespace-separated words of `s`.
pub fn words_exec(s: &[char]) -> (r: Vec<Vec<char>>)
    ensures
        r.deep_view() == words(s@),
{
    let mut out: Vec<Vec<char>> = Vec::new();
    let mut start: usize = 0;
    let mut i: usize = 0;
    while i < s.len()
        invariant
            start <= i <= s.len(),
            out.deep_view() + words_scan(s@, start as int, i as int) == words(s@),
        decreases s.len() - i,
    {
        if is_white_space(s[i]) {
            let ghost before = out.deep_view();
            if start < i {
                let piece = copy_range(s, start, i);
                push_piece(&mut out, piece);
            }
            assert(out.deep_view() + words_scan(s@, i + 1, i + 1) =~= before + words_scan(
                s@,
                start as int,
                i as int,
            ));
            i += 1;
            start = i;
        } else {
            i += 1;
        }
    }
    if start < s.len() {
        let piece = copy_range(s, start, s.len());
        push_piece(&mut out, piece);
    }
    assert(out.deep_view() =~= words(s@));
    out
}

/// `s` with every leading repetition of the nonempty `p` removed.
pub fn trim_start_matches_exec(s: &[char], p: &[char]) -> (r: Vec<char>)
    requires
        p.len() > 0,
    ensures
        r@ == trim_start_matches(s@, p@),
{
    let mut i: usize = 0;
    assert(s@.subrange(0, s.len() as int) =~= s@);
    while p.len() <= s.len() - i && matches_at_exec(s, i, p)
        invariant
            i <= s.len(),
            p@.len() > 0,
            trim_start_matches(s@, p@) == trim_start_matches(
                s@.subrange(i as int, s.len() as int),
                p@,
            ),
        decreases s.len() - i,
    {
        assert(s@.subrange(i as int, s.len() as int).subrange(0, p@.len() as int) =~= s@.subrange(
            i as int,
            i + p@.len(),
        ));
        assert(s@.subrange(i as int, s.len() as int).subrange(
            p@.len() as int,
            s.len() - i,
        ) =~= s@.subrange(i + p@.len(), s.len() as int));
        i = i + p.len();
    }
    let ghost rest = s@.subrange(i as int, s.len() as int);
    assert(!starts_with(rest, p@)) by {
        if p@.len() <= rest.len() {
            assert(rest.subrange(0, p@.len() as int) =~= s@.subrange(i as int, i + p@.len()));
        }
    }
    copy_range(s, i, s.len())
}

/// A found position lies where the pattern fits.
pub proof fn lemma_find_scan_bounds(s: Seq<char>, pat: Seq<char>, i: int)
    ensures
        find_scan(s, pat, i) matches Some(j) ==> i <= j && j + pat.len() <= s.len() && matches_at(
            s,
            pat,
            j,
        ),
    decreases s.len() - i,
{
    if !(pat.len() == 0 || i < 0 || i + pat.len() > s.len()) && !matches_at(s, pat, i) {
        lemma_find_scan_bounds(s, pat, i + 1);
    }
}

/// A found position lies where the pattern fits.
pub proof fn lemma_find_bounds(s: Seq<char>, pat: Seq<char>)
    ensures
        find(s, pat) matches Some(j) ==> 0 <= j && j + pat.len() <= s.len() && matches_at(s, pat, j),
{
    lemma_find_scan_bounds(s, pat, 0);
}

/// Splitting yields at least one piece.
pub proof fn lemma_split_scan_nonempty(s: Seq<char>, pat: Seq<char>, start: int, i: int)
    ensures
        split_scan(s, pat, start, i).len() >= 1,
    decreases s.len() - i,
{
    if pat.len() == 0 || start < 0 || i < start || i + pat.len() > s.len() {
    } else if matches_at(s, pat, i) {
        lemma_split_scan_nonempty(s, pat, i + pat.len(), i + pat.len());
    } else {
        lemma_split_scan_nonempty(s, pat, start, i + 1);
    }
}

/// Splitting yields at least one piece.
pub proof fn lemma_split_nonempty(s: Seq<char>, pat: Seq<char>)
    ensures
        split(s, pat).len() >= 1,
{
    lemma_split_scan_nonempty(s, pat, 0, 0);
}

/// Whether `t` holds no line break and no carriage return.
pub open spec fn no_breaks(t: Seq<char>) -> bool {
    forall|k: int| 0 <= k < t.len() ==> #[trigger] t[k] != '\n' && t[k] != '\r'
}

/// Scanning the lines of `p + r` past `p` is scanning the lines of `r`.
pub proof fn lemma_lines_scan_shift(p: Seq<char>, r: Seq<char>, a: int, b: int)
    requires
        0 <= a <= b,
    ensures
        lines_scan(p + r, p.len() + a, p.len() + b) == lines_scan(r, a, b),
    decreases r.len() - b,
{
    let s = p + r;
    let n = p.len() as int;
    if b >= r.len() {
        if a < r.len() {
            assert(s.subrange(n + a, s.len() as int) =~= r.subrange(a, r.len() as int));
        }
    } else if r[b] == '\n' {
        assert(s[n + b] == r[b]);
        assert(s.subrange(n + a, n + b) =~= r.subrange(a, b));
        lemma_lines_scan_shift(p, r, b + 1, b + 1);
    } else {
        assert(s[n + b] == r[b]);
        lemma_lines_scan_shift(p, r, a, b + 1);
    }
}

/// Before the first line break, the scan only moves on.
proof fn lemma_lines_scan_to_break(s: Seq<char>, i: int, j: int)
    requires
        0 <= i <= j < s.len(),
        s[j] == '\n',
        forall|k: int| i <= k < j ==> s[k] != '\n',
    ensures
        lines_scan(s, 0, i) == lines_scan(s, 0, j),
    decreases j - i,
{
    if i < j {
        lemma_lines_scan_to_break(s, i + 1, j);
    }
}

/// A line without line break or carriage return, followed by a line break, is the first line.
pub proof fn lemma_lines_first(x: Seq<char>, r: Seq<char>)
    requires
        no_breaks(x),
    ensures
        lines(x + seq!['\n'] + r) == seq![x] + lines(r),
{
    let p = x + seq!['\n'];
    let s = p + r;
    assert(x + seq!['\n'] + r == s);
    let n = x.len() as int;
    assert(s[n] == '\n');
    assert forall|k: int| 0 <= k < n implies s[k] != '\n' by {
        assert(s[k] == x[k]);
    }
    lemma_lines_scan_to_break(s, 0, n);
    assert(s.subrange(0, n) =~= x);
    assert(strip_cr(x) == x) by {
        if x.len() > 0 {
            assert(x[x.len() - 1] != '\r');
        }
    }
    lemma_lines_scan_shift(p, r, 0, 0);
}

proof fn lemma_lines_scan_final_break(x: Seq<char>, start: int, i: int)
    requires
        0 <= start <= i <= x.len(),
        start < x.len(),
        x.last() != '\n',
        x.last() != '\r',
    ensures
        lines_scan(x.push('\n'), start, i) == lines_scan(x, start, i),
    decreases x.len() - i,
{
    let s = x.push('\n');
    let n = x.len() as int;
    if i == n {
        assert(s[n] == '\n');
        assert(s.subrange(start, n) =~= x.subrange(start, n));
        assert(lines_scan(s, n + 1, n + 1) == Seq::<Seq<char>>::empty());
        assert(x.subrange(start, n).last() == x.last());
        assert(lines_scan(s, start, i) =~= lines_scan(x, start, i));
    } else {
        assert(s[i] == x[i]);
        if x[i] == '\n' {
            assert(i != n - 1);
            assert(s.subrange(start, i) =~= x.subrange(start, i));
            lemma_lines_scan_final_break(x, i + 1, i + 1);
        } else {
            lemma_lines_scan_final_break(x, start, i + 1);
        }
    }
}

/// A line break after a text that does not end in a line break or carriage return adds no
/// line: `x` and `x` followed by `\n` have the same lines.
pub proof fn lemma_lines_final_break(x: Seq<char>)
    requires
        x.len() > 0,
        x.last() != '\n',
        x.last() != '\r',
    ensures
        lines(x.push('\n')) == lines(x),
{
    lemma_lines_scan_final_break(x, 0, 0);
}

/// Whether `t` has no whitespace at either end.
pub open spec fn is_trimmed(t: Seq<char>) -> bool {
    t.len() == 0 || (!white_space(t[0]) && !white_space(t.last()))
}

/// Whether `pat` occurs nowhere in `s`.
pub open spec fn no_match(s: Seq<char>, pat: Seq<char>) -> bool {
    forall|i: int| !#[trigger] matches_at(s, pat, i)
}

/// `trim_start` drops a prefix of whitespace, and leaves no whitespace in front.
pub proof fn lemma_trim_start_shape(s: Seq<char>) -> (k: int)
    ensures
        0 <= k <= s.len(),
        trim_start(s) == s.subrange(k, s.len() as int),
        trim_start(s).len() == 0 || !white_space(trim_start(s)[0]),
        forall|j: int| 0 <= j < k ==> white_space(#[trigger] s[j]),
    decreases s.len(),
{
    if s.len() > 0 && white_space(s[0]) {
        let k = lemma_trim_start_shape(s.drop_first());
        assert(s.drop_first().subrange(k, s.len() - 1) =~= s.subrange(k + 1, s.len() as int));
        assert forall|j: int| 0 <= j < k + 1 implies white_space(#[trigger] s[j]) by {
            if j > 0 {
                assert(s[j] == s.drop_first()[j - 1]);
            }
        }
        k + 1
    } else {
        assert(s.subrange(0, s.len() as int) =~= s);
        0
    }
}

/// `trim_end` keeps a prefix, drops only whitespace, and leaves no whitespace at the end.
pub proof fn lemma_trim_end_shape(s: Seq<char>) -> (k: int)
    ensures
        0 <= k <= s.len(),
        trim_end(s) == s.subrange(0, k),
        trim_end(s).len() == 0 || !white_space(trim_end(s).last()),
        forall|j: int| k <= j < s.len() ==> white_space(#[trigger] s[j]),
    decreases s.len(),
{
    if s.len() > 0 && white_space(s.last()) {
        let k = lemma_trim_end_shape(s.drop_last());
        assert(s.drop_last().subrange(0, k) =~= s.subrange(0, k));
        assert forall|j: int| k <= j < s.len() implies white_space(#[trigger] s[j]) by {
            if j < s.len() - 1 {
                assert(s[j] == s.drop_last()[j]);
            }
        }
        k
    } else {
        assert(s.subrange(0, s.len() as int) =~= s);
        s.len() as int
    }
}

/// `trim` keeps a part of `s` and leaves it trimmed; what it drops around that part is all
/// whitespace.
pub proof fn lemma_trim_shape(s: Seq<char>) -> (r: (int, int))
    ensures
        0 <= r.0 <= r.1 <= s.len(),
        trim(s) == s.subrange(r.0, r.1),
        is_trimmed(trim(s)),
        forall|j: int| 0 <= j < r.0 ==> white_space(#[trigger] s[j]),
        forall|j: int| r.1 <= j < s.len() ==> white_space(#[trigger] s[j]),
{
    let a = lemma_trim_start_shape(s);
    let u = trim_start(s);
    let b = lemma_trim_end_shape(u);
    assert(u.subrange(0, b) =~= s.subrange(a, a + b));
    if trim(s).len() > 0 {
        assert(trim(s)[0] == u[0]);
    }
    assert forall|j: int| a + b <= j < s.len() implies white_space(#[trigger] s[j]) by {
        assert(s[j] == u[j - a]);
    }
    (a, a + b)
}

/// A trimmed text is its own trim.
pub proof fn lemma_trimmed_fixed(t: Seq<char>)
    requires
        is_trimmed(t),
    ensures
        trim(t) == t,
{
    assert(trim_start(t) == t);
    if t.len() > 0 {
        assert(trim_end(t) == t);
    }
}

/// A nonempty trimmed text followed by a line break trims back to itself.
pub proof fn lemma_trim_line_break(t: Seq<char>)
    requires
        is_trimmed(t),
        t.len() > 0,
    ensures
        trim(t + seq!['\n']) == t,
{
    let s = t + seq!['\n'];
    assert(s[0] == t[0]);
    assert(trim_start(s) == s);
    assert(s.drop_last() =~= t);
    assert(white_space(s.last()));
    assert(trim_end(s) == trim_end(t));
    assert(trim_end(t) == t);
}

/// A part of a text in which `pat` does not occur has no occurrence either.
pub proof fn lemma_no_match_subrange(s: Seq<char>, pat: Seq<char>, a: int, b: int)
    requires
        no_match(s, pat),
        0 <= a <= b <= s.len(),
    ensures
        no_match(s.subrange(a, b), pat),
{
    let u = s.subrange(a, b);
    assert forall|i: int| !#[trigger] matches_at(u, pat, i) by {
        if matches_at(u, pat, i) {
            assert(s.subrange(a + i, a + i + pat.len()) =~= u.subrange(i, i + pat.len()));
            assert(matches_at(s, pat, a + i));
        }
    }
}

proof fn lemma_split_scan_no_match(s: Seq<char>, pat: Seq<char>, start: int, i: int)
    requires
        pat.len() > 0,
        0 <= start <= i,
        start <= s.len(),
        forall|j: int| start <= j < i ==> !#[trigger] matches_at(s, pat, j),
    ensures
        forall|k: int|
            0 <= k < split_scan(s, pat, start, i).len() ==> no_match(
                #[trigger] split_scan(s, pat, start, i)[k],
                pat,
            ),
    decreases s.len() - i,
{
    let r = split_scan(s, pat, start, i);
    if i + pat.len() > s.len() {
        let u = s.subrange(start, s.len() as int);
        assert forall|m: int| !#[trigger] matches_at(u, pat, m) by {
            if matches_at(u, pat, m) {
                assert(s.subrange(start + m, start + m + pat.len()) =~= u.subrange(
                    m,
                    m + pat.len(),
                ));
                assert(matches_at(s, pat, start + m));
            }
        }
        assert(no_match(u, pat));
        assert(r == seq![u]);
        assert(r[0] == u);
        assert(forall|k: int| 0 <= k < r.len() ==> no_match(#[trigger] r[k], pat));
    } else if matches_at(s, pat, i) {
        let u = s.subrange(start, i);
        assert forall|m: int| !#[trigger] matches_at(u, pat, m) by {
            if matches_at(u, pat, m) {
                assert(s.subrange(start + m, start + m + pat.len()) =~= u.subrange(
                    m,
                    m + pat.len(),
                ));
                assert(matches_at(s, pat, start + m));
            }
        }
        lemma_split_scan_no_match(s, pat, i + pat.len(), i + pat.len());
        let rest = split_scan(s, pat, i + pat.len(), i + pat.len());
        assert(no_match(u, pat));
        assert(r == seq![u] + rest);
        assert forall|k: int| 0 <= k < r.len() implies no_match(#[trigger] r[k], pat) by {
            if k > 0 {
                assert(r[k] == rest[k - 1]);
            }
        }
    } else {
        lemma_split_scan_no_match(s, pat, start, i + 1);
        assert(split_scan(s, pat, start, i) == split_scan(s, pat, start, i + 1));
    }
}

/// No piece of a split holds the separator.
pub proof fn lemma_split_no_match(s: Seq<char>, pat: Seq<char>)
    requires
        pat.len() > 0,
    ensures
        forall|k: int| 0 <= k < split(s, pat).len() ==> no_match(#[trigger] split(s, pat)[k], pat),
{
    lemma_split_scan_no_match(s, pat, 0, 0);
}

/// Scanning on past positions where `pat` does not occur changes nothing.
pub proof fn lemma_split_scan_skip(s: Seq<char>, pat: Seq<char>, start: int, i: int, j: int)
    requires
        pat.len() > 0,
        0 <= start <= i <= j,
        forall|m: int| i <= m < j ==> !#[trigger] matches_at(s, pat, m),
    ensures
        split_scan(s, pat, start, i) == split_scan(s, pat, start, j),
    decreases j - i,
{
    if i < j && i + pat.len() <= s.len() {
        assert(!matches_at(s, pat, i));
        lemma_split_scan_skip(s, pat, start, i + 1, j);
    } else if i < j {
        // both scans are past the last place where `pat` fits
    }
}

/// Splitting `p + r` past `p` is splitting `r`.
pub proof fn lemma_split_scan_shift(p: Seq<char>, r: Seq<char>, pat: Seq<char>, a: int, b: int)
    requires
        pat.len() > 0,
        0 <= a <= b,
        a <= r.len(),
    ensures
        split_scan(p + r, pat, p.len() + a, p.len() + b) == split_scan(r, pat, a, b),
    decreases r.len() - b,
{
    let s = p + r;
    let n = p.len() as int;
    if b + pat.len() > r.len() {
        assert(s.subrange(n + a, s.len() as int) =~= r.subrange(a, r.len() as int));
    } else {
        assert(s.subrange(n + b, n + b + pat.len()) =~= r.subrange(b, b + pat.len()));
        if matches_at(r, pat, b) {
            assert(s.subrange(n + a, n + b) =~= r.subrange(a, b));
            lemma_split_scan_shift(p, r, pat, b + pat.len(), b + pat.len());
        } else {
            lemma_split_scan_shift(p, r, pat, a, b + 1);
        }
    }
}

/// Scanning on past positions where `pat` does not occur replaces nothing.
proof fn lemma_replace_scan_skip(
    s: Seq<char>,
    pat: Seq<char>,
    rep: Seq<char>,
    start: int,
    i: int,
    j: int,
)
    requires
        pat.len() > 0,
        0 <= start <= i <= j,
        forall|m: int| i <= m < j ==> !#[trigger] matches_at(s, pat, m),
    ensures
        replace_scan(s, pat, rep, start, i) == replace_scan(s, pat, rep, start, j),
    decreases j - i,
{
    if i < j && i + pat.len() <= s.len() {
        assert(!matches_at(s, pat, i));
        lemma_replace_scan_skip(s, pat, rep, start, i + 1, j);
    }
}

/// Replacing in `p + r` past `p` is replacing in `r`.
proof fn lemma_replace_scan_shift(
    p: Seq<char>,
    r: Seq<char>,
    pat: Seq<char>,
    rep: Seq<char>,
    a: int,
    b: int,
)
    requires
        pat.len() > 0,
        0 <= a <= b,
        a <= r.len(),
    ensures
        replace_scan(p + r, pat, rep, p.len() + a, p.len() + b) == replace_scan(r, pat, rep, a, b),
    decreases r.len() - b,
{
    let s = p + r;
    let n = p.len() as int;
    if b + pat.len() > r.len() {
        assert(s.subrange(n + a, s.len() as int) =~= r.subrange(a, r.len() as int));
    } else {
        assert(s.subrange(n + b, n + b + pat.len()) =~= r.subrange(b, b + pat.len()));
        if matches_at(r, pat, b) {
            assert(s.subrange(n + a, n + b) =~= r.subrange(a, b));
            lemma_replace_scan_shift(p, r, pat, rep, b + pat.len(), b + pat.len());
        } else {
            lemma_replace_scan_shift(p, r, pat, rep, a, b + 1);
        }
    }
}

/// Replacing in a text where `pat` does not occur changes nothing.
pub proof fn lemma_replace_no_match(s: Seq<char>, pat: Seq<char>, rep: Seq<char>)
    requires
        pat.len() > 0,
        no_match(s, pat),
    ensures
        replace(s, pat, rep) == s,
{
    lemma_replace_scan_skip(s, pat, rep, 0, 0, s.len() as int);
    assert(s.subrange(0, s.len() as int) =~= s);
}

/// Replacing in `x + pat + r`, where `pat` first occurs right after `x`, replaces that
/// occurrence and goes on in `r`.
pub proof fn lemma_replace_first(x: Seq<char>, pat: Seq<char>, r: Seq<char>, rep: Seq<char>)
    requires
        pat.len() > 0,
        forall|m: int| 0 <= m < x.len() ==> !#[trigger] matches_at(x + pat + r, pat, m),
    ensures
        replace(x + pat + r, pat, rep) == x + rep + replace(r, pat, rep),
{
    let s = x + pat + r;
    let n = x.len() as int;
    let q = x + pat;
    lemma_replace_scan_skip(s, pat, rep, 0, 0, n);
    assert(s.subrange(n, n + pat.len()) =~= pat);
    assert(s.subrange(0, n) =~= x);
    assert(s == q + r);
    lemma_replace_scan_shift(q, r, pat, rep, 0, 0);
}

/// A line break after a text, two characters `\r\n` make one line break too.
pub proof fn lemma_lines_first_crlf(x: Seq<char>, r: Seq<char>)
    requires
        no_breaks(x),
    ensures
        lines(x + seq!['\r', '\n'] + r) == seq![x] + lines(r),
{
    let p = x + seq!['\r', '\n'];
    let s = p + r;
    assert(x + seq!['\r', '\n'] + r == s);
    let n = x.len() as int;
    assert(s[n + 1] == '\n');
    assert forall|k: int| 0 <= k < n + 1 implies s[k] != '\n' by {
        if k < n {
            assert(s[k] == x[k]);
        }
    }
    lemma_lines_scan_to_break(s, 0, n + 1);
    assert(s.subrange(0, n + 1) =~= x.push('\r'));
    assert(strip_cr(x.push('\r')) =~= x);
    lemma_lines_scan_shift(p, r, 0, 0);
}

/// Whether `s` holds no carriage return.
pub open spec fn no_cr(s: Seq<char>) -> bool {
    forall|k: int| 0 <= k < s.len() ==> s[k] != '\r'
}

proof fn lemma_first_break(s: Seq<char>) -> (j: int)
    requires
        exists|k: int| 0 <= k < s.len() && s[k] == '\n',
    ensures
        0 <= j < s.len(),
        s[j] == '\n',
        forall|k: int| 0 <= k < j ==> s[k] != '\n',
    decreases s.len(),
{
    if s[0] == '\n' {
        0
    } else {
        let k = choose|k: int| 0 <= k < s.len() && s[k] == '\n';
        assert(s.drop_first()[k - 1] == s[k]);
        let j = lemma_first_break(s.drop_first());
        assert forall|m: int| 0 <= m < j + 1 implies s[m] != '\n' by {
            if m > 0 {
                assert(s[m] == s.drop_first()[m - 1]);
            }
        }
        j + 1
    }
}

/// Writing each line break of a text without carriage returns as `\r\n` keeps its lines, and
/// making each `\r\n` a line break again gives the text back.
pub proof fn lemma_crlf_lines(s: Seq<char>)
    requires
        no_cr(s),
    ensures
        lines(replace(s, seq!['\n'], seq!['\r', '\n'])) == lines(s),
        replace(replace(s, seq!['\n'], seq!['\r', '\n']), seq!['\r', '\n'], seq!['\n']) == s,
    decreases s.len(),
{
    let lf = seq!['\n'];
    let crlf = seq!['\r', '\n'];
    if exists|k: int| 0 <= k < s.len() && s[k] == '\n' {
        let j = lemma_first_break(s);
        let x = s.subrange(0, j);
        let r = s.subrange(j + 1, s.len() as int);
        assert(s =~= x + lf + r);
        assert forall|m: int| 0 <= m < x.len() implies !#[trigger] matches_at(x + lf + r, lf, m) by {
            assert((x + lf + r).subrange(m, m + 1)[0] == s[m]);
        }
        lemma_replace_first(x, lf, r, crlf);
        let rr = replace(r, lf, crlf);
        assert(no_cr(r)) by {
            assert forall|k: int| 0 <= k < r.len() implies r[k] != '\r' by {
                assert(r[k] == s[j + 1 + k]);
            }
        }
        lemma_crlf_lines(r);
        assert(no_breaks(x)) by {
            assert forall|k: int| 0 <= k < x.len() implies #[trigger] x[k] != '\n' && x[k] != '\r' by {
                assert(x[k] == s[k]);
            }
        }
        lemma_lines_first_crlf(x, rr);
        lemma_lines_first(x, r);
        assert forall|m: int| 0 <= m < x.len() implies !#[trigger] matches_at(x + crlf + rr, crlf, m) by {
            let t = x + crlf + rr;
            if matches_at(t, crlf, m) {
                assert(t.subrange(m, m + 2)[0] == t[m]);
                assert(t[m] == '\r');
                if m < x.len() {
                    assert(t[m] == x[m]);
                }
            }
        }
        lemma_replace_first(x, crlf, rr, lf);
    } else {
        assert(no_match(s, lf)) by {
            assert forall|m: int| !#[trigger] matches_at(s, lf, m) by {
                if matches_at(s, lf, m) {
                    assert(s.subrange(m, m + 1)[0] == s[m]);
                }
            }
        }
        lemma_replace_no_match(s, lf, crlf);
        assert(no_match(s, crlf)) by {
            assert forall|m: int| !#[trigger] matches_at(s, crlf, m) by {
                if matches_at(s, crlf, m) {
                    assert(s.subrange(m, m + 2)[0] == s[m]);
                }
            }
        }
        lemma_replace_no_match(s, crlf, lf);
    }
}

/// A text without carriage returns holds no `\r\n` to replace.
pub proof fn lemma_crlf_absent(s: Seq<char>)
    requires
        no_cr(s),
    ensures
        replace(s, seq!['\r', '\n'], seq!['\n']) == s,
{
    let crlf = seq!['\r', '\n'];
    assert forall|m: int| !#[trigger] matches_at(s, crlf, m) by {
        if matches_at(s, crlf, m) {
            assert(s.subrange(m, m + 2)[0] == s[m]);
        }
    }
    lemma_replace_no_match(s, crlf, seq!['\n']);
}

/// Splitting `x + pat + r`, where no occurrence of `pat` reaches over the end of `x`, splits
/// `x` and then `r`.
proof fn lemma_split_scan_concat(x: Seq<char>, pat: Seq<char>, r: Seq<char>, start: int, i: int)
    requires
        pat.len() > 0,
        0 <= start <= i <= x.len(),
        forall|m: int|
            x.len() - pat.len() < m < x.len() ==> !#[trigger] matches_at(x + pat + r, pat, m),
    ensures
        split_scan(x + pat + r, pat, start, i) == split_scan(x, pat, start, i) + split(r, pat),
    decreases x.len() - i,
{
    let s = x + pat + r;
    let n = x.len() as int;
    let q = x + pat;
    assert(s == q + r);
    if i + pat.len() > n {
        lemma_split_scan_skip(s, pat, start, i, n);
        assert(s.subrange(n, n + pat.len()) =~= pat);
        assert(s.subrange(start, n) =~= x.subrange(start, n));
        lemma_split_scan_shift(q, r, pat, 0, 0);
        assert(split_scan(x, pat, start, i) == seq![x.subrange(start, n)]);
    } else {
        assert(s.subrange(i, i + pat.len()) =~= x.subrange(i, i + pat.len()));
        if matches_at(x, pat, i) {
            assert(s.subrange(start, i) =~= x.subrange(start, i));
            lemma_split_scan_concat(x, pat, r, i + pat.len(), i + pat.len());
            assert(split_scan(s, pat, start, i) =~= split_scan(x, pat, start, i) + split(r, pat));
        } else {
            lemma_split_scan_concat(x, pat, r, start, i + 1);
        }
    }
}

/// Splitting `x + pat + r`, where no occurrence of `pat` reaches over the end of `x`, gives
/// the pieces of `x` and then those of `r`.
pub proof fn lemma_split_concat(x: Seq<char>, pat: Seq<char>, r: Seq<char>)
    requires
        pat.len() > 0,
        forall|m: int|
            x.len() - pat.len() < m < x.len() ==> !#[trigger] matches_at(x + pat + r, pat, m),
    ensures
        split(x + pat + r, pat) == split(x, pat) + split(r, pat),
{
    lemma_split_scan_concat(x, pat, r, 0, 0);
}

proof fn lemma_split_scan_prefix(q: Seq<char>, r: Seq<char>, pat: Seq<char>, b: int)
    requires
        pat.len() > 0,
        0 <= b,
    ensures
        split_scan(r, pat, 0, b).len() >= 1,
        split_scan(q + r, pat, 0, q.len() + b) == split_scan(r, pat, 0, b).update(
            0,
            q + split_scan(r, pat, 0, b)[0],
        ),
    decreases r.len() - b,
{
    let s = q + r;
    let n = q.len() as int;
    lemma_split_scan_nonempty(r, pat, 0, b);
    if b + pat.len() > r.len() {
        assert(s.subrange(0, s.len() as int) =~= q + r.subrange(0, r.len() as int));
        assert(split_scan(s, pat, 0, n + b) =~= split_scan(r, pat, 0, b).update(
            0,
            q + split_scan(r, pat, 0, b)[0],
        ));
    } else {
        assert(s.subrange(n + b, n + b + pat.len()) =~= r.subrange(b, b + pat.len()));
        if matches_at(r, pat, b) {
            assert(s.subrange(0, n + b) =~= q + r.subrange(0, b));
            lemma_split_scan_shift(q, r, pat, b + pat.len(), b + pat.len());
            assert(split_scan(s, pat, 0, n + b) =~= split_scan(r, pat, 0, b).update(
                0,
                q + split_scan(r, pat, 0, b)[0],
            ));
        } else {
            lemma_split_scan_prefix(q, r, pat, b + 1);
        }
    }
}

/// Splitting `q + r`, where `pat` occurs nowhere from inside `q`, gives the pieces of `r`
/// with `q` put before the first.
pub proof fn lemma_split_prefix(q: Seq<char>, r: Seq<char>, pat: Seq<char>)
    requires
        pat.len() > 0,
        forall|m: int| 0 <= m < q.len() ==> !#[trigger] matches_at(q + r, pat, m),
    ensures
        split(r, pat).len() >= 1,
        split(q + r, pat) == split(r, pat).update(0, q + split(r, pat)[0]),
{
    lemma_split_scan_skip(q + r, pat, 0, 0, q.len() as int);
    lemma_split_scan_prefix(q, r, pat, 0);
}

proof fn lemma_replace_scan_prefix(q: Seq<char>, r: Seq<char>, pat: Seq<char>, rep: Seq<char>, b: int)
    requires
        pat.len() > 0,
        0 <= b,
    ensures
        replace_scan(q + r, pat, rep, 0, q.len() + b) == q + replace_scan(r, pat, rep, 0, b),
    decreases r.len() - b,
{
    let s = q + r;
    let n = q.len() as int;
    if b + pat.len() > r.len() {
        assert(s.subrange(0, s.len() as int) =~= q + r.subrange(0, r.len() as int));
    } else {
        assert(s.subrange(n + b, n + b + pat.len()) =~= r.subrange(b, b + pat.len()));
        if matches_at(r, pat, b) {
            assert(s.subrange(0, n + b) =~= q + r.subrange(0, b));
            lemma_replace_scan_shift(q, r, pat, rep, b + pat.len(), b + pat.len());
            assert(replace_scan(s, pat, rep, 0, n + b) =~= q + replace_scan(r, pat, rep, 0, b));
        } else {
            lemma_replace_scan_prefix(q, r, pat, rep, b + 1);
        }
    }
}

/// Replacing in `q + r`, where `pat` occurs nowhere from inside `q`, keeps `q` and replaces
/// in `r`.
pub proof fn lemma_replace_prefix(q: Seq<char>, r: Seq<char>, pat: Seq<char>, rep: Seq<char>)
    requires
        pat.len() > 0,
        forall|m: int| 0 <= m < q.len() ==> !#[trigger] matches_at(q + r, pat, m),
    ensures
        replace(q + r, pat, rep) == q + replace(r, pat, rep),
{
    lemma_replace_scan_skip(q + r, pat, rep, 0, 0, q.len() as int);
    lemma_replace_scan_prefix(q, r, pat, rep, 0);
}

/// Whether every character of `s` is whitespace.
pub open spec fn all_white(s: Seq<char>) -> bool {
    forall|k: int| 0 <= k < s.len() ==> white_space(#[trigger] s[k])
}

/// Trimming the front of `x + r` trims `x`, and goes on into `r` when `x` is all whitespace.
pub proof fn lemma_trim_start_concat(x: Seq<char>, r: Seq<char>)
    ensures
        trim_start(x).len() > 0 ==> trim_start(x + r) == trim_start(x) + r,
        trim_start(x).len() == 0 ==> trim_start(x + r) == trim_start(r) && all_white(x),
    decreases x.len(),
{
    if x.len() == 0 {
        assert(x + r =~= r);
    } else {
        assert((x + r)[0] == x[0]);
        if white_space(x[0]) {
            assert((x + r).drop_first() =~= x.drop_first() + r);
            lemma_trim_start_concat(x.drop_first(), r);
            if trim_start(x).len() == 0 {
                assert forall|k: int| 0 <= k < x.len() implies white_space(#[trigger] x[k]) by {
                    if k > 0 {
                        assert(x[k] == x.drop_first()[k - 1]);
                    }
                }
            }
        }
    }
}

/// Splitting a text in which `pat` does not occur gives the text itself.
pub proof fn lemma_split_whole(s: Seq<char>, pat: Seq<char>)
    requires
        pat.len() > 0,
        no_match(s, pat),
    ensures
        split(s, pat) == seq![s],
{
    lemma_split_scan_skip(s, pat, 0, 0, s.len() as int);
    assert(s.subrange(0, s.len() as int) =~= s);
}

/// A text of whitespace only trims to nothing.
pub proof fn lemma_trim_white(s: Seq<char>)
    requires
        all_white(s),
    ensures
        trim_start(s).len() == 0,
        trim(s).len() == 0,
    decreases s.len(),
{
    if s.len() > 0 {
        assert forall|k: int| 0 <= k < s.drop_first().len() implies white_space(
            #[trigger] s.drop_first()[k],
        ) by {
            assert(s.drop_first()[k] == s[k + 1]);
        }
        lemma_trim_white(s.drop_first());
    }
}

/// Whether the character `c` occurs nowhere in `s`.
pub open spec fn free_of(s: Seq<char>, c: char) -> bool {
    forall|k: int| 0 <= k < s.len() ==> s[k] != c
}

/// A pattern holding a character that `s` lacks occurs nowhere in `s`.
pub proof fn lemma_free_no_match(s: Seq<char>, pat: Seq<char>, j: int)
    requires
        0 <= j < pat.len(),
        free_of(s, pat[j]),
    ensures
        no_match(s, pat),
{
    assert forall|m: int| !#[trigger] matches_at(s, pat, m) by {
        if matches_at(s, pat, m) {
            assert(s.subrange(m, m + pat.len())[j] == s[m + j]);
        }
    }
}

/// Whitespace after a text is trimmed off its end.
pub proof fn lemma_trim_end_white_tail(t: Seq<char>, w: Seq<char>)
    requires
        all_white(w),
    ensures
        trim_end(t + w) == trim_end(t),
    decreases w.len(),
{
    if w.len() == 0 {
        assert(t + w =~= t);
    } else {
        assert((t + w).last() == w.last());
        assert((t + w).drop_last() =~= t + w.drop_last());
        assert forall|k: int| 0 <= k < w.drop_last().len() implies white_space(
            #[trigger] w.drop_last()[k],
        ) by {
            assert(w.drop_last()[k] == w[k]);
        }
        lemma_trim_end_white_tail(t, w.drop_last());
    }
}

/// A nonempty trimmed text followed by whitespace trims back to itself.
pub proof fn lemma_trim_white_tail(t: Seq<char>, w: Seq<char>)
    requires
        is_trimmed(t),
        t.len() > 0,
        all_white(w),
    ensures
        trim(t + w) == t,
{
    lemma_trimmed_fixed(t);
    assert(trim_start(t) == t);
    lemma_trim_start_concat(t, w);
    lemma_trim_end_white_tail(t, w);
    assert(trim_end(t) == t);
}

proof fn lemma_split_scan_suffix(x: Seq<char>, r: Seq<char>, pat: Seq<char>, start: int, i: int)
    requires
        pat.len() > 0,
        0 <= start <= i <= x.len(),
        forall|m: int| x.len() - pat.len() < m ==> !#[trigger] matches_at(x + r, pat, m),
    ensures
        split_scan(x, pat, start, i).len() >= 1,
        split_scan(x + r, pat, start, i) == split_scan(x, pat, start, i).update(
            split_scan(x, pat, start, i).len() - 1,
            split_scan(x, pat, start, i).last() + r,
        ),
    decreases x.len() - i,
{
    let s = x + r;
    let n = x.len() as int;
    lemma_split_scan_nonempty(x, pat, start, i);
    if i + pat.len() > n {
        lemma_split_scan_skip(s, pat, start, i, s.len() as int);
        assert(s.subrange(start, s.len() as int) =~= x.subrange(start, n) + r);
        assert(split_scan(x, pat, start, i) == seq![x.subrange(start, n)]);
        assert(split_scan(s, pat, start, i) =~= split_scan(x, pat, start, i).update(
            0,
            x.subrange(start, n) + r,
        ));
    } else {
        assert(s.subrange(i, i + pat.len()) =~= x.subrange(i, i + pat.len()));
        if matches_at(x, pat, i) {
            assert(s.subrange(start, i) =~= x.subrange(start, i));
            lemma_split_scan_suffix(x, r, pat, i + pat.len(), i + pat.len());
            let b = split_scan(x, pat, i + pat.len(), i + pat.len());
            assert(split_scan(x, pat, start, i) == seq![x.subrange(start, i)] + b);
            assert(split_scan(s, pat, start, i) =~= split_scan(x, pat, start, i).update(
                split_scan(x, pat, start, i).len() - 1,
                split_scan(x, pat, start, i).last() + r,
            ));
        } else {
            lemma_split_scan_suffix(x, r, pat, start, i + 1);
        }
    }
}

/// Splitting `x + r`, where no occurrence of `pat` starts in the end of `x` or in `r`, gives
/// the pieces of `x` with `r` added to the last.
pub proof fn lemma_split_suffix(x: Seq<char>, r: Seq<char>, pat: Seq<char>)
    requires
        pat.len() > 0,
        forall|m: int| x.len() - pat.len() < m ==> !#[trigger] matches_at(x + r, pat, m),
    ensures
        split(x, pat).len() >= 1,
        split(x + r, pat) == split(x, pat).update(
            split(x, pat).len() - 1,
            split(x, pat).last() + r,
        ),
{
    lemma_split_scan_suffix(x, r, pat, 0, 0);
}

/// `n` line breaks in a row.
pub open spec fn breaks(n: nat) -> Seq<char> {
    Seq::new(n, |i: int| '\n')
}

/// Whether `t` is a part of `s`: the characters of `s` in some positions `a..c`.
pub open spec fn part_of(t: Seq<char>, s: Seq<char>) -> bool {
    exists|a: int, c: int| 0 <= a <= c <= s.len() && t == #[trigger] s.subrange(a, c)
}

/// A text without the character `c` joined to another one lacks it too.
pub proof fn lemma_free_concat(a: Seq<char>, b: Seq<char>, c: char)
    requires
        free_of(a, c),
        free_of(b, c),
    ensures
        free_of(a + b, c),
{
    assert forall|k: int| 0 <= k < (a + b).len() implies (a + b)[k] != c by {
        if k >= a.len() {
            assert((a + b)[k] == b[k - a.len()]);
        }
    }
}

/// A part of a text lacks the characters and the pattern that the text lacks.
pub proof fn lemma_part_facts(t: Seq<char>, s: Seq<char>, pat: Seq<char>, c: char)
    requires
        part_of(t, s),
    ensures
        free_of(s, c) ==> free_of(t, c),
        no_match(s, pat) ==> no_match(t, pat),
{
    let (a, b) = choose|a: int, b: int| 0 <= a <= b <= s.len() && t == #[trigger] s.subrange(a, b);
    if no_match(s, pat) {
        lemma_no_match_subrange(s, pat, a, b);
    }
    if free_of(s, c) {
        assert forall|k: int| 0 <= k < t.len() implies t[k] != c by {
            assert(t[k] == s[a + k]);
        }
    }
}

/// A run of line breaks does not reach over the place where two texts meet unless both sides
/// of it are line breaks.
pub proof fn lemma_breaks_concat(a: Seq<char>, b: Seq<char>, n: nat)
    requires
        n >= 2,
        no_match(a, breaks(n)),
        no_match(b, breaks(n)),
        a.len() == 0 || b.len() == 0 || a.last() != '\n' || b[0] != '\n',
    ensures
        no_match(a + b, breaks(n)),
{
    let t = a + b;
    let run = breaks(n);
    let la = a.len() as int;
    assert forall|m: int| !#[trigger] matches_at(t, run, m) by {
        if matches_at(t, run, m) {
            if m + n <= la {
                assert(t.subrange(m, m + n) =~= a.subrange(m, m + n));
                assert(matches_at(a, run, m));
            } else if m >= la {
                assert(t.subrange(m, m + n) =~= b.subrange(m - la, m - la + n));
                assert(matches_at(b, run, m - la));
            } else {
                assert(t.subrange(m, m + n)[la - 1 - m] == t[la - 1]);
                assert(t.subrange(m, m + n)[la - m] == t[la]);
                assert(t[la - 1] == a.last());
                assert(t[la] == b[0]);
            }
        }
    }
}

proof fn lemma_find_scan_first(s: Seq<char>, pat: Seq<char>, i: int)
    requires
        pat.len() > 0,
        0 <= i,
    ensures
        find_scan(s, pat, i) matches Some(j) ==> i <= j && matches_at(s, pat, j) && forall|m: int|
            i <= m < j ==> !#[trigger] matches_at(s, pat, m),
        find_scan(s, pat, i) is None ==> forall|m: int| i <= m ==> !#[trigger] matches_at(s, pat, m),
    decreases s.len() - i,
{
    if i + pat.len() <= s.len() && !matches_at(s, pat, i) {
        lemma_find_scan_first(s, pat, i + 1);
    }
}

/// The first occurrence that `find` gives splits a text into the part before it, the
/// occurrence and the rest; without one, the pattern occurs nowhere.
pub proof fn lemma_find_first(s: Seq<char>, pat: Seq<char>)
    requires
        pat.len() > 0,
    ensures
        find(s, pat) matches Some(j) ==> 0 <= j && j + pat.len() <= s.len() && s == s.subrange(0, j)
            + pat + s.subrange(j + pat.len(), s.len() as int) && forall|m: int|
            0 <= m < j ==> !#[trigger] matches_at(s, pat, m),
        find(s, pat) is None ==> no_match(s, pat),
{
    lemma_find_scan_first(s, pat, 0);
    if let Some(j) = find(s, pat) {
        assert(s =~= s.subrange(0, j) + pat + s.subrange(j + pat.len(), s.len() as int));
    } else {
        assert forall|m: int| !#[trigger] matches_at(s, pat, m) by {
            if m >= 0 {
                assert(!matches_at(s, pat, m));
            }
        }
    }
}

/// Replacing keeps a text free of a character that the replacement lacks.
pub proof fn lemma_replace_free(s: Seq<char>, pat: Seq<char>, rep: Seq<char>, c: char)
    requires
        pat.len() > 0,
        free_of(s, c),
        free_of(rep, c),
    ensures
        free_of(replace(s, pat, rep), c),
    decreases s.len(),
{
    lemma_find_first(s, pat);
    if let Some(j) = find(s, pat) {
        let x = s.subrange(0, j);
        let r = s.subrange(j + pat.len(), s.len() as int);
        lemma_replace_first(x, pat, r, rep);
        assert(part_of(x, s)) by {
            assert(x == s.subrange(0, j));
        }
        assert(part_of(r, s)) by {
            assert(r == s.subrange(j + pat.len(), s.len() as int));
        }
        lemma_part_facts(x, s, pat, c);
        lemma_part_facts(r, s, pat, c);
        lemma_replace_free(r, pat, rep, c);
        lemma_free_concat(x, rep, c);
        lemma_free_concat(x + rep, replace(r, pat, rep), c);
    } else {
        lemma_replace_no_match(s, pat, rep);
    }
}

/// Around the first three line breaks in a row of a text without four in a row: before them
/// no three in a row and no line break at the end, after them no line break at the start.
proof fn lemma_first_breaks_shape(s: Seq<char>, j: int)
    requires
        no_match(s, breaks(4)),
        0 <= j,
        j + 3 <= s.len(),
        matches_at(s, breaks(3), j),
        forall|m: int| 0 <= m < j ==> !#[trigger] matches_at(s, breaks(3), m),
    ensures
        no_match(s.subrange(0, j), breaks(3)),
        j == 0 || s[j - 1] != '\n',
        j + 3 == s.len() || s[j + 3] != '\n',
{
    let q3 = breaks(3);
    let x = s.subrange(0, j);
    assert forall|m: int| !#[trigger] matches_at(x, q3, m) by {
        if matches_at(x, q3, m) {
            assert(s.subrange(m, m + 3) =~= x.subrange(m, m + 3));
            assert(matches_at(s, q3, m));
        }
    }
    assert(s[j] == s.subrange(j, j + 3)[0]);
    assert(s[j + 1] == s.subrange(j, j + 3)[1]);
    assert(s[j + 2] == s.subrange(j, j + 3)[2]);
    if j > 0 && s[j - 1] == '\n' {
        assert(s.subrange(j - 1, j + 2) =~= q3);
        assert(matches_at(s, q3, j - 1));
    }
    if j + 3 < s.len() && s[j + 3] == '\n' {
        assert(s.subrange(j, j + 4) =~= breaks(4));
        assert(matches_at(s, breaks(4), j));
    }
}

/// Making each three line breaks in a row two, in a text without four in a row, leaves no
/// three in a row; and a text that does not start with a line break keeps its first character.
pub proof fn lemma_replace_breaks(s: Seq<char>)
    requires
        no_match(s, breaks(4)),
    ensures
        no_match(replace(s, breaks(3), breaks(2)), breaks(3)),
        s.len() > 0 && s[0] != '\n' ==> replace(s, breaks(3), breaks(2)).len() > 0 && replace(
            s,
            breaks(3),
            breaks(2),
        )[0] == s[0],
    decreases s.len(),
{
    let q3 = breaks(3);
    let q2 = breaks(2);
    lemma_find_first(s, q3);
    if let Some(j) = find(s, q3) {
        let x = s.subrange(0, j);
        let r = s.subrange(j + 3, s.len() as int);
        lemma_find_bounds(s, q3);
        lemma_first_breaks_shape(s, j);
        lemma_replace_first(x, q3, r, q2);
        assert(part_of(r, s)) by {
            assert(r == s.subrange(j + 3, s.len() as int));
        }
        lemma_part_facts(r, s, breaks(4), ' ');
        lemma_replace_breaks(r);
        let rr = replace(r, q3, q2);
        assert(x.len() == 0 || x.last() != '\n');
        assert(r.len() == 0 || r[0] != '\n');
        assert(rr.len() == 0 || rr[0] != '\n');
        assert(no_match(q2, q3));
        lemma_breaks_concat(x, q2, 3);
        lemma_breaks_concat(x + q2, rr, 3);
        assert(replace(s, q3, q2) == x + q2 + rr);
        if s.len() > 0 && s[0] != '\n' {
            assert(j > 0);
            assert((x + q2 + rr)[0] == x[0]);
        }
    } else {
        lemma_replace_no_match(s, q3, q2);
    }
}

proof fn lemma_split_scan_parts(s: Seq<char>, pat: Seq<char>, start: int, i: int)
    requires
        pat.len() > 0,
        0 <= start <= i,
        start <= s.len(),
    ensures
        forall|k: int|
            0 <= k < split_scan(s, pat, start, i).len() ==> part_of(
                #[trigger] split_scan(s, pat, start, i)[k],
                s,
            ),
    decreases s.len() - i,
{
    let r = split_scan(s, pat, start, i);
    if i + pat.len() > s.len() {
        assert(r[0] == s.subrange(start, s.len() as int));
        assert forall|k: int| 0 <= k < r.len() implies part_of(#[trigger] r[k], s) by {
            assert(k == 0);
            assert(r[0] == s.subrange(start, s.len() as int));
        }
    } else if matches_at(s, pat, i) {
        lemma_split_scan_parts(s, pat, i + pat.len(), i + pat.len());
        let rest = split_scan(s, pat, i + pat.len(), i + pat.len());
        assert forall|k: int| 0 <= k < r.len() implies part_of(#[trigger] r[k], s) by {
            if k == 0 {
                assert(r[0] == s.subrange(start, i));
            } else {
                assert(r[k] == rest[k - 1]);
            }
        }
    } else {
        lemma_split_scan_parts(s, pat, start, i + 1);
        assert(r == split_scan(s, pat, start, i + 1));
    }
}

/// Each piece of a split is a part of the text split.
pub proof fn lemma_split_parts(s: Seq<char>, pat: Seq<char>)
    requires
        pat.len() > 0,
    ensures
        forall|k: int| 0 <= k < split(s, pat).len() ==> part_of(#[trigger] split(s, pat)[k], s),
{
    lemma_split_scan_parts(s, pat, 0, 0);
}

proof fn lemma_words_scan_shift(p: Seq<char>, r: Seq<char>, a: int, b: int)
    requires
        0 <= a <= b,
    ensures
        words_scan(p + r, p.len() + a, p.len() + b) == words_scan(r, a, b),
    decreases r.len() - b,
{
    let s = p + r;
    let n = p.len() as int;
    if b >= r.len() {
        if a < r.len() {
            assert(s.subrange(n + a, s.len() as int) =~= r.subrange(a, r.len() as int));
        }
    } else {
        assert(s[n + b] == r[b]);
        if white_space(r[b]) {
            assert(s.subrange(n + a, n + b) =~= r.subrange(a, b));
            lemma_words_scan_shift(p, r, b + 1, b + 1);
        } else {
            lemma_words_scan_shift(p, r, a, b + 1);
        }
    }
}

proof fn lemma_words_scan_concat(x: Seq<char>, c: char, y: Seq<char>, start: int, i: int)
    requires
        0 <= start <= i <= x.len(),
        white_space(c),
    ensures
        words_scan(x + seq![c] + y, start, i) == words_scan(x, start, i) + words(y),
    decreases x.len() - i,
{
    let s = x + seq![c] + y;
    let n = x.len() as int;
    let q = x + seq![c];
    assert(s == q + y);
    if i == n {
        assert(s[n] == c);
        assert(s.subrange(start, n) =~= x.subrange(start, n));
        lemma_words_scan_shift(q, y, 0, 0);
        assert(words_scan(s, start, i) =~= words_scan(x, start, i) + words(y));
    } else {
        assert(s[i] == x[i]);
        if white_space(x[i]) {
            assert(s.subrange(start, i) =~= x.subrange(start, i));
            lemma_words_scan_concat(x, c, y, i + 1, i + 1);
            assert(words_scan(s, start, i) =~= words_scan(x, start, i) + words(y));
        } else {
            lemma_words_scan_concat(x, c, y, start, i + 1);
        }
    }
}

proof fn lemma_words_scan_single(x: Seq<char>, i: int)
    requires
        0 <= i <= x.len(),
        forall|k: int| 0 <= k < x.len() ==> !white_space(#[trigger] x[k]),
    ensures
        words_scan(x, 0, i) == if x.len() > 0 {
            seq![x]
        } else {
            Seq::<Seq<char>>::empty()
        },
    decreases x.len() - i,
{
    if i < x.len() {
        lemma_words_scan_single(x, i + 1);
    } else {
        assert(x.subrange(0, x.len() as int) =~= x);
    }
}

/// The words of a text are its runs of non-whitespace (`str::split_whitespace`): a text
/// without whitespace is one word (none when empty), and two texts joined by a whitespace
/// character have the words of the first and then those of the second.
pub proof fn lemma_words_meaning(x: Seq<char>, c: char, y: Seq<char>)
    ensures
        (forall|k: int| 0 <= k < x.len() ==> !white_space(#[trigger] x[k])) ==> words(x) == (if x.len()
            > 0 {
            seq![x]
        } else {
            Seq::<Seq<char>>::empty()
        }),
        white_space(c) ==> words(x + seq![c] + y) == words(x) + words(y),
{
    if forall|k: int| 0 <= k < x.len() ==> !white_space(#[trigger] x[k]) {
        lemma_words_scan_single(x, 0);
    }
    if white_space(c) {
        lemma_words_scan_concat(x, c, y, 0, 0);
    }
}

proof fn lemma_lines_scan_single(x: Seq<char>, i: int)
    requires
        0 <= i <= x.len(),
        forall|k: int| 0 <= k < x.len() ==> x[k] != '\n',
    ensures
        lines_scan(x, 0, i) == if x.len() > 0 {
            seq![x]
        } else {
            Seq::<Seq<char>>::empty()
        },
    decreases x.len() - i,
{
    if i < x.len() {
        lemma_lines_scan_single(x, i + 1);
    } else {
        assert(x.subrange(0, x.len() as int) =~= x);
    }
}

/// A text without a line break is one line, kept as it is (none when empty).
pub proof fn lemma_lines_single(x: Seq<char>)
    requires
        forall|k: int| 0 <= k < x.len() ==> x[k] != '\n',
    ensures
        lines(x) == if x.len() > 0 {
            seq![x]
        } else {
            Seq::<Seq<char>>::empty()
        },
{
    lemma_lines_scan_single(x, 0);
}

} // verus!
