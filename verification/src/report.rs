//! The markdown reports: the duplicate addresses, one heading per address and one bullet per
//! code; reading that report back; and the consolidated report, which groups the addresses by
//! the set of codes that share them.
use vstd::prelude::*;
use crate::text::{
    chars_of, lemma_lines_first, lines, lines_exec, no_breaks, push_all, starts_with, string_of,
    trim_start_matches, trim_start_matches_exec,
};
use crate::gecko::{push_text, strings_of};
use crate::duplicates::{duplicates_listed, entry_keys};
use crate::order::{lemma_lex_irreflexive, strictly_sorted};
use crate::order::{lemma_sort_texts, lemma_sort_texts_order_free, sort_texts, sort_texts_exec, sorted};

verus! {

/// The heading prefix of an address section of the duplicates report.
pub open spec fn address_heading() -> Seq<char> {
    "## Duplicate address: "@
}

/// The bullet prefix of a code line of the duplicates report.
pub open spec fn code_bullet() -> Seq<char> {
    "- Found in code: "@
}

/// `x` followed by a line break.
pub open spec fn line(x: Seq<char>) -> Seq<char> {
    x + seq!['\n']
}

/// The lines `ls`, each followed by a line break.
pub open spec fn join_lines(ls: Seq<Seq<char>>) -> Seq<char>
    decreases ls.len(),
{
    if ls.len() == 0 {
        seq![]
    } else {
        line(ls[0]) + join_lines(ls.drop_first())
    }
}

/// The lines `prefix + x` for each `x` of `xs`.
pub open spec fn prefixed(prefix: Seq<char>, xs: Seq<Seq<char>>) -> Seq<Seq<char>> {
    xs.map_values(|x: Seq<char>| prefix + x)
}

/// The lines of the section of one address: its heading, a bullet for each code, and an
/// empty line.
pub open spec fn address_section(a: Seq<char>, hs: Seq<Seq<char>>) -> Seq<Seq<char>> {
    seq![address_heading() + a] + prefixed(code_bullet(), hs) + seq![seq![]]
}

/// The lines of the duplicates report of the entries `e`.
pub open spec fn duplicates_report_lines(e: Seq<(Seq<char>, Seq<Seq<char>>)>) -> Seq<Seq<char>>
    decreases e.len(),
{
    if e.len() == 0 {
        seq![]
    } else {
        address_section(e[0].0, e[0].1) + duplicates_report_lines(e.drop_first())
    }
}

/// The duplicates report of the entries `e`, in markdown.
pub open spec fn duplicates_report(e: Seq<(Seq<char>, Seq<Seq<char>>)>) -> Seq<char> {
    join_lines(duplicates_report_lines(e))
}

/// The position of the first entry of `e` at or after `i` whose key is `k`.
pub open spec fn key_position_from<K>(e: Seq<(K, Seq<Seq<char>>)>, k: K, i: int) -> Option<int>
    decreases e.len() - i,
{
    if i < 0 || i >= e.len() {
        None
    } else if e[i].0 == k {
        Some(i)
    } else {
        key_position_from(e, k, i + 1)
    }
}

/// `e` with `v` added to the list of the key `k`: appended to the list of the first entry with
/// that key, or a new entry `(k, [v])` at the end.
pub open spec fn add_entry<K>(e: Seq<(K, Seq<Seq<char>>)>, k: K, v: Seq<char>) -> Seq<(K, Seq<Seq<char>>)> {
    match key_position_from(e, k, 0) {
        Some(i) => e.update(i, (k, e[i].1.push(v))),
        None => e.push((k, seq![v])),
    }
}

/// What reading one line of a duplicates report does to the current address and the entries:
/// a heading line sets the address, a bullet line adds the code to the current address.
pub open spec fn report_step(
    l: Seq<char>,
    cur: Seq<char>,
    e: Seq<(Seq<char>, Seq<Seq<char>>)>,
) -> (Seq<char>, Seq<(Seq<char>, Seq<Seq<char>>)>) {
    if starts_with(l, "## Duplicate address:"@) {
        (trim_start_matches(l, address_heading()), e)
    } else if starts_with(l, "- Found in code:"@) {
        (cur, add_entry(e, cur, trim_start_matches(l, code_bullet())))
    } else {
        (cur, e)
    }
}

/// Reading the lines `ls` of a duplicates report, from the current address and entries.
pub open spec fn report_fold(
    ls: Seq<Seq<char>>,
    cur: Seq<char>,
    e: Seq<(Seq<char>, Seq<Seq<char>>)>,
) -> (Seq<char>, Seq<(Seq<char>, Seq<Seq<char>>)>)
    decreases ls.len(),
{
    if ls.len() == 0 {
        (cur, e)
    } else {
        let (c2, e2) = report_step(ls[0], cur, e);
        report_fold(ls.drop_first(), c2, e2)
    }
}

/// The entries read from a duplicates report: each address with the codes listed under it.
pub open spec fn read_duplicates_report(content: Seq<char>) -> Seq<(Seq<char>, Seq<Seq<char>>)> {
    report_fold(lines(content), seq![], seq![]).1
}

/// The entries `e` grouped by their sorted lists: for each entry in turn, its key added to the
/// group of its sorted list, groups in the order of their first entry.
pub open spec fn group_fold(
    e: Seq<(Seq<char>, Seq<Seq<char>>)>,
    g: Seq<(Seq<Seq<char>>, Seq<Seq<char>>)>,
) -> Seq<(Seq<Seq<char>>, Seq<Seq<char>>)>
    decreases e.len(),
{
    if e.len() == 0 {
        g
    } else {
        group_fold(e.drop_first(), add_entry(g, sort_texts(e[0].1), e[0].0))
    }
}

/// The bullet lines `- x` for each `x` of `xs`.
pub open spec fn bullets(xs: Seq<Seq<char>>) -> Seq<Seq<char>> {
    prefixed("- "@, xs)
}

/// The lines of one group of the consolidated report: the codes, then the addresses they
/// share, then an empty line.
pub open spec fn group_section(codes: Seq<Seq<char>>, addresses: Seq<Seq<char>>) -> Seq<Seq<char>> {
    seq!["## Codes:"@] + bullets(codes) + seq!["### Shared addresses:"@] + bullets(addresses) + seq![
        seq![],
    ]
}

/// The lines of the consolidated report of the groups `g`.
pub open spec fn consolidated_report_lines(g: Seq<(Seq<Seq<char>>, Seq<Seq<char>>)>) -> Seq<Seq<char>>
    decreases g.len(),
{
    if g.len() == 0 {
        seq![]
    } else {
        group_section(g[0].0, g[0].1) + consolidated_report_lines(g.drop_first())
    }
}

/// The consolidated report of the groups `g`, in markdown.
pub open spec fn consolidated_report(g: Seq<(Seq<Seq<char>>, Seq<Seq<char>>)>) -> Seq<char> {
    join_lines(consolidated_report_lines(g))
}

/// The characters of the literal `l`.
fn lit(l: &str) -> (v: Vec<char>)
    ensures
        v@ == l@,
{
    chars_of(l)
}

/// The lines `ls`, each followed by a line break.
fn join_lines_exec(ls: &Vec<Vec<char>>) -> (r: Vec<char>)
    ensures
        r@ == join_lines(ls.deep_view()),
{
    let ghost all = ls.deep_view();
    let mut out: Vec<char> = Vec::new();
    let mut k: usize = 0;
    assert(all.skip(0) =~= all);
    while k < ls.len()
        invariant
            k <= ls.len(),
            all == ls.deep_view(),
            out@ + join_lines(all.skip(k as int)) == join_lines(all),
        decreases ls.len() - k,
    {
        assert(all.skip(k as int)[0] == ls[k as int]@) by {
            assert(ls[k as int].deep_view() =~= ls[k as int]@);
        }
        assert(all.skip(k as int).drop_first() =~= all.skip(k + 1));
        let ghost before = out@;
        push_all(&mut out, &ls[k]);
        out.push('\n');
        assert(before + join_lines(all.skip(k as int)) =~= out@ + join_lines(all.skip(k + 1)));
        k += 1;
    }
    assert(all.skip(ls.len() as int) =~= seq![]);
    assert(out@ + seq![] =~= out@);
    out
}

/// Appends to `out` the line `prefix + x` for each `x` of `xs`.
fn push_prefixed(out: &mut Vec<Vec<char>>, prefix: &[char], xs: &Vec<String>)
    ensures
        final(out).deep_view() == old(out).deep_view() + prefixed(prefix@, xs.deep_view()),
{
    let ghost xv = xs.deep_view();
    let mut j: usize = 0;
    while j < xs.len()
        invariant
            j <= xs.len(),
            xv == xs.deep_view(),
            out.deep_view() == old(out).deep_view() + prefixed(prefix@, xv.take(j as int)),
        decreases xs.len() - j,
    {
        let mut l: Vec<char> = Vec::new();
        push_all(&mut l, prefix);
        let x = chars_of(xs[j].as_str());
        push_all(&mut l, &x);
        let ghost before = out.deep_view();
        push_text(out, l);
        assert(prefixed(prefix@, xv.take(j + 1)) =~= prefixed(prefix@, xv.take(j as int)).push(
            prefix@ + xv[j as int],
        ));
        j += 1;
    }
    assert(xv.take(xs.len() as int) =~= xv);
}

/// The duplicates report of the entries `entries`, in markdown: for each address the line
/// `## Duplicate address: <address>`, a line `- Found in code: <header>` for each code, and
/// an empty line.
pub fn render_duplicates_report(entries: &Vec<(String, Vec<String>)>) -> (r: String)
    ensures
        r@ == duplicates_report(entries.deep_view()),
{
    proof {
        reveal_strlit("## Duplicate address: ");
        reveal_strlit("- Found in code: ");
    }
    let heading = lit("## Duplicate address: ");
    let bullet = lit("- Found in code: ");
    let ghost all = entries.deep_view();
    let mut ls: Vec<Vec<char>> = Vec::new();
    let mut k: usize = 0;
    assert(all.skip(0) =~= all);
    while k < entries.len()
        invariant
            k <= entries.len(),
            all == entries.deep_view(),
            heading@ == address_heading(),
            bullet@ == code_bullet(),
            ls.deep_view() + duplicates_report_lines(all.skip(k as int)) == duplicates_report_lines(
                all,
            ),
        decreases entries.len() - k,
    {
        assert(all.skip(k as int)[0] == all[k as int]);
        assert(all.skip(k as int).drop_first() =~= all.skip(k + 1));
        let ghost before = ls.deep_view();
        let mut h: Vec<char> = Vec::new();
        push_all(&mut h, &heading);
        let a = chars_of(entries[k].0.as_str());
        push_all(&mut h, &a);
        push_text(&mut ls, h);
        push_prefixed(&mut ls, &bullet, &entries[k].1);
        push_text(&mut ls, Vec::new());
        assert(ls.deep_view() =~= before + address_section(all[k as int].0, all[k as int].1));
        assert(before + duplicates_report_lines(all.skip(k as int)) =~= ls.deep_view()
            + duplicates_report_lines(all.skip(k + 1)));
        k += 1;
    }
    assert(all.skip(entries.len() as int) =~= seq![]);
    assert(ls.deep_view() + seq![] =~= ls.deep_view());
    let out = join_lines_exec(&ls);
    string_of(&out)
}

/// Whether the texts `a` and `b` are the same.
fn same_texts(a: &Vec<Vec<char>>, b: &Vec<Vec<char>>) -> (r: bool)
    ensures
        r == (a.deep_view() == b.deep_view()),
{
    if a.len() != b.len() {
        assert(a.deep_view().len() != b.deep_view().len());
        return false;
    }
    let mut k: usize = 0;
    while k < a.len()
        invariant
            k <= a.len(),
            a.len() == b.len(),
            forall|m: int| 0 <= m < k ==> a.deep_view()[m] == b.deep_view()[m],
        decreases a.len() - k,
    {
        assert(a.deep_view()[k as int] == a[k as int]@) by {
            assert(a[k as int].deep_view() =~= a[k as int]@);
        }
        assert(b.deep_view()[k as int] == b[k as int]@) by {
            assert(b[k as int].deep_view() =~= b[k as int]@);
        }
        if !crate::blocks::same_text(&a[k], &b[k]) {
            return false;
        }
        k += 1;
    }
    assert(a.deep_view() =~= b.deep_view());
    true
}

/// The entries `e` with `v` added under the text key `k`, as `add_entry` says.
fn add_entry_text(e: &mut Vec<(Vec<char>, Vec<Vec<char>>)>, k: Vec<char>, v: Vec<char>)
    ensures
        final(e).deep_view() == add_entry(old(e).deep_view(), k@, v@),
{
    let ghost e0 = e.deep_view();
    let mut i: usize = 0;
    while i < e.len()
        invariant
            i <= e.len(),
            e0 == e.deep_view(),
            e0 == old(e).deep_view(),
            key_position_from(e0, k@, 0) == key_position_from(e0, k@, i as int),
        decreases e.len() - i,
    {
        assert(e0[i as int].0 == e[i as int].0@) by {
            assert(e[i as int].0.deep_view() =~= e[i as int].0@);
        }
        if crate::blocks::same_text(&e[i].0, &k) {
            assert(key_position_from(e0, k@, i as int) == Some(i as int));
            let (key, mut list) = e.remove(i);
            let ghost l0 = list.deep_view();
            assert(l0 == e0[i as int].1);
            push_text(&mut list, v);
            let ghost l1 = list.deep_view();
            e.insert(i, (key, list));
            assert(e.deep_view() =~= e0.update(i as int, (k@, l1))) by {
                assert(key.deep_view() =~= key@);
            }
            assert(l1 == e0[i as int].1.push(v@));
            assert(add_entry(e0, k@, v@) == e0.update(i as int, (k@, e0[i as int].1.push(v@))));
            return;
        }
        i += 1;
    }
    let mut list: Vec<Vec<char>> = Vec::new();
    push_text(&mut list, v);
    let ghost l1 = list.deep_view();
    assert(l1 =~= seq![v@]);
    let ghost kv = k@;
    e.push((k, list));
    assert(e.deep_view() =~= e0.push((kv, l1))) by {
        assert(e.deep_view()[e0.len() as int] == (kv, l1)) by {
            assert(e[e0.len() as int].0.deep_view() =~= kv);
        }
    }
}

/// The entries `e` as `String`s.
fn entries_as_strings(e: &Vec<(Vec<char>, Vec<Vec<char>>)>) -> (r: Vec<(String, Vec<String>)>)
    ensures
        r.deep_view() == e.deep_view(),
{
    let mut r: Vec<(String, Vec<String>)> = Vec::new();
    let mut k: usize = 0;
    while k < e.len()
        invariant
            k <= e.len(),
            r.deep_view() == e.deep_view().take(k as int),
        decreases e.len() - k,
    {
        let key = string_of(&e[k].0);
        let list = strings_of(&e[k].1);
        let ghost before = r.deep_view();
        let ghost kl = (key@, list.deep_view());
        r.push((key, list));
        assert(r.deep_view() =~= before.push(kl));
        assert(e.deep_view()[k as int] == (e[k as int].0@, e[k as int].1.deep_view())) by {
            assert(e[k as int].0.deep_view() =~= e[k as int].0@);
        }
        assert(r.deep_view() =~= e.deep_view().take(k + 1));
        k += 1;
    }
    assert(e.deep_view().take(e.len() as int) =~= e.deep_view());
    r
}

/// Reads a duplicates report back: each line `## Duplicate address:...` sets the current
/// address (the text after `## Duplicate address: `), and each line `- Found in code:...` adds
/// the code (the text after `- Found in code: `) to the current address. The entries are in
/// the order of their first code line.
pub fn parse_duplicate_addresses_md(file_content: &str) -> (r: Vec<(String, Vec<String>)>)
    ensures
        r.deep_view() == read_duplicates_report(file_content@),
        keys_distinct(r.deep_view()),
{
    proof {
        lemma_report_addresses_distinct(file_content@);
        reveal_strlit("## Duplicate address: ");
        reveal_strlit("- Found in code: ");
        reveal_strlit("## Duplicate address:");
        reveal_strlit("- Found in code:");
    }
    let heading_start = lit("## Duplicate address:");
    let heading = lit("## Duplicate address: ");
    let bullet_start = lit("- Found in code:");
    let bullet = lit("- Found in code: ");
    let c = chars_of(file_content);
    let ls = lines_exec(&c);
    let ghost lv = ls.deep_view();
    let mut cur: Vec<char> = Vec::new();
    let mut e: Vec<(Vec<char>, Vec<Vec<char>>)> = Vec::new();
    let mut k: usize = 0;
    assert(lv.skip(0) =~= lv);
    assert(e.deep_view() =~= Seq::<(Seq<char>, Seq<Seq<char>>)>::empty());
    assert(cur@ =~= Seq::<char>::empty());
    while k < ls.len()
        invariant
            k <= ls.len(),
            lv == ls.deep_view(),
            lv == lines(file_content@),
            heading_start@ == "## Duplicate address:"@,
            heading@ == address_heading(),
            bullet_start@ == "- Found in code:"@,
            bullet@ == code_bullet(),
            heading@.len() > 0,
            bullet@.len() > 0,
            report_fold(lv, seq![], seq![]) == report_fold(lv.skip(k as int), cur@, e.deep_view()),
        decreases ls.len() - k,
    {
        let ghost l = lv[k as int];
        assert(lv.skip(k as int)[0] == l);
        assert(lv.skip(k as int).drop_first() =~= lv.skip(k + 1));
        assert(l == ls[k as int]@) by {
            assert(ls[k as int].deep_view() =~= ls[k as int]@);
        }
        if crate::text::starts_with_exec(&ls[k], &heading_start) {
            cur = trim_start_matches_exec(&ls[k], &heading);
        } else if crate::text::starts_with_exec(&ls[k], &bullet_start) {
            let name = trim_start_matches_exec(&ls[k], &bullet);
            let key = crate::text::copy_range(&cur, 0, cur.len());
            assert(key@ =~= cur@);
            add_entry_text(&mut e, key, name);
        }
        k += 1;
    }
    assert(lv.skip(ls.len() as int) =~= seq![]);
    entries_as_strings(&e)
}

/// The texts of the strings `v`.
fn texts_of(v: &Vec<String>) -> (r: Vec<Vec<char>>)
    ensures
        r.deep_view() == v.deep_view(),
{
    let mut r: Vec<Vec<char>> = Vec::new();
    let mut k: usize = 0;
    while k < v.len()
        invariant
            k <= v.len(),
            r.deep_view() == v.deep_view().take(k as int),
        decreases v.len() - k,
    {
        let t = chars_of(v[k].as_str());
        push_text(&mut r, t);
        assert(r.deep_view() =~= v.deep_view().take(k + 1));
        k += 1;
    }
    assert(v.deep_view().take(v.len() as int) =~= v.deep_view());
    r
}

/// The groups `g` with `v` added under the key `k`, as `add_entry` says.
fn add_entry_group(g: &mut Vec<(Vec<Vec<char>>, Vec<Vec<char>>)>, k: Vec<Vec<char>>, v: Vec<char>)
    ensures
        final(g).deep_view() == add_entry(old(g).deep_view(), k.deep_view(), v@),
{
    let ghost g0 = g.deep_view();
    let mut i: usize = 0;
    while i < g.len()
        invariant
            i <= g.len(),
            g0 == g.deep_view(),
            g0 == old(g).deep_view(),
            key_position_from(g0, k.deep_view(), 0) == key_position_from(
                g0,
                k.deep_view(),
                i as int,
            ),
        decreases g.len() - i,
    {
        if same_texts(&g[i].0, &k) {
            assert(key_position_from(g0, k.deep_view(), i as int) == Some(i as int));
            let (key, mut list) = g.remove(i);
            let ghost l0 = list.deep_view();
            push_text(&mut list, v);
            let ghost l1 = list.deep_view();
            g.insert(i, (key, list));
            assert(g.deep_view() =~= g0.update(i as int, (k.deep_view(), l1)));
            return;
        }
        i += 1;
    }
    let mut list: Vec<Vec<char>> = Vec::new();
    push_text(&mut list, v);
    let ghost l1 = list.deep_view();
    assert(l1 =~= seq![v@]);
    let ghost kv = k.deep_view();
    g.push((k, list));
    assert(g.deep_view() =~= g0.push((kv, l1)));
}

/// The groups `g` as `String`s.
fn groups_as_strings(g: &Vec<(Vec<Vec<char>>, Vec<Vec<char>>)>) -> (r: Vec<(Vec<String>, Vec<String>)>)
    ensures
        r.deep_view() == g.deep_view(),
{
    let mut r: Vec<(Vec<String>, Vec<String>)> = Vec::new();
    let mut k: usize = 0;
    while k < g.len()
        invariant
            k <= g.len(),
            r.deep_view() == g.deep_view().take(k as int),
        decreases g.len() - k,
    {
        let key = strings_of(&g[k].0);
        let list = strings_of(&g[k].1);
        let ghost before = r.deep_view();
        let ghost kl = (key.deep_view(), list.deep_view());
        r.push((key, list));
        assert(r.deep_view() =~= before.push(kl));
        assert(r.deep_view() =~= g.deep_view().take(k + 1));
        k += 1;
    }
    assert(g.deep_view().take(g.len() as int) =~= g.deep_view());
    r
}

/// Groups the addresses of a duplicates report by the codes that share them: for each entry,
/// its address is added to the group of its sorted list of codes. The groups are in the order
/// of their first address, and the addresses of a group in the order of the entries. Each
/// address is listed once, as the keys of a map are.
pub fn group_by_code_headers(address_map: Vec<(String, Vec<String>)>) -> (r: Vec<(Vec<String>, Vec<String>)>)
    requires
        keys_distinct(address_map.deep_view()),
    ensures
        r.deep_view() == group_fold(address_map.deep_view(), seq![]),
        forall|j: int| 0 <= j < r.len() ==> (#[trigger] r.deep_view()[j]).1.no_duplicates(),
{
    let ghost all = address_map.deep_view();
    proof {
        let g0 = Seq::<(Seq<Seq<char>>, Seq<Seq<char>>)>::empty();
        let d0 = Seq::<(Seq<char>, Seq<Seq<char>>)>::empty();
        lemma_grouping(all);
        assert(d0 + all =~= all);
        assert(groups_match(g0, d0));
        lemma_group_fold_no_repeats(all, g0, d0);
    }
    let mut g: Vec<(Vec<Vec<char>>, Vec<Vec<char>>)> = Vec::new();
    let mut k: usize = 0;
    assert(all.skip(0) =~= all);
    assert(g.deep_view() =~= Seq::<(Seq<Seq<char>>, Seq<Seq<char>>)>::empty());
    while k < address_map.len()
        invariant
            k <= address_map.len(),
            all == address_map.deep_view(),
            group_fold(all, seq![]) == group_fold(all.skip(k as int), g.deep_view()),
        decreases address_map.len() - k,
    {
        assert(all.skip(k as int)[0] == all[k as int]);
        assert(all.skip(k as int).drop_first() =~= all.skip(k + 1));
        let codes = texts_of(&address_map[k].1);
        let sorted = sort_texts_exec(codes);
        let a = chars_of(address_map[k].0.as_str());
        add_entry_group(&mut g, sorted, a);
        k += 1;
    }
    assert(all.skip(address_map.len() as int) =~= seq![]);
    groups_as_strings(&g)
}

/// The consolidated report of the groups, in markdown: for each group the line `## Codes:`, a
/// bullet `- <header>` for each code, the line `### Shared addresses:`, a bullet
/// `- <address>` for each address, and an empty line.
pub fn render_consolidated_report(groups: &Vec<(Vec<String>, Vec<String>)>) -> (r: String)
    ensures
        r@ == consolidated_report(groups.deep_view()),
{
    let codes_heading = lit("## Codes:");
    let shared_heading = lit("### Shared addresses:");
    let dash = lit("- ");
    let ghost all = groups.deep_view();
    let mut ls: Vec<Vec<char>> = Vec::new();
    let mut k: usize = 0;
    assert(all.skip(0) =~= all);
    while k < groups.len()
        invariant
            k <= groups.len(),
            all == groups.deep_view(),
            codes_heading@ == "## Codes:"@,
            shared_heading@ == "### Shared addresses:"@,
            dash@ == "- "@,
            ls.deep_view() + consolidated_report_lines(all.skip(k as int))
                == consolidated_report_lines(all),
        decreases groups.len() - k,
    {
        assert(all.skip(k as int)[0] == all[k as int]);
        assert(all.skip(k as int).drop_first() =~= all.skip(k + 1));
        let ghost before = ls.deep_view();
        let c1 = crate::text::copy_range(&codes_heading, 0, codes_heading.len());
        assert(c1@ =~= codes_heading@);
        push_text(&mut ls, c1);
        push_prefixed(&mut ls, &dash, &groups[k].0);
        let c2 = crate::text::copy_range(&shared_heading, 0, shared_heading.len());
        assert(c2@ =~= shared_heading@);
        push_text(&mut ls, c2);
        push_prefixed(&mut ls, &dash, &groups[k].1);
        push_text(&mut ls, Vec::new());
        assert(ls.deep_view() =~= before + group_section(all[k as int].0, all[k as int].1));
        assert(before + consolidated_report_lines(all.skip(k as int)) =~= ls.deep_view()
            + consolidated_report_lines(all.skip(k + 1)));
        k += 1;
    }
    assert(all.skip(groups.len() as int) =~= seq![]);
    assert(ls.deep_view() + seq![] =~= ls.deep_view());
    let out = join_lines_exec(&ls);
    string_of(&out)
}

/// Whether the address `a` can be written in a duplicates report and read back as it is: no
/// line break or carriage return in it, and it does not itself start with the heading prefix.
pub open spec fn report_address_ok(a: Seq<char>) -> bool {
    no_breaks(a) && !starts_with(a, address_heading())
}

/// Whether the header `h` can be written in a duplicates report and read back as it is: no
/// line break or carriage return in it, and it does not itself start with the bullet prefix.
pub open spec fn report_code_ok(h: Seq<char>) -> bool {
    no_breaks(h) && !starts_with(h, code_bullet())
}

/// Whether the entries `e` can be written in a duplicates report and read back as they are:
/// each address once, each with at least one code, all texts as the two predicates above say.
pub open spec fn report_entries_ok(e: Seq<(Seq<char>, Seq<Seq<char>>)>) -> bool {
    &&& forall|i: int, j: int| 0 <= i < j < e.len() ==> (#[trigger] e[i]).0 != (#[trigger] e[j]).0
    &&& forall|i: int|
        0 <= i < e.len() ==> (#[trigger] e[i]).1.len() > 0 && report_address_ok(e[i].0) && forall|
            k: int,
        | 0 <= k < e[i].1.len() ==> report_code_ok(#[trigger] e[i].1[k])
}

proof fn lemma_lines_join(ls: Seq<Seq<char>>)
    requires
        forall|i: int| 0 <= i < ls.len() ==> no_breaks(#[trigger] ls[i]),
    ensures
        lines(join_lines(ls)) == ls,
    decreases ls.len(),
{
    if ls.len() > 0 {
        let rest = ls.drop_first();
        assert forall|i: int| 0 <= i < rest.len() implies no_breaks(#[trigger] rest[i]) by {
            assert(rest[i] == ls[i + 1]);
        }
        lemma_lines_join(rest);
        lemma_lines_first(ls[0], join_lines(rest));
        assert(join_lines(ls) == ls[0] + seq!['\n'] + join_lines(rest));
        assert(seq![ls[0]] + rest =~= ls);
    } else {
        assert(lines(seq![]) =~= seq![]);
    }
}

proof fn lemma_fold_concat(
    l1: Seq<Seq<char>>,
    l2: Seq<Seq<char>>,
    c: Seq<char>,
    e: Seq<(Seq<char>, Seq<Seq<char>>)>,
)
    ensures
        report_fold(l1 + l2, c, e) == report_fold(
            l2,
            report_fold(l1, c, e).0,
            report_fold(l1, c, e).1,
        ),
    decreases l1.len(),
{
    if l1.len() == 0 {
        assert(l1 + l2 =~= l2);
    } else {
        let (c2, e2) = report_step(l1[0], c, e);
        assert((l1 + l2).drop_first() =~= l1.drop_first() + l2);
        assert((l1 + l2)[0] == l1[0]);
        lemma_fold_concat(l1.drop_first(), l2, c2, e2);
    }
}

proof fn lemma_key_absent<K>(e: Seq<(K, Seq<Seq<char>>)>, k: K, i: int)
    requires
        forall|j: int| 0 <= j < e.len() ==> (#[trigger] e[j]).0 != k,
    ensures
        key_position_from(e, k, i) is None,
    decreases e.len() - i,
{
    if 0 <= i < e.len() {
        lemma_key_absent(e, k, i + 1);
    }
}

proof fn lemma_key_at<K>(e: Seq<(K, Seq<Seq<char>>)>, k: K, i: int, m: int)
    requires
        0 <= i <= m < e.len(),
        e[m].0 == k,
        forall|j: int| i <= j < m ==> (#[trigger] e[j]).0 != k,
    ensures
        key_position_from(e, k, i) == Some(m),
    decreases m - i,
{
    if i < m {
        lemma_key_at(e, k, i + 1, m);
    }
}

/// The facts about the two prefixes that reading a report back rests on.
proof fn lemma_prefix_facts(a: Seq<char>, h: Seq<char>)
    requires
        report_address_ok(a),
        report_code_ok(h),
    ensures
        starts_with(address_heading() + a, "## Duplicate address:"@),
        trim_start_matches(address_heading() + a, address_heading()) == a,
        !starts_with(code_bullet() + h, "## Duplicate address:"@),
        starts_with(code_bullet() + h, "- Found in code:"@),
        trim_start_matches(code_bullet() + h, code_bullet()) == h,
        !starts_with(seq![], "## Duplicate address:"@),
        !starts_with(seq![], "- Found in code:"@),
        no_breaks(address_heading() + a),
        no_breaks(code_bullet() + h),
        no_breaks(seq![]),
{
    reveal_strlit("## Duplicate address: ");
    reveal_strlit("## Duplicate address:");
    reveal_strlit("- Found in code: ");
    reveal_strlit("- Found in code:");
    let pa = address_heading();
    let pc = code_bullet();
    assert((pa + a).subrange(0, 21) =~= "## Duplicate address:"@);
    assert((pa + a).subrange(0, pa.len() as int) =~= pa);
    assert((pa + a).subrange(pa.len() as int, (pa + a).len() as int) =~= a);
    assert((pc + h).subrange(0, 16) =~= "- Found in code:"@);
    assert((pc + h).subrange(0, pc.len() as int) =~= pc);
    assert((pc + h).subrange(pc.len() as int, (pc + h).len() as int) =~= h);
    assert(!starts_with(pc + h, "## Duplicate address:"@)) by {
        if (pc + h).len() >= 21 {
            assert((pc + h).subrange(0, 21)[0] == (pc + h)[0]);
            assert((pc + h)[0] == '-');
            assert("## Duplicate address:"@[0] == '#');
        }
    }
    assert(trim_start_matches(a, pa) == a);
    assert(trim_start_matches(pa + a, pa) == trim_start_matches(a, pa));
    assert(trim_start_matches(h, pc) == h);
    assert(trim_start_matches(pc + h, pc) == trim_start_matches(h, pc));
    assert forall|k: int| 0 <= k < (pa + a).len() implies #[trigger] (pa + a)[k] != '\n' && (pa
        + a)[k] != '\r' by {
        if k >= pa.len() {
            assert((pa + a)[k] == a[k - pa.len()]);
        }
    }
    assert forall|k: int| 0 <= k < (pc + h).len() implies #[trigger] (pc + h)[k] != '\n' && (pc
        + h)[k] != '\r' by {
        if k >= pc.len() {
            assert((pc + h)[k] == h[k - pc.len()]);
        }
    }
}

/// Reading the bullets of the codes `hs` after the heading of `a` adds them to the last entry.
proof fn lemma_bullets(
    hs: Seq<Seq<char>>,
    a: Seq<char>,
    e: Seq<(Seq<char>, Seq<Seq<char>>)>,
    l: Seq<Seq<char>>,
)
    requires
        report_address_ok(a),
        forall|j: int| 0 <= j < e.len() ==> (#[trigger] e[j]).0 != a,
        forall|k: int| 0 <= k < hs.len() ==> report_code_ok(#[trigger] hs[k]),
    ensures
        report_fold(prefixed(code_bullet(), hs), a, e.push((a, l))) == (a, e.push((a, l + hs))),
    decreases hs.len(),
{
    let bl = prefixed(code_bullet(), hs);
    if hs.len() == 0 {
        assert(l + hs =~= l);
    } else {
        lemma_prefix_facts(a, hs[0]);
        let e1 = e.push((a, l));
        assert(bl[0] == code_bullet() + hs[0]);
        assert forall|j: int| 0 <= j < e1.len() - 1 implies (#[trigger] e1[j]).0 != a by {
            assert(e1[j] == e[j]);
        }
        lemma_key_at(e1, a, 0, e.len() as int);
        assert(add_entry(e1, a, hs[0]) == e1.update(e.len() as int, (a, l.push(hs[0]))));
        assert(e1.update(e.len() as int, (a, l.push(hs[0]))) =~= e.push((a, l.push(hs[0]))));
        assert(bl.drop_first() =~= prefixed(code_bullet(), hs.drop_first()));
        assert forall|k: int| 0 <= k < hs.drop_first().len() implies report_code_ok(
            #[trigger] hs.drop_first()[k],
        ) by {
            assert(hs.drop_first()[k] == hs[k + 1]);
        }
        lemma_bullets(hs.drop_first(), a, e, l.push(hs[0]));
        assert(l.push(hs[0]) + hs.drop_first() =~= l + hs);
    }
}

/// Reading the section of the address `a` with the codes `hs` adds the entry `(a, hs)`.
proof fn lemma_section(
    a: Seq<char>,
    hs: Seq<Seq<char>>,
    c: Seq<char>,
    e: Seq<(Seq<char>, Seq<Seq<char>>)>,
)
    requires
        report_address_ok(a),
        hs.len() > 0,
        forall|j: int| 0 <= j < e.len() ==> (#[trigger] e[j]).0 != a,
        forall|k: int| 0 <= k < hs.len() ==> report_code_ok(#[trigger] hs[k]),
    ensures
        report_fold(address_section(a, hs), c, e).1 == e.push((a, hs)),
{
    lemma_prefix_facts(a, hs[0]);
    let head = seq![address_heading() + a];
    let bl = prefixed(code_bullet(), hs);
    let tail = seq![Seq::<char>::empty()];
    assert(address_section(a, hs) == head + bl + tail);
    lemma_fold_concat(head + bl, tail, c, e);
    lemma_fold_concat(head, bl, c, e);
    assert(report_fold(head, c, e) == (a, e)) by {
        assert(head[0] == address_heading() + a);
        assert(report_step(head[0], c, e) == (a, e));
        assert(head.drop_first() =~= Seq::<Seq<char>>::empty());
        assert(report_fold(head.drop_first(), a, e) == (a, e));
    }
    // The first bullet opens the entry, the others extend it.
    lemma_key_absent(e, a, 0);
    assert(bl[0] == code_bullet() + hs[0]);
    assert(report_step(bl[0], a, e) == (a, e.push((a, seq![hs[0]]))));
    assert(bl.drop_first() =~= prefixed(code_bullet(), hs.drop_first()));
    assert forall|k: int| 0 <= k < hs.drop_first().len() implies report_code_ok(
        #[trigger] hs.drop_first()[k],
    ) by {
        assert(hs.drop_first()[k] == hs[k + 1]);
    }
    lemma_bullets(hs.drop_first(), a, e, seq![hs[0]]);
    assert(seq![hs[0]] + hs.drop_first() =~= hs);
    assert(report_fold(bl, a, e) == (a, e.push((a, hs))));
    assert(report_fold(tail, a, e.push((a, hs))) == (a, e.push((a, hs)))) by {
        assert(tail[0] == Seq::<char>::empty());
        assert(report_step(tail[0], a, e.push((a, hs))) == (a, e.push((a, hs))));
        assert(tail.drop_first() =~= Seq::<Seq<char>>::empty());
        assert(report_fold(tail.drop_first(), a, e.push((a, hs))) == (a, e.push((a, hs))));
        assert(tail.drop_first() =~= Seq::<Seq<char>>::empty());
    }
}

proof fn lemma_report_fold_entries(
    es: Seq<(Seq<char>, Seq<Seq<char>>)>,
    c: Seq<char>,
    acc: Seq<(Seq<char>, Seq<Seq<char>>)>,
)
    requires
        report_entries_ok(es),
        forall|i: int, j: int|
            0 <= i < acc.len() && 0 <= j < es.len() ==> (#[trigger] acc[i]).0 != (
            #[trigger] es[j]).0,
    ensures
        report_fold(duplicates_report_lines(es), c, acc).1 == acc + es,
    decreases es.len(),
{
    if es.len() == 0 {
        assert(acc + es =~= acc);
    } else {
        let e0 = es[0];
        let rest = es.drop_first();
        let sec = address_section(e0.0, e0.1);
        lemma_fold_concat(sec, duplicates_report_lines(rest), c, acc);
        assert forall|j: int| 0 <= j < acc.len() implies (#[trigger] acc[j]).0 != e0.0 by {
            assert(acc[j].0 != es[0].0);
        }
        assert forall|k: int| 0 <= k < e0.1.len() implies report_code_ok(#[trigger] e0.1[k]) by {
            assert(es[0].1[k] == e0.1[k]);
        }
        lemma_section(e0.0, e0.1, c, acc);
        let acc2 = acc.push(e0);
        assert forall|i: int, j: int|
            0 <= i < acc2.len() && 0 <= j < rest.len() implies (#[trigger] acc2[i]).0 != (
            #[trigger] rest[j]).0 by {
            assert(rest[j] == es[j + 1]);
            if i < acc.len() {
                assert(acc2[i] == acc[i]);
            } else {
                assert(es[0].0 != es[j + 1].0);
            }
        }
        assert forall|i: int, j: int| 0 <= i < j < rest.len() implies (#[trigger] rest[i]).0 != (
        #[trigger] rest[j]).0 by {
            assert(rest[i] == es[i + 1]);
            assert(rest[j] == es[j + 1]);
        }
        assert forall|i: int| 0 <= i < rest.len() implies (#[trigger] rest[i]).1.len() > 0
            && report_address_ok(rest[i].0) && forall|k: int|
            0 <= k < rest[i].1.len() ==> report_code_ok(#[trigger] rest[i].1[k]) by {
            assert(rest[i] == es[i + 1]);
        }
        lemma_report_fold_entries(
            rest,
            report_fold(sec, c, acc).0,
            acc2,
        );
        assert(acc2 + rest =~= acc + es);
    }
}

proof fn lemma_report_lines_no_breaks(es: Seq<(Seq<char>, Seq<Seq<char>>)>)
    requires
        report_entries_ok(es),
    ensures
        forall|i: int|
            0 <= i < duplicates_report_lines(es).len() ==> no_breaks(
                #[trigger] duplicates_report_lines(es)[i],
            ),
    decreases es.len(),
{
    if es.len() > 0 {
        let e0 = es[0];
        let rest = es.drop_first();
        assert forall|i: int, j: int| 0 <= i < j < rest.len() implies (#[trigger] rest[i]).0 != (
        #[trigger] rest[j]).0 by {
            assert(rest[i] == es[i + 1]);
            assert(rest[j] == es[j + 1]);
        }
        assert forall|i: int| 0 <= i < rest.len() implies (#[trigger] rest[i]).1.len() > 0
            && report_address_ok(rest[i].0) && forall|k: int|
            0 <= k < rest[i].1.len() ==> report_code_ok(#[trigger] rest[i].1[k]) by {
            assert(rest[i] == es[i + 1]);
        }
        lemma_report_lines_no_breaks(rest);
        let sec = address_section(e0.0, e0.1);
        let all = duplicates_report_lines(es);
        assert(all == sec + duplicates_report_lines(rest));
        assert forall|i: int| 0 <= i < all.len() implies no_breaks(#[trigger] all[i]) by {
            if i < sec.len() {
                lemma_prefix_facts(e0.0, e0.1[0]);
                if i == 0 {
                } else if i <= e0.1.len() {
                    assert(report_code_ok(es[0].1[i - 1]));
                    lemma_prefix_facts(e0.0, e0.1[i - 1]);
                    assert(sec[i] == code_bullet() + e0.1[i - 1]);
                } else {
                    assert(sec[i] == Seq::<char>::empty());
                }
            } else {
                assert(all[i] == duplicates_report_lines(rest)[i - sec.len()]);
            }
        }
    }
}

/// Reading a duplicates report back gives the entries it was written from, when each address
/// is listed once with at least one code and no address or header holds a line break or
/// carriage return or starts with the prefix of its own line.
pub proof fn lemma_duplicates_report_roundtrip(e: Seq<(Seq<char>, Seq<Seq<char>>)>)
    requires
        report_entries_ok(e),
    ensures
        read_duplicates_report(duplicates_report(e)) == e,
{
    lemma_report_lines_no_breaks(e);
    lemma_lines_join(duplicates_report_lines(e));
    lemma_report_fold_entries(e, seq![], seq![]);
    assert(Seq::<(Seq<char>, Seq<Seq<char>>)>::empty() + e =~= e);
}

proof fn lemma_key_position<K>(e: Seq<(K, Seq<Seq<char>>)>, k: K, i: int)
    requires
        0 <= i,
    ensures
        key_position_from(e, k, i) matches Some(m) ==> i <= m < e.len() && e[m].0 == k,
        key_position_from(e, k, i) is None ==> forall|j: int| i <= j < e.len() ==> (#[trigger] e[j]).0 != k,
    decreases e.len() - i,
{
    if i < e.len() && e[i].0 != k {
        lemma_key_position(e, k, i + 1);
    }
}

/// Whether no two entries of `e` have the same key.
pub open spec fn keys_distinct<K>(e: Seq<(K, Seq<Seq<char>>)>) -> bool {
    forall|i: int, j: int| 0 <= i < j < e.len() ==> (#[trigger] e[i]).0 != (#[trigger] e[j]).0
}

proof fn lemma_add_entry_distinct<K>(e: Seq<(K, Seq<Seq<char>>)>, k: K, v: Seq<char>)
    requires
        keys_distinct(e),
    ensures
        keys_distinct(add_entry(e, k, v)),
{
    lemma_key_position(e, k, 0);
    let e2 = add_entry(e, k, v);
    match key_position_from(e, k, 0) {
        Some(m) => {
            assert forall|i: int, j: int| 0 <= i < j < e2.len() implies (#[trigger] e2[i]).0 != (
            #[trigger] e2[j]).0 by {
                assert(e[i].0 != e[j].0);
                if i == m {
                    assert(e2[j] == e[j]);
                } else if j == m {
                    assert(e2[i] == e[i]);
                } else {
                    assert(e2[i] == e[i]);
                    assert(e2[j] == e[j]);
                }
            }
        },
        None => {
            assert forall|i: int, j: int| 0 <= i < j < e2.len() implies (#[trigger] e2[i]).0 != (
            #[trigger] e2[j]).0 by {
                assert(e2[i] == e[i]);
                if j < e.len() {
                    assert(e2[j] == e[j]);
                } else {
                    assert(e2[j].0 == k);
                }
            }
        },
    }
}

proof fn lemma_report_fold_distinct(
    ls: Seq<Seq<char>>,
    cur: Seq<char>,
    e: Seq<(Seq<char>, Seq<Seq<char>>)>,
)
    requires
        keys_distinct(e),
    ensures
        keys_distinct(report_fold(ls, cur, e).1),
    decreases ls.len(),
{
    if ls.len() > 0 {
        let (c2, e2) = report_step(ls[0], cur, e);
        if starts_with(ls[0], "## Duplicate address:"@) {
        } else if starts_with(ls[0], "- Found in code:"@) {
            lemma_add_entry_distinct(e, cur, trim_start_matches(ls[0], code_bullet()));
        }
        lemma_report_fold_distinct(ls.drop_first(), c2, e2);
    }
}

/// Reading a duplicates report lists each address once, however often its heading occurs.
pub proof fn lemma_report_addresses_distinct(content: Seq<char>)
    ensures
        keys_distinct(read_duplicates_report(content)),
{
    lemma_report_fold_distinct(lines(content), seq![], seq![]);
}

/// Whether the groups `g` hold each key once, each key sorted, each group nonempty, an address
/// in a group exactly when an entry of `done` with that address has the group's key as its
/// sorted list, and a group for the sorted list of each entry of `done`.
pub open spec fn groups_match(
    g: Seq<(Seq<Seq<char>>, Seq<Seq<char>>)>,
    done: Seq<(Seq<char>, Seq<Seq<char>>)>,
) -> bool {
    &&& forall|j: int, k: int| 0 <= j < k < g.len() ==> (#[trigger] g[j]).0 != (#[trigger] g[k]).0
    &&& forall|j: int| 0 <= j < g.len() ==> sorted((#[trigger] g[j]).0) && g[j].1.len() > 0
    &&& forall|j: int, a: Seq<char>|
        0 <= j < g.len() ==> (#[trigger] g[j].1.contains(a) <==> exists|i: int|
            0 <= i < done.len() && (#[trigger] done[i]).0 == a && sort_texts(done[i].1) == g[j].0)
    &&& forall|i: int|
        0 <= i < done.len() ==> exists|j: int|
            0 <= j < g.len() && (#[trigger] g[j]).0 == sort_texts((#[trigger] done[i]).1)
}

proof fn lemma_group_step(
    g: Seq<(Seq<Seq<char>>, Seq<Seq<char>>)>,
    done: Seq<(Seq<char>, Seq<Seq<char>>)>,
    x: (Seq<char>, Seq<Seq<char>>),
)
    requires
        groups_match(g, done),
    ensures
        groups_match(add_entry(g, sort_texts(x.1), x.0), done.push(x)),
{
    let key = sort_texts(x.1);
    let a = x.0;
    let d2 = done.push(x);
    lemma_sort_texts(x.1);
    lemma_key_position(g, key, 0);
    let g2 = add_entry(g, key, a);
    let m: int = match key_position_from(g, key, 0) {
        Some(m) => m,
        None => g.len() as int,
    };
    if m < g.len() {
        assert(g2 == g.update(m, (key, g[m].1.push(a))));
    } else {
        assert(g2 == g.push((key, seq![a])));
    }
    assert(g2.len() >= g.len());
    assert(g2[m] == (key, if m < g.len() {
        g[m].1.push(a)
    } else {
        seq![a]
    }));
    assert forall|j: int| 0 <= j < g.len() && j != m implies #[trigger] g2[j] == g[j] by {}
    assert forall|j: int, k: int| 0 <= j < k < g2.len() implies (#[trigger] g2[j]).0 != (
    #[trigger] g2[k]).0 by {
        if j != m && k != m {
            assert(g2[j] == g[j]);
            assert(g2[k] == g[k]);
        } else if j == m {
            if m < g.len() {
                assert(g2[k] == g[k]);
            }
        } else {
            assert(g2[j] == g[j]);
            if m < g.len() {
                assert(g[m].0 == key);
            }
        }
    }
    assert forall|j: int| 0 <= j < g2.len() implies sorted((#[trigger] g2[j]).0) && g2[j].1.len()
        > 0 by {
        if j != m {
            assert(g2[j] == g[j]);
        }
    }
    assert forall|i: int| 0 <= i < d2.len() implies exists|j: int|
        0 <= j < g2.len() && (#[trigger] g2[j]).0 == sort_texts((#[trigger] d2[i]).1) by {
        if i < done.len() {
            assert(d2[i] == done[i]);
            let j = choose|j: int| 0 <= j < g.len() && (#[trigger] g[j]).0 == sort_texts(done[i].1);
            if j != m {
                assert(g2[j] == g[j]);
            } else {
                assert(g2[m].0 == key);
            }
        } else {
            assert(d2[i] == x);
            assert(g2[m].0 == key);
        }
    }
    assert forall|j: int, b: Seq<char>| 0 <= j < g2.len() implies (#[trigger] g2[j].1.contains(b)
        <==> exists|i: int|
        0 <= i < d2.len() && (#[trigger] d2[i]).0 == b && sort_texts(d2[i].1) == g2[j].0) by {
        let now_in = exists|i: int|
            0 <= i < d2.len() && (#[trigger] d2[i]).0 == b && sort_texts(d2[i].1) == g2[j].0;
        if j != m {
            assert(g2[j] == g[j]);
            let old_in = exists|i: int|
                0 <= i < done.len() && (#[trigger] done[i]).0 == b && sort_texts(done[i].1)
                    == g[j].0;
            assert(g[j].1.contains(b) <==> old_in);
            if old_in {
                let i = choose|i: int|
                    0 <= i < done.len() && (#[trigger] done[i]).0 == b && sort_texts(done[i].1)
                        == g[j].0;
                assert(d2[i] == done[i]);
            }
            if now_in {
                let i = choose|i: int|
                    0 <= i < d2.len() && (#[trigger] d2[i]).0 == b && sort_texts(d2[i].1) == g2[j].0;
                if i < done.len() {
                    assert(d2[i] == done[i]);
                } else {
                    assert(d2[i] == x);
                    if m < g.len() {
                        assert(g[m].0 == key);
                    } else {
                        assert(g[j].0 != key);
                    }
                }
            }
        } else {
            let l = if m < g.len() {
                g[m].1
            } else {
                seq![]
            };
            assert(g2[m].1 == l.push(a)) by {
                if m >= g.len() {
                    assert(seq![a] =~= Seq::<Seq<char>>::empty().push(a));
                }
            }
            let old_in = exists|i: int|
                0 <= i < done.len() && (#[trigger] done[i]).0 == b && sort_texts(done[i].1) == key;
            if m < g.len() {
                assert(g[m].1.contains(b) <==> old_in);
            } else {
                if old_in {
                    let i = choose|i: int|
                        0 <= i < done.len() && (#[trigger] done[i]).0 == b && sort_texts(done[i].1)
                            == key;
                    let j2 = choose|j2: int|
                        0 <= j2 < g.len() && (#[trigger] g[j2]).0 == sort_texts(done[i].1);
                    assert(g[j2].0 != key);
                }
                assert(!l.contains(b));
            }
            if old_in {
                let i = choose|i: int|
                    0 <= i < done.len() && (#[trigger] done[i]).0 == b && sort_texts(done[i].1)
                        == key;
                assert(d2[i] == done[i]);
            }
            if l.push(a).contains(b) {
                let q = choose|q: int| 0 <= q < l.push(a).len() && l.push(a)[q] == b;
                if q < l.len() {
                    assert(l[q] == b);
                    assert(l.contains(b));
                } else {
                    assert(d2[done.len() as int] == x);
                }
            }
            if now_in {
                let i = choose|i: int|
                    0 <= i < d2.len() && (#[trigger] d2[i]).0 == b && sort_texts(d2[i].1) == g2[j].0;
                if i < done.len() {
                    assert(d2[i] == done[i]);
                    assert(old_in);
                    let q = choose|q: int| 0 <= q < l.len() && l[q] == b;
                    assert(l.push(a)[q] == b);
                } else {
                    assert(d2[i] == x);
                    assert(l.push(a)[l.len() as int] == b);
                }
            }
        }
    }
}

proof fn lemma_group_fold(
    e: Seq<(Seq<char>, Seq<Seq<char>>)>,
    g: Seq<(Seq<Seq<char>>, Seq<Seq<char>>)>,
    done: Seq<(Seq<char>, Seq<Seq<char>>)>,
)
    requires
        groups_match(g, done),
    ensures
        groups_match(group_fold(e, g), done + e),
    decreases e.len(),
{
    if e.len() == 0 {
        assert(done + e =~= done);
    } else {
        lemma_group_step(g, done, e[0]);
        lemma_group_fold(e.drop_first(), add_entry(g, sort_texts(e[0].1), e[0].0), done.push(e[0]));
        assert(done.push(e[0]) + e.drop_first() =~= done + e);
    }
}

/// Grouping puts each address under the sorted list of its codes: the groups have different,
/// sorted keys; a group holds an address exactly when an entry with that address has the
/// group's key as its sorted list of codes; and every entry has its group.
pub proof fn lemma_grouping(e: Seq<(Seq<char>, Seq<Seq<char>>)>)
    ensures
        groups_match(group_fold(e, seq![]), e),
{
    let g = Seq::<(Seq<Seq<char>>, Seq<Seq<char>>)>::empty();
    let d = Seq::<(Seq<char>, Seq<Seq<char>>)>::empty();
    lemma_group_fold(e, g, d);
    assert(d + e =~= e);
}

/// A report of duplicate addresses, as `duplicate_addresses` lists them, reads back as it was
/// written, when no address or header holds a line break or carriage return or starts with the
/// prefix of its own line.
pub proof fn lemma_duplicates_listing_roundtrip(
    occ: Seq<(Seq<char>, Seq<char>)>,
    e: Seq<(Seq<char>, Seq<Seq<char>>)>,
)
    requires
        duplicates_listed(occ, e),
        forall|i: int| 0 <= i < e.len() ==> report_address_ok((#[trigger] e[i]).0),
        forall|i: int, k: int|
            0 <= i < e.len() && 0 <= k < e[i].1.len() ==> report_code_ok(#[trigger] e[i].1[k]),
    ensures
        read_duplicates_report(duplicates_report(e)) == e,
{
    assert forall|i: int, j: int| 0 <= i < j < e.len() implies (#[trigger] e[i]).0 != (
    #[trigger] e[j]).0 by {
        assert(strictly_sorted(entry_keys(e)));
        assert(crate::order::lex_lt(entry_keys(e)[i], entry_keys(e)[j]));
        lemma_lex_irreflexive(e[i].0);
    }
    lemma_duplicates_report_roundtrip(e);
}

/// Whether `e2` lists the addresses of `e1`, in the same order, each with the same codes in
/// any order.
pub open spec fn same_but_code_order(
    e1: Seq<(Seq<char>, Seq<Seq<char>>)>,
    e2: Seq<(Seq<char>, Seq<Seq<char>>)>,
) -> bool {
    &&& e1.len() == e2.len()
    &&& forall|i: int|
        0 <= i < e1.len() ==> (#[trigger] e1[i]).0 == e2[i].0 && e1[i].1.to_multiset()
            == e2[i].1.to_multiset()
}

proof fn lemma_group_fold_code_order(
    e1: Seq<(Seq<char>, Seq<Seq<char>>)>,
    e2: Seq<(Seq<char>, Seq<Seq<char>>)>,
    g: Seq<(Seq<Seq<char>>, Seq<Seq<char>>)>,
)
    requires
        same_but_code_order(e1, e2),
    ensures
        group_fold(e1, g) == group_fold(e2, g),
    decreases e1.len(),
{
    if e1.len() > 0 {
        assert(e1[0].0 == e2[0].0);
        lemma_sort_texts_order_free(e1[0].1, e2[0].1);
        assert(same_but_code_order(e1.drop_first(), e2.drop_first())) by {
            assert forall|i: int| 0 <= i < e1.drop_first().len() implies (
            #[trigger] e1.drop_first()[i]).0 == e2.drop_first()[i].0
                && e1.drop_first()[i].1.to_multiset() == e2.drop_first()[i].1.to_multiset() by {
                assert(e1.drop_first()[i] == e1[i + 1]);
                assert(e2.drop_first()[i] == e2[i + 1]);
            }
        }
        lemma_group_fold_code_order(
            e1.drop_first(),
            e2.drop_first(),
            add_entry(g, sort_texts(e1[0].1), e1[0].0),
        );
    }
}

/// The order in which an address's codes are listed does not matter to the grouping: the same
/// addresses with the same codes, in any order, give the same groups.
pub proof fn lemma_grouping_ignores_code_order(
    e1: Seq<(Seq<char>, Seq<Seq<char>>)>,
    e2: Seq<(Seq<char>, Seq<Seq<char>>)>,
)
    requires
        same_but_code_order(e1, e2),
    ensures
        group_fold(e1, seq![]) == group_fold(e2, seq![]),
{
    lemma_group_fold_code_order(e1, e2, seq![]);
}

proof fn lemma_group_fold_no_repeats(
    e: Seq<(Seq<char>, Seq<Seq<char>>)>,
    g: Seq<(Seq<Seq<char>>, Seq<Seq<char>>)>,
    done: Seq<(Seq<char>, Seq<Seq<char>>)>,
)
    requires
        groups_match(g, done),
        forall|j: int| 0 <= j < g.len() ==> (#[trigger] g[j]).1.no_duplicates(),
        keys_distinct(done + e),
    ensures
        forall|j: int|
            0 <= j < group_fold(e, g).len() ==> (#[trigger] group_fold(e, g)[j]).1.no_duplicates(),
    decreases e.len(),
{
    if e.len() > 0 {
        let x = e[0];
        let key = sort_texts(x.1);
        let g2 = add_entry(g, key, x.0);
        let all = done + e;
        assert(all[done.len() as int] == x);
        lemma_key_position(g, key, 0);
        assert forall|j: int| 0 <= j < g.len() implies !(#[trigger] g[j]).1.contains(x.0) by {
            if g[j].1.contains(x.0) {
                let i = choose|i: int|
                    0 <= i < done.len() && (#[trigger] done[i]).0 == x.0 && sort_texts(done[i].1)
                        == g[j].0;
                assert(all[i] == done[i]);
            }
        }
        assert forall|j: int| 0 <= j < g2.len() implies (#[trigger] g2[j]).1.no_duplicates() by {
            match key_position_from(g, key, 0) {
                Some(m) => {
                    if j == m {
                        assert(g2[j].1 == g[m].1.push(x.0));
                        assert forall|p: int, q: int|
                            0 <= p < q < g2[j].1.len() implies g2[j].1[p] != g2[j].1[q] by {
                            if q == g[m].1.len() {
                                assert(g[m].1[p] == g2[j].1[p]);
                            }
                        }
                    } else {
                        assert(g2[j] == g[j]);
                    }
                },
                None => {
                    if j < g.len() {
                        assert(g2[j] == g[j]);
                    } else {
                        assert(g2[j].1 == seq![x.0]);
                    }
                },
            }
        }
        lemma_group_step(g, done, x);
        assert(done.push(x) + e.drop_first() =~= all);
        lemma_group_fold_no_repeats(e.drop_first(), g2, done.push(x));
        assert(group_fold(e, g) == group_fold(e.drop_first(), g2));
    }
}

/// Whether each entry of `e1` is an entry of `e2`, with the same codes in some order.
pub open spec fn entries_covered(
    e1: Seq<(Seq<char>, Seq<Seq<char>>)>,
    e2: Seq<(Seq<char>, Seq<Seq<char>>)>,
) -> bool {
    forall|i: int|
        0 <= i < e1.len() ==> exists|j: int|
            0 <= j < e2.len() && (#[trigger] e2[j]).0 == (#[trigger] e1[i]).0
                && e2[j].1.to_multiset() == e1[i].1.to_multiset()
}

/// Whether `e2` holds the entries of `e1` in some order, each address with the same codes in
/// some order.
pub open spec fn same_entries(
    e1: Seq<(Seq<char>, Seq<Seq<char>>)>,
    e2: Seq<(Seq<char>, Seq<Seq<char>>)>,
) -> bool {
    entries_covered(e1, e2) && entries_covered(e2, e1)
}

/// Whether the lists `a` and `b` hold the same texts.
pub open spec fn same_members(a: Seq<Seq<char>>, b: Seq<Seq<char>>) -> bool {
    forall|x: Seq<char>| #[trigger] a.contains(x) <==> b.contains(x)
}

/// Whether the group `j1` of `g1` is also a group of `g2`, with the same addresses.
pub open spec fn group_found(
    g1: Seq<(Seq<Seq<char>>, Seq<Seq<char>>)>,
    g2: Seq<(Seq<Seq<char>>, Seq<Seq<char>>)>,
    j1: int,
) -> bool {
    exists|j2: int|
        0 <= j2 < g2.len() && (#[trigger] g2[j2]).0 == g1[j1].0 && same_members(g1[j1].1, g2[j2].1)
}

/// Whether every group of `g1` is a group of `g2` with the same addresses.
pub open spec fn groups_within(
    g1: Seq<(Seq<Seq<char>>, Seq<Seq<char>>)>,
    g2: Seq<(Seq<Seq<char>>, Seq<Seq<char>>)>,
) -> bool {
    forall|j1: int| 0 <= j1 < g1.len() ==> #[trigger] group_found(g1, g2, j1)
}

proof fn lemma_member_moves(
    g1: Seq<(Seq<Seq<char>>, Seq<Seq<char>>)>,
    e1: Seq<(Seq<char>, Seq<Seq<char>>)>,
    g2: Seq<(Seq<Seq<char>>, Seq<Seq<char>>)>,
    e2: Seq<(Seq<char>, Seq<Seq<char>>)>,
    j1: int,
    j2: int,
    a: Seq<char>,
)
    requires
        groups_match(g1, e1),
        groups_match(g2, e2),
        entries_covered(e1, e2),
        0 <= j1 < g1.len(),
        0 <= j2 < g2.len(),
        g1[j1].0 == g2[j2].0,
        g1[j1].1.contains(a),
    ensures
        g2[j2].1.contains(a),
{
    let i = choose|i: int|
        0 <= i < e1.len() && (#[trigger] e1[i]).0 == a && sort_texts(e1[i].1) == g1[j1].0;
    let k = choose|j: int|
        0 <= j < e2.len() && (#[trigger] e2[j]).0 == e1[i].0 && e2[j].1.to_multiset()
            == e1[i].1.to_multiset();
    lemma_sort_texts_order_free(e1[i].1, e2[k].1);
    assert(e2[k].0 == a && sort_texts(e2[k].1) == g2[j2].0);
}

proof fn lemma_group_matched(
    g1: Seq<(Seq<Seq<char>>, Seq<Seq<char>>)>,
    e1: Seq<(Seq<char>, Seq<Seq<char>>)>,
    g2: Seq<(Seq<Seq<char>>, Seq<Seq<char>>)>,
    e2: Seq<(Seq<char>, Seq<Seq<char>>)>,
    j1: int,
) -> (j2: int)
    requires
        groups_match(g1, e1),
        groups_match(g2, e2),
        same_entries(e1, e2),
        0 <= j1 < g1.len(),
    ensures
        0 <= j2 < g2.len(),
        g2[j2].0 == g1[j1].0,
        forall|a: Seq<char>| #[trigger] g1[j1].1.contains(a) <==> g2[j2].1.contains(a),
{
    let key = g1[j1].0;
    let a0 = g1[j1].1[0];
    assert(g1[j1].1.contains(a0));
    let i0 = choose|i: int|
        0 <= i < e1.len() && (#[trigger] e1[i]).0 == a0 && sort_texts(e1[i].1) == key;
    let k0 = choose|j: int|
        0 <= j < e2.len() && (#[trigger] e2[j]).0 == e1[i0].0 && e2[j].1.to_multiset()
            == e1[i0].1.to_multiset();
    lemma_sort_texts_order_free(e1[i0].1, e2[k0].1);
    let j2 = choose|j: int| 0 <= j < g2.len() && (#[trigger] g2[j]).0 == sort_texts(e2[k0].1);
    assert forall|a: Seq<char>| #[trigger] g1[j1].1.contains(a) <==> g2[j2].1.contains(a) by {
        if g1[j1].1.contains(a) {
            lemma_member_moves(g1, e1, g2, e2, j1, j2, a);
        }
        if g2[j2].1.contains(a) {
            lemma_member_moves(g2, e2, g1, e1, j2, j1, a);
        }
    }
    j2
}

proof fn lemma_groups_within(
    g1: Seq<(Seq<Seq<char>>, Seq<Seq<char>>)>,
    e1: Seq<(Seq<char>, Seq<Seq<char>>)>,
    g2: Seq<(Seq<Seq<char>>, Seq<Seq<char>>)>,
    e2: Seq<(Seq<char>, Seq<Seq<char>>)>,
)
    requires
        groups_match(g1, e1),
        groups_match(g2, e2),
        same_entries(e1, e2),
    ensures
        groups_within(g1, g2),
{
    assert forall|j1: int| 0 <= j1 < g1.len() implies #[trigger] group_found(g1, g2, j1) by {
        let j2 = lemma_group_matched(g1, e1, g2, e2, j1);
        assert(same_members(g1[j1].1, g2[j2].1));
    }
}

/// The order of the addresses and of each address's codes does not matter to the grouping:
/// for the same addresses, each once, with the same codes in any order, the groups have the
/// same keys, each key with the same addresses, none repeated, in any order.
pub proof fn lemma_grouping_ignores_entry_order(
    e1: Seq<(Seq<char>, Seq<Seq<char>>)>,
    e2: Seq<(Seq<char>, Seq<Seq<char>>)>,
)
    requires
        keys_distinct(e1),
        keys_distinct(e2),
        same_entries(e1, e2),
    ensures
        groups_within(group_fold(e1, seq![]), group_fold(e2, seq![])),
        groups_within(group_fold(e2, seq![]), group_fold(e1, seq![])),
        forall|j: int|
            0 <= j < group_fold(e1, seq![]).len() ==> (#[trigger] group_fold(e1, seq![])[j]).1.no_duplicates(),
        forall|j: int|
            0 <= j < group_fold(e2, seq![]).len() ==> (#[trigger] group_fold(e2, seq![])[j]).1.no_duplicates(),
{
    let g = Seq::<(Seq<Seq<char>>, Seq<Seq<char>>)>::empty();
    lemma_grouping(e1);
    lemma_grouping(e2);
    lemma_groups_within(group_fold(e1, g), e1, group_fold(e2, g), e2);
    lemma_groups_within(group_fold(e2, g), e2, group_fold(e1, g), e1);
    let d = Seq::<(Seq<char>, Seq<Seq<char>>)>::empty();
    assert(d + e1 =~= e1);
    assert(d + e2 =~= e2);
    lemma_group_fold_no_repeats(e1, g, d);
    lemma_group_fold_no_repeats(e2, g, d);
}

proof fn lemma_join_lines_concat(a: Seq<Seq<char>>, b: Seq<Seq<char>>)
    ensures
        join_lines(a + b) == join_lines(a) + join_lines(b),
    decreases a.len(),
{
    if a.len() == 0 {
        assert(a + b =~= b);
    } else {
        assert((a + b).drop_first() =~= a.drop_first() + b);
        assert((a + b)[0] == a[0]);
        lemma_join_lines_concat(a.drop_first(), b);
        assert(join_lines(a + b) =~= join_lines(a) + join_lines(b));
    }
}

proof fn lemma_join_prefixed(p: Seq<char>, xs: Seq<Seq<char>>)
    ensures
        join_lines(prefixed(p, xs)) == xs.map_values(|x: Seq<char>| p + x + seq!['\n']).flatten(),
    decreases xs.len(),
{
    let m = xs.map_values(|x: Seq<char>| p + x + seq!['\n']);
    if xs.len() > 0 {
        lemma_join_prefixed(p, xs.drop_first());
        assert(prefixed(p, xs).drop_first() =~= prefixed(p, xs.drop_first()));
        assert(m.drop_first() =~= xs.drop_first().map_values(|x: Seq<char>| p + x + seq!['\n']));
        assert(join_lines(prefixed(p, xs)) =~= m.flatten());
    } else {
        assert(m.flatten() =~= Seq::<char>::empty());
    }
}

proof fn lemma_consolidated_lines_concat(
    g1: Seq<(Seq<Seq<char>>, Seq<Seq<char>>)>,
    g2: Seq<(Seq<Seq<char>>, Seq<Seq<char>>)>,
)
    ensures
        consolidated_report_lines(g1 + g2) == consolidated_report_lines(g1)
            + consolidated_report_lines(g2),
    decreases g1.len(),
{
    if g1.len() == 0 {
        assert(g1 + g2 =~= g2);
    } else {
        assert((g1 + g2).drop_first() =~= g1.drop_first() + g2);
        assert((g1 + g2)[0] == g1[0]);
        lemma_consolidated_lines_concat(g1.drop_first(), g2);
        assert(consolidated_report_lines(g1 + g2) =~= consolidated_report_lines(g1)
            + consolidated_report_lines(g2));
    }
}

/// The consolidated report has one section for each group, in order: the report of no groups
/// is empty, and the report of two lists of groups one after the other is their two reports
/// one after the other.
pub proof fn lemma_consolidated_report_concat(
    g1: Seq<(Seq<Seq<char>>, Seq<Seq<char>>)>,
    g2: Seq<(Seq<Seq<char>>, Seq<Seq<char>>)>,
)
    ensures
        consolidated_report(Seq::empty()) == Seq::<char>::empty(),
        consolidated_report(g1 + g2) == consolidated_report(g1) + consolidated_report(g2),
{
    lemma_consolidated_lines_concat(g1, g2);
    lemma_join_lines_concat(consolidated_report_lines(g1), consolidated_report_lines(g2));
}

/// The section of one group: the line `## Codes:`, the line `- <code>` for each code, the line
/// `### Shared addresses:`, the line `- <address>` for each address, and an empty line.
pub proof fn lemma_consolidated_report_section(codes: Seq<Seq<char>>, addresses: Seq<Seq<char>>)
    ensures
        consolidated_report(seq![(codes, addresses)]) == "## Codes:\n"@ + codes.map_values(
            |x: Seq<char>| "- "@ + x + seq!['\n'],
        ).flatten() + "### Shared addresses:\n"@ + addresses.map_values(
            |x: Seq<char>| "- "@ + x + seq!['\n'],
        ).flatten() + "\n"@,
{
    reveal_strlit("## Codes:\n");
    reveal_strlit("## Codes:");
    reveal_strlit("### Shared addresses:\n");
    reveal_strlit("### Shared addresses:");
    reveal_strlit("\n");
    let g = seq![(codes, addresses)];
    assert(g.drop_first() =~= Seq::<(Seq<Seq<char>>, Seq<Seq<char>>)>::empty());
    assert(g[0] == (codes, addresses));
    assert(consolidated_report_lines(g.drop_first()) =~= Seq::<Seq<char>>::empty());
    assert(consolidated_report_lines(g) =~= group_section(codes, addresses));
    let a1 = seq!["## Codes:"@];
    let a2 = bullets(codes);
    let a3 = seq!["### Shared addresses:"@];
    let a4 = bullets(addresses);
    let a5 = seq![Seq::<char>::empty()];
    assert(group_section(codes, addresses) == a1 + a2 + a3 + a4 + a5);
    lemma_join_lines_concat(a1 + a2 + a3 + a4, a5);
    lemma_join_lines_concat(a1 + a2 + a3, a4);
    lemma_join_lines_concat(a1 + a2, a3);
    lemma_join_lines_concat(a1, a2);
    lemma_join_prefixed("- "@, codes);
    lemma_join_prefixed("- "@, addresses);
    assert(a1.drop_first() =~= Seq::<Seq<char>>::empty());
    assert(a3.drop_first() =~= Seq::<Seq<char>>::empty());
    assert(a5.drop_first() =~= Seq::<Seq<char>>::empty());
    assert(join_lines(a1.drop_first()) =~= Seq::<char>::empty());
    assert(join_lines(a3.drop_first()) =~= Seq::<char>::empty());
    assert(join_lines(a5.drop_first()) =~= Seq::<char>::empty());
    assert(a1[0] == "## Codes:"@ && a3[0] == "### Shared addresses:"@ && a5[0] == Seq::<char>::empty());
    assert("## Codes:\n"@ =~= "## Codes:"@ + seq!['\n']);
    assert("### Shared addresses:\n"@ =~= "### Shared addresses:"@ + seq!['\n']);
    assert("\n"@ =~= seq!['\n']);
    assert(join_lines(a1) =~= "## Codes:\n"@);
    assert(join_lines(a3) =~= "### Shared addresses:\n"@);
    assert(join_lines(a5) =~= "\n"@);
}

proof fn lemma_duplicates_lines_concat(
    e1: Seq<(Seq<char>, Seq<Seq<char>>)>,
    e2: Seq<(Seq<char>, Seq<Seq<char>>)>,
)
    ensures
        duplicates_report_lines(e1 + e2) == duplicates_report_lines(e1) + duplicates_report_lines(
            e2,
        ),
    decreases e1.len(),
{
    if e1.len() == 0 {
        assert(e1 + e2 =~= e2);
    } else {
        assert((e1 + e2).drop_first() =~= e1.drop_first() + e2);
        assert((e1 + e2)[0] == e1[0]);
        lemma_duplicates_lines_concat(e1.drop_first(), e2);
        assert(duplicates_report_lines(e1 + e2) =~= duplicates_report_lines(e1)
            + duplicates_report_lines(e2));
    }
}

/// The duplicates report has one section for each entry, in order: the report of no entries
/// is empty, and the report of two lists of entries one after the other is their two reports
/// one after the other.
pub proof fn lemma_duplicates_report_concat(
    e1: Seq<(Seq<char>, Seq<Seq<char>>)>,
    e2: Seq<(Seq<char>, Seq<Seq<char>>)>,
)
    ensures
        duplicates_report(Seq::empty()) == Seq::<char>::empty(),
        duplicates_report(e1 + e2) == duplicates_report(e1) + duplicates_report(e2),
{
    lemma_duplicates_lines_concat(e1, e2);
    lemma_join_lines_concat(duplicates_report_lines(e1), duplicates_report_lines(e2));
}

/// The section of one address: the line `## Duplicate address: <address>`, the line
/// `- Found in code: <header>` for each header, and an empty line.
pub proof fn lemma_duplicates_report_section(a: Seq<char>, headers: Seq<Seq<char>>)
    ensures
        duplicates_report(seq![(a, headers)]) == "## Duplicate address: "@ + a + "\n"@
            + headers.map_values(|h: Seq<char>| "- Found in code: "@ + h + seq!['\n']).flatten()
            + "\n"@,
{
    reveal_strlit("\n");
    let e = seq![(a, headers)];
    assert(e.drop_first() =~= Seq::<(Seq<char>, Seq<Seq<char>>)>::empty());
    assert(e[0] == (a, headers));
    assert(duplicates_report_lines(e.drop_first()) =~= Seq::<Seq<char>>::empty());
    assert(duplicates_report_lines(e) =~= address_section(a, headers));
    let b1 = seq![address_heading() + a];
    let b2 = prefixed(code_bullet(), headers);
    let b3 = seq![Seq::<char>::empty()];
    assert(address_section(a, headers) == b1 + b2 + b3);
    lemma_join_lines_concat(b1 + b2, b3);
    lemma_join_lines_concat(b1, b2);
    lemma_join_prefixed(code_bullet(), headers);
    assert(b1.drop_first() =~= Seq::<Seq<char>>::empty());
    assert(b3.drop_first() =~= Seq::<Seq<char>>::empty());
    assert(join_lines(b1.drop_first()) =~= Seq::<char>::empty());
    assert(join_lines(b3.drop_first()) =~= Seq::<char>::empty());
    assert(b1[0] == address_heading() + a && b3[0] == Seq::<char>::empty());
    assert("\n"@ =~= seq!['\n']);
    assert(join_lines(b1) =~= "## Duplicate address: "@ + a + "\n"@);
    assert(join_lines(b3) =~= "\n"@);
}

/// The addresses of the entries of `e` whose sorted list of codes is `key`, in entry order.
pub open spec fn group_members(e: Seq<(Seq<char>, Seq<Seq<char>>)>, key: Seq<Seq<char>>) -> Seq<
    Seq<char>,
> {
    e.filter(|x: (Seq<char>, Seq<Seq<char>>)| sort_texts(x.1) == key).map_values(
        |x: (Seq<char>, Seq<Seq<char>>)| x.0,
    )
}

/// Whether each group of `g` lists exactly the addresses of the entries of `e` with its key,
/// in entry order.
pub open spec fn groups_exact(
    g: Seq<(Seq<Seq<char>>, Seq<Seq<char>>)>,
    e: Seq<(Seq<char>, Seq<Seq<char>>)>,
) -> bool {
    forall|j: int| 0 <= j < g.len() ==> (#[trigger] g[j]).1 == group_members(e, g[j].0)
}

/// Whether an entry of `e` before position `i` has `key` as its sorted list of codes.
pub open spec fn key_before(e: Seq<(Seq<char>, Seq<Seq<char>>)>, key: Seq<Seq<char>>, i: int) -> bool {
    exists|p: int| 0 <= p < i && sort_texts((#[trigger] e[p]).1) == key
}

/// Whether the groups of `g` come in the order of their first entries in `e`: each group's key
/// belongs to an entry before every entry of a later group.
pub open spec fn groups_in_entry_order(
    g: Seq<(Seq<Seq<char>>, Seq<Seq<char>>)>,
    e: Seq<(Seq<char>, Seq<Seq<char>>)>,
) -> bool {
    forall|j1: int, j2: int, i: int|
        #![trigger g[j1], g[j2], e[i]]
        0 <= j1 < j2 < g.len() && 0 <= i < e.len() && sort_texts(e[i].1) == g[j2].0 ==> key_before(
            e,
            g[j1].0,
            i,
        )
}

proof fn lemma_filter_push_entry(
    done: Seq<(Seq<char>, Seq<Seq<char>>)>,
    x: (Seq<char>, Seq<Seq<char>>),
    key: Seq<Seq<char>>,
)
    ensures
        group_members(done.push(x), key) == if sort_texts(x.1) == key {
            group_members(done, key).push(x.0)
        } else {
            group_members(done, key)
        },
{
    reveal(Seq::filter);
    let p = |y: (Seq<char>, Seq<Seq<char>>)| sort_texts(y.1) == key;
    let d2 = done.push(x);
    assert(d2.drop_last() =~= done);
    assert(d2.last() == x);
    let f = done.filter(p);
    if p(x) {
        assert(d2.filter(p) == f.push(x));
        assert(f.push(x).map_values(|y: (Seq<char>, Seq<Seq<char>>)| y.0) =~= f.map_values(
            |y: (Seq<char>, Seq<Seq<char>>)| y.0,
        ).push(x.0));
    } else {
        assert(d2.filter(p) == f);
    }
}

proof fn lemma_no_members(done: Seq<(Seq<char>, Seq<Seq<char>>)>, key: Seq<Seq<char>>)
    requires
        forall|i: int| 0 <= i < done.len() ==> sort_texts((#[trigger] done[i]).1) != key,
    ensures
        group_members(done, key) == Seq::<Seq<char>>::empty(),
{
    let p = |y: (Seq<char>, Seq<Seq<char>>)| sort_texts(y.1) == key;
    let f = done.filter(p);
    if f.len() > 0 {
        done.lemma_filter_pred(p, 0);
        assert(f.contains(f[0]));
        done.lemma_filter_contains_rev(p, f[0]);
        let i = choose|i: int| 0 <= i < done.len() && done[i] == f[0];
        assert(sort_texts(done[i].1) != key);
    }
    assert(f.map_values(|y: (Seq<char>, Seq<Seq<char>>)| y.0) =~= Seq::<Seq<char>>::empty());
}

proof fn lemma_group_exact_step(
    g: Seq<(Seq<Seq<char>>, Seq<Seq<char>>)>,
    done: Seq<(Seq<char>, Seq<Seq<char>>)>,
    x: (Seq<char>, Seq<Seq<char>>),
)
    requires
        groups_match(g, done),
        groups_exact(g, done),
        groups_in_entry_order(g, done),
    ensures
        groups_exact(add_entry(g, sort_texts(x.1), x.0), done.push(x)),
        groups_in_entry_order(add_entry(g, sort_texts(x.1), x.0), done.push(x)),
{
    let key = sort_texts(x.1);
    let g2 = add_entry(g, key, x.0);
    let d2 = done.push(x);
    lemma_key_position(g, key, 0);
    let m: int = match key_position_from(g, key, 0) {
        Some(m) => m,
        None => g.len() as int,
    };
    if m < g.len() {
        assert(g2 == g.update(m, (key, g[m].1.push(x.0))));
    } else {
        assert(g2 == g.push((key, seq![x.0])));
    }
    assert forall|j: int| 0 <= j < g.len() && j != m implies #[trigger] g2[j] == g[j] by {}
    assert forall|j: int| 0 <= j < g2.len() implies (#[trigger] g2[j]).1 == group_members(
        d2,
        g2[j].0,
    ) by {
        lemma_filter_push_entry(done, x, g2[j].0);
        if j != m {
            assert(g2[j] == g[j]);
            if m < g.len() {
                assert(g[m].0 == key);
                assert(g[j].0 != g[m].0);
            }
        } else if m < g.len() {
            assert(g[m].0 == key);
        } else {
            assert forall|i: int| 0 <= i < done.len() implies sort_texts((#[trigger] done[i]).1)
                != key by {
                let jj = choose|jj: int|
                    0 <= jj < g.len() && (#[trigger] g[jj]).0 == sort_texts(done[i].1);
            }
            lemma_no_members(done, key);
            assert(seq![x.0] =~= Seq::<Seq<char>>::empty().push(x.0));
        }
    }
    assert forall|j1: int, j2: int, i: int|
        #![trigger g2[j1], g2[j2], d2[i]]
        0 <= j1 < j2 < g2.len() && 0 <= i < d2.len() && sort_texts(d2[i].1) == g2[j2].0 implies key_before(
        d2,
        g2[j1].0,
        i,
    ) by {
        assert(j1 < g.len());
        assert(g2[j1].0 == g[j1].0) by {
            if j1 == m {
                assert(g[m].0 == key);
            }
        }
        if i < done.len() {
            assert(d2[i] == done[i]);
            if j2 < g.len() {
                assert(g2[j2].0 == g[j2].0) by {
                    if j2 == m {
                        assert(g[m].0 == key);
                    }
                }
                assert(key_before(done, g[j1].0, i));
                let p = choose|p: int| 0 <= p < i && sort_texts((#[trigger] done[p]).1) == g[j1].0;
                assert(d2[p] == done[p]);
            } else {
                assert(j2 == m);
                let jj = choose|jj: int|
                    0 <= jj < g.len() && (#[trigger] g[jj]).0 == sort_texts(done[i].1);
            }
        } else {
            let a = g[j1].1[0];
            assert(g[j1].1.contains(a));
            let p = choose|p: int|
                0 <= p < done.len() && (#[trigger] done[p]).0 == a && sort_texts(done[p].1) == g[j1].0;
            assert(d2[p] == done[p]);
        }
    }
}

proof fn lemma_group_fold_exact(
    e: Seq<(Seq<char>, Seq<Seq<char>>)>,
    g: Seq<(Seq<Seq<char>>, Seq<Seq<char>>)>,
    done: Seq<(Seq<char>, Seq<Seq<char>>)>,
)
    requires
        groups_match(g, done),
        groups_exact(g, done),
        groups_in_entry_order(g, done),
    ensures
        groups_exact(group_fold(e, g), done + e),
        groups_in_entry_order(group_fold(e, g), done + e),
    decreases e.len(),
{
    if e.len() == 0 {
        assert(done + e =~= done);
    } else {
        lemma_group_step(g, done, e[0]);
        lemma_group_exact_step(g, done, e[0]);
        lemma_group_fold_exact(e.drop_first(), add_entry(g, sort_texts(e[0].1), e[0].0), done.push(e[0]));
        assert(done.push(e[0]) + e.drop_first() =~= done + e);
    }
}

/// Each group lists exactly the addresses of the entries whose sorted list of codes is its
/// key, in the order of the entries; and the groups come in the order of their first entries.
pub proof fn lemma_grouping_order(e: Seq<(Seq<char>, Seq<Seq<char>>)>)
    ensures
        groups_exact(group_fold(e, seq![]), e),
        groups_in_entry_order(group_fold(e, seq![]), e),
{
    let g = Seq::<(Seq<Seq<char>>, Seq<Seq<char>>)>::empty();
    let d = Seq::<(Seq<char>, Seq<Seq<char>>)>::empty();
    lemma_group_fold_exact(e, g, d);
    assert(d + e =~= e);
}

} // verus!
