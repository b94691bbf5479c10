//! Memory addresses shared by several Gecko codes: finding them, writing them as a markdown
//! report, reading such a report back, and grouping the addresses by the codes that share them.
use vstd::prelude::*;
use crate::text::{chars_of, string_of};
use crate::gecko::{push_text, strings_of, GeckoCode, GeckoCodeModel};
use crate::order::{
    insert_position, lemma_insert_strict, lemma_lex_asymmetric, lemma_lex_irreflexive,
    lemma_lex_total, lemma_lex_transitive, lex_lt, strictly_sorted, text_lt,
};

verus! {

/// The (address, header) pairs of the codes: one for each address of each code, in order.
pub open spec fn address_occurrences(codes: Seq<GeckoCodeModel>) -> Seq<(Seq<char>, Seq<char>)>
    decreases codes.len(),
{
    if codes.len() == 0 {
        seq![]
    } else {
        let c = codes.last();
        address_occurrences(codes.drop_last()) + match c.addresses {
            Some(l) => l.map_values(|a: Seq<char>| (a, c.header)),
            None => seq![],
        }
    }
}

/// Whether the pair (`a`, `h`) is among the occurrences `occ`.
pub open spec fn occurs(occ: Seq<(Seq<char>, Seq<char>)>, a: Seq<char>, h: Seq<char>) -> bool {
    exists|m: int| 0 <= m < occ.len() && #[trigger] occ[m] == (a, h)
}

/// Whether the address `a` is shared by codes with two different headers.
pub open spec fn shared(occ: Seq<(Seq<char>, Seq<char>)>, a: Seq<char>) -> bool {
    exists|h1: Seq<char>, h2: Seq<char>| h1 != h2 && occurs(occ, a, h1) && occurs(occ, a, h2)
}

/// The addresses of `e`.
pub open spec fn entry_keys(e: Seq<(Seq<char>, Seq<Seq<char>>)>) -> Seq<Seq<char>> {
    e.map_values(|p: (Seq<char>, Seq<Seq<char>>)| p.0)
}

/// Whether `e` lists each address once, in strictly increasing order, each with a nonempty,
/// strictly increasing list of headers.
pub open spec fn entries_wf(e: Seq<(Seq<char>, Seq<Seq<char>>)>) -> bool {
    &&& strictly_sorted(entry_keys(e))
    &&& forall|i: int| 0 <= i < e.len() ==> strictly_sorted(#[trigger] e[i].1) && e[i].1.len() >= 1
}

/// Whether `e` lists the header `h` under the address `a`.
pub open spec fn has_pair(e: Seq<(Seq<char>, Seq<Seq<char>>)>, a: Seq<char>, h: Seq<char>) -> bool {
    exists|i: int| 0 <= i < e.len() && (#[trigger] e[i]).0 == a && e[i].1.contains(h)
}

/// The entries `e` with the pair (`a`, `h`) added.
fn add_occurrence(e: &mut Vec<(Vec<char>, Vec<Vec<char>>)>, a: Vec<char>, h: Vec<char>)
    requires
        entries_wf(old(e).deep_view()),
    ensures
        entries_wf(final(e).deep_view()),
        forall|b: Seq<char>, g: Seq<char>|
            has_pair(final(e).deep_view(), b, g) <==> (has_pair(old(e).deep_view(), b, g) || (b
                == a@ && g == h@)),
{
    let ghost e0 = e.deep_view();
    let mut p: usize = 0;
    while p < e.len() && text_lt(&e[p].0, &a)
        invariant
            p <= e.len(),
            e0 == e.deep_view(),
            forall|k: int| 0 <= k < p ==> lex_lt(#[trigger] e0[k].0, a@),
        decreases e.len() - p,
    {
        assert(e0[p as int].0 == e[p as int].0@) by {
            assert(e[p as int].0.deep_view() =~= e[p as int].0@);
        }
        p += 1;
    }
    let ghost keys0 = entry_keys(e0);
    if p < e.len() {
        assert(e0[p as int].0 == e[p as int].0@) by {
            assert(e[p as int].0.deep_view() =~= e[p as int].0@);
        }
    }
    if p < e.len() && crate::blocks::same_text(&e[p].0, &a) {
        let (k, mut l) = e.remove(p);
        let ghost l0 = l.deep_view();
        assert(k@ == a@);
        assert(l0 == e0[p as int].1) by {
            assert(k.deep_view() =~= k@);
        }
        if !crate::blocks::contains_text(&l, &h) {
            let q = insert_position(&l, &h);
            proof {
                lemma_insert_strict(l0, h@, q as int);
            }
            assert(h.deep_view() =~= h@);
            l.insert(q, h);
            assert(l.deep_view() =~= l0.insert(q as int, h@));
        }
        let ghost l1 = l.deep_view();
        assert(forall|g: Seq<char>| l1.contains(g) <==> (l0.contains(g) || g == h@)) by {
            assert forall|g: Seq<char>| l1.contains(g) <==> (l0.contains(g) || g == h@) by {
                if l1.len() != l0.len() {
                    let q = choose|q: int| 0 <= q <= l0.len() && l1 == l0.insert(q, h@);
                    if l0.contains(g) {
                        let i = choose|i: int| 0 <= i < l0.len() && l0[i] == g;
                        if i < q {
                            assert(l1[i] == g);
                        } else {
                            assert(l1[i + 1] == g);
                        }
                    }
                    if g == h@ {
                        assert(l1[q] == g);
                    }
                    if l1.contains(g) {
                        let i = choose|i: int| 0 <= i < l1.len() && l1[i] == g;
                        if i < q {
                            assert(l0[i] == g);
                        } else if i > q {
                            assert(l0[i - 1] == g);
                        }
                    }
                }
            }
        }
        e.insert(p, (k, l));
        let ghost e1 = e.deep_view();
        assert(e1 =~= e0.update(p as int, (a@, l1))) by {
            assert(e1[p as int] == (k@, l1)) by {
                assert(k.deep_view() =~= k@);
            }
        }
        assert(entry_keys(e1) =~= entry_keys(e0));
        assert forall|b: Seq<char>, g: Seq<char>|
            has_pair(e1, b, g) <==> (has_pair(e0, b, g) || (b == a@ && g == h@)) by {
            if has_pair(e1, b, g) {
                let i = choose|i: int| 0 <= i < e1.len() && (#[trigger] e1[i]).0 == b && e1[i].1.contains(g);
                if i != p {
                    assert(e0[i] == e1[i]);
                }
            }
            if has_pair(e0, b, g) {
                let i = choose|i: int| 0 <= i < e0.len() && (#[trigger] e0[i]).0 == b && e0[i].1.contains(g);
                assert(e1[i].0 == b);
                if i != p {
                    assert(e0[i] == e1[i]);
                }
            }
            if b == a@ && g == h@ {
                assert(e1[p as int].0 == b);
                assert(e1[p as int].1.contains(g));
            }
        }
        assert forall|i: int| 0 <= i < e1.len() implies strictly_sorted(#[trigger] e1[i].1)
            && e1[i].1.len() >= 1 by {
            if i != p {
                assert(e0[i] == e1[i]);
            }
        }
    } else {
        assert(!keys0.contains(a@)) by {
            if keys0.contains(a@) {
                let i = choose|i: int| 0 <= i < keys0.len() && keys0[i] == a@;
                if i < p {
                    lemma_lex_irreflexive(a@);
                } else if i == p {
                } else {
                    lemma_lex_asymmetric(keys0[p as int], a@);
                    lemma_lex_total(keys0[p as int], a@);
                    lemma_lex_transitive(a@, keys0[p as int], keys0[i]);
                    lemma_lex_irreflexive(a@);
                }
            }
        }
        proof {
            if p < e0.len() {
                lemma_lex_total(keys0[p as int], a@);
            }
            assert forall|k: int| 0 <= k < p implies !lex_lt(a@, #[trigger] keys0[k]) by {
                assert(lex_lt(e0[k].0, a@));
                lemma_lex_asymmetric(keys0[k], a@);
            }
            lemma_insert_strict(keys0, a@, p as int);
        }
        let mut l: Vec<Vec<char>> = Vec::new();
        push_text(&mut l, h);
        let ghost l1 = l.deep_view();
        assert(l1 =~= seq![h@]);
        e.insert(p, (a, l));
        let ghost e1 = e.deep_view();
        assert(e1 =~= e0.insert(p as int, (a@, l1))) by {
            assert(e1[p as int] == (a@, l1)) by {
                assert(a.deep_view() =~= a@);
            }
        }
        assert(entry_keys(e1) =~= keys0.insert(p as int, a@));
        assert forall|b: Seq<char>, g: Seq<char>|
            has_pair(e1, b, g) <==> (has_pair(e0, b, g) || (b == a@ && g == h@)) by {
            if has_pair(e1, b, g) {
                let i = choose|i: int| 0 <= i < e1.len() && (#[trigger] e1[i]).0 == b && e1[i].1.contains(g);
                if i < p {
                    assert(e0[i] == e1[i]);
                } else if i > p {
                    assert(e0[i - 1] == e1[i]);
                } else {
                    assert(l1[0] == g);
                }
            }
            if has_pair(e0, b, g) {
                let i = choose|i: int| 0 <= i < e0.len() && (#[trigger] e0[i]).0 == b && e0[i].1.contains(g);
                if i < p {
                    assert(e0[i] == e1[i]);
                } else {
                    assert(e0[i] == e1[i + 1]);
                }
            }
            if b == a@ && g == h@ {
                assert(e1[p as int].1[0] == g);
            }
        }
        assert forall|i: int| 0 <= i < e1.len() implies strictly_sorted(#[trigger] e1[i].1)
            && e1[i].1.len() >= 1 by {
            if i < p {
                assert(e0[i] == e1[i]);
            } else if i > p {
                assert(e0[i - 1] == e1[i]);
            }
        }
    }
}

/// The shared addresses of the occurrences `occ`, as `e` lists them: each address once, in
/// increasing order, with the headers of the codes that name it, each once and in increasing
/// order; an address is listed exactly when codes with two different headers name it.
pub open spec fn duplicates_listed(
    occ: Seq<(Seq<char>, Seq<char>)>,
    e: Seq<(Seq<char>, Seq<Seq<char>>)>,
) -> bool {
    &&& strictly_sorted(entry_keys(e))
    &&& forall|i: int| 0 <= i < e.len() ==> strictly_sorted(#[trigger] e[i].1) && e[i].1.len() >= 2
    &&& forall|i: int, h: Seq<char>|
        0 <= i < e.len() ==> (#[trigger] e[i].1.contains(h) <==> occurs(occ, e[i].0, h))
    &&& forall|a: Seq<char>| shared(occ, a) ==> entry_keys(e).contains(a)
}

/// The (address, header) pairs of `codes`, as `address_occurrences` says.
fn occurrences_exec(codes: &Vec<GeckoCode>) -> (r: Vec<(Vec<char>, Vec<char>)>)
    ensures
        r.deep_view() == address_occurrences(codes@.map_values(|g: GeckoCode| g@)),
{
    let ghost cm = codes@.map_values(|g: GeckoCode| g@);
    let mut out: Vec<(Vec<char>, Vec<char>)> = Vec::new();
    let mut i: usize = 0;
    assert(cm.take(0) =~= seq![]);
    while i < codes.len()
        invariant
            i <= codes.len(),
            cm == codes@.map_values(|g: GeckoCode| g@),
            out.deep_view() == address_occurrences(cm.take(i as int)),
        decreases codes.len() - i,
    {
        let ghost before = out.deep_view();
        let header = chars_of(codes[i].header.as_str());
        assert(cm.take(i + 1).drop_last() =~= cm.take(i as int));
        assert(cm.take(i + 1).last() == codes[i as int]@);
        match &codes[i].addresses {
            Some(list) => {
                let ghost lv = list.deep_view();
                let mut j: usize = 0;
                while j < list.len()
                    invariant
                        j <= list.len(),
                        lv == list.deep_view(),
                        out.deep_view() == before + lv.take(j as int).map_values(
                            |a: Seq<char>| (a, header@),
                        ),
                    decreases list.len() - j,
                {
                    let a = chars_of(list[j].as_str());
                    let h = crate::text::copy_range(&header, 0, header.len());
                    assert(h@ =~= header@);
                    let ghost mid = out.deep_view();
                    out.push((a, h));
                    assert(out.deep_view() =~= mid.push((a@, h@))) by {
                        assert(a.deep_view() =~= a@);
                        assert(h.deep_view() =~= h@);
                    }
                    assert(lv.take(j + 1).map_values(|a: Seq<char>| (a, header@)) =~= lv.take(
                        j as int,
                    ).map_values(|a: Seq<char>| (a, header@)).push((lv[j as int], header@)));
                    j += 1;
                }
                assert(lv.take(list.len() as int) =~= lv);
            },
            None => {
                assert(out.deep_view() =~= before + seq![]);
            },
        }
        i += 1;
    }
    assert(cm.take(codes.len() as int) =~= cm);
    out
}

/// Distinct keys of well-formed entries are at distinct positions.
proof fn lemma_keys_distinct(e: Seq<(Seq<char>, Seq<Seq<char>>)>, i: int, j: int)
    requires
        entries_wf(e),
        0 <= i < e.len(),
        0 <= j < e.len(),
        e[i].0 == e[j].0,
    ensures
        i == j,
{
    let ks = entry_keys(e);
    if i < j {
        assert(lex_lt(ks[i], ks[j]));
        lemma_lex_irreflexive(ks[i]);
    } else if j < i {
        assert(lex_lt(ks[j], ks[i]));
        lemma_lex_irreflexive(ks[i]);
    }
}

/// The addresses that codes with different headers share, each with the headers of those
/// codes: the report of duplicate addresses. Addresses and headers are in increasing order,
/// each listed once.
pub fn duplicate_addresses(codes: &Vec<GeckoCode>) -> (r: Vec<(String, Vec<String>)>)
    ensures
        duplicates_listed(address_occurrences(codes@.map_values(|g: GeckoCode| g@)), r.deep_view()),
{
    let occ = occurrences_exec(codes);
    let ghost ov = occ.deep_view();
    let mut e: Vec<(Vec<char>, Vec<Vec<char>>)> = Vec::new();
    let mut k: usize = 0;
    assert(entry_keys(e.deep_view()) =~= seq![]);
    while k < occ.len()
        invariant
            k <= occ.len(),
            ov == occ.deep_view(),
            entries_wf(e.deep_view()),
            forall|b: Seq<char>, g: Seq<char>|
                has_pair(e.deep_view(), b, g) <==> occurs(ov.take(k as int), b, g),
        decreases occ.len() - k,
    {
        let a = crate::text::copy_range(&occ[k].0, 0, occ[k].0.len());
        let h = crate::text::copy_range(&occ[k].1, 0, occ[k].1.len());
        assert(ov[k as int] == (a@, h@)) by {
            assert(occ[k as int].0.deep_view() =~= occ[k as int].0@);
            assert(occ[k as int].1.deep_view() =~= occ[k as int].1@);
            assert(occ[k as int].0@.subrange(0, occ[k as int].0@.len() as int) =~= occ[k as int].0@);
            assert(occ[k as int].1@.subrange(0, occ[k as int].1@.len() as int) =~= occ[k as int].1@);
        }
        let ghost ah = (a@, h@);
        let ghost e_before = e.deep_view();
        add_occurrence(&mut e, a, h);
        assert forall|b: Seq<char>, g: Seq<char>|
            occurs(ov.take(k + 1), b, g) <==> (occurs(ov.take(k as int), b, g) || (b == ah.0 && g
                == ah.1)) by {
            if occurs(ov.take(k + 1), b, g) {
                let m = choose|m: int| 0 <= m < k + 1 && #[trigger] ov.take(k + 1)[m] == (b, g);
                if m < k {
                    assert(ov.take(k as int)[m] == (b, g));
                }
            }
            if occurs(ov.take(k as int), b, g) {
                let m = choose|m: int| 0 <= m < k && #[trigger] ov.take(k as int)[m] == (b, g);
                assert(ov.take(k + 1)[m] == (b, g));
            }
            if b == ah.0 && g == ah.1 {
                assert(ov.take(k + 1)[k as int] == (b, g));
            }
        }
        assert forall|b: Seq<char>, g: Seq<char>|
            has_pair(e.deep_view(), b, g) <==> occurs(ov.take(k + 1), b, g) by {
            assert(has_pair(e.deep_view(), b, g) <==> (has_pair(e_before, b, g) || (b == ah.0 && g
                == ah.1)));
            assert(has_pair(e_before, b, g) <==> occurs(ov.take(k as int), b, g));
        }
        k += 1;
    }
    assert(ov.take(occ.len() as int) =~= ov);
    let ghost ev = e.deep_view();
    let mut out: Vec<(String, Vec<String>)> = Vec::new();
    let mut j: usize = 0;
    while j < e.len()
        invariant
            j <= e.len(),
            ev == e.deep_view(),
            entries_wf(ev),
            forall|i: int|
                0 <= i < out.deep_view().len() ==> (exists|m: int|
                    0 <= m < j && ev[m] == #[trigger] out.deep_view()[i])
                    && out.deep_view()[i].1.len() >= 2,
            strictly_sorted(entry_keys(out.deep_view())),
            forall|i: int, m: int|
                0 <= i < out.deep_view().len() && j <= m < ev.len() ==> lex_lt(
                    #[trigger] out.deep_view()[i].0,
                    #[trigger] ev[m].0,
                ),
            forall|m: int|
                0 <= m < j && (#[trigger] ev[m]).1.len() >= 2 ==> entry_keys(
                    out.deep_view(),
                ).contains(ev[m].0),
        decreases e.len() - j,
    {
        assert(ev[j as int] == (e[j as int].0@, e[j as int].1.deep_view())) by {
            assert(e[j as int].0.deep_view() =~= e[j as int].0@);
        }
        let ghost o0 = out.deep_view();
        if e[j].1.len() >= 2 {
            let key = string_of(&e[j].0);
            let list = strings_of(&e[j].1);
            out.push((key, list));
            let ghost o1 = out.deep_view();
            assert(o1 =~= o0.push(ev[j as int]));
            assert(entry_keys(o1) =~= entry_keys(o0).push(ev[j as int].0));
            assert forall|i: int, m: int|
                0 <= i < o1.len() && j + 1 <= m < ev.len() implies lex_lt(
                #[trigger] o1[i].0,
                #[trigger] ev[m].0,
            ) by {
                if i < o0.len() {
                    assert(o1[i] == o0[i]);
                } else {
                    assert(lex_lt(entry_keys(ev)[j as int], entry_keys(ev)[m]));
                }
            }
            assert forall|i: int| 0 <= i < o1.len() implies (exists|m: int|
                0 <= m < j + 1 && ev[m] == #[trigger] o1[i]) && o1[i].1.len() >= 2 by {
                if i < o0.len() {
                    assert(o1[i] == o0[i]);
                } else {
                    assert(ev[j as int] == o1[i]);
                }
            }
            assert forall|m: int| 0 <= m < j + 1 && (#[trigger] ev[m]).1.len() >= 2 implies entry_keys(
                o1,
            ).contains(ev[m].0) by {
                if m < j {
                    let i = choose|i: int| 0 <= i < o0.len() && entry_keys(o0)[i] == ev[m].0;
                    assert(entry_keys(o1)[i] == ev[m].0);
                } else {
                    assert(entry_keys(o1)[o0.len() as int] == ev[m].0);
                }
            }
        }
        j += 1;
    }
    let ghost o = out.deep_view();
    assert forall|i: int, h: Seq<char>| 0 <= i < o.len() implies (#[trigger] o[i].1.contains(h)
        <==> occurs(ov, o[i].0, h)) by {
        let m = choose|m: int| 0 <= m < ev.len() && ev[m] == o[i];
        if o[i].1.contains(h) {
            assert(has_pair(ev, o[i].0, h));
        }
        if occurs(ov, o[i].0, h) {
            assert(has_pair(ev, o[i].0, h));
            let m2 = choose|m2: int| 0 <= m2 < ev.len() && (#[trigger] ev[m2]).0 == o[i].0 && ev[m2].1.contains(h);
            lemma_keys_distinct(ev, m, m2);
        }
    }
    assert forall|i: int| 0 <= i < o.len() implies strictly_sorted(#[trigger] o[i].1) && o[i].1.len()
        >= 2 by {
        let m = choose|m: int| 0 <= m < ev.len() && ev[m] == o[i];
    }
    assert forall|a: Seq<char>| shared(ov, a) implies entry_keys(o).contains(a) by {
        let (h1, h2) = choose|h1: Seq<char>, h2: Seq<char>| h1 != h2 && occurs(ov, a, h1) && occurs(ov, a, h2);
        assert(has_pair(ev, a, h1));
        assert(has_pair(ev, a, h2));
        let m1 = choose|m1: int| 0 <= m1 < ev.len() && (#[trigger] ev[m1]).0 == a && ev[m1].1.contains(h1);
        let m2 = choose|m2: int| 0 <= m2 < ev.len() && (#[trigger] ev[m2]).0 == a && ev[m2].1.contains(h2);
        lemma_keys_distinct(ev, m1, m2);
        let l = ev[m1].1;
        if l.len() < 2 {
            let x1 = choose|x: int| 0 <= x < l.len() && l[x] == h1;
            let x2 = choose|x: int| 0 <= x < l.len() && l[x] == h2;
            assert(x1 == 0 && x2 == 0);
        }
    }
    out
}

/// Whether the code `c` names the address `a`.
pub open spec fn names(c: GeckoCodeModel, a: Seq<char>) -> bool {
    c.addresses is Some && c.addresses->0.contains(a)
}

/// Whether some code of `codes` has the header `h` and names the address `a`.
pub open spec fn code_names(codes: Seq<GeckoCodeModel>, a: Seq<char>, h: Seq<char>) -> bool {
    exists|i: int|
        0 <= i < codes.len() && (#[trigger] codes[i]).header == h && names(codes[i], a)
}

/// The occurrences are exactly the (address, header) pairs of all the codes, the last
/// included.
pub proof fn lemma_occurrences_exact(codes: Seq<GeckoCodeModel>)
    ensures
        forall|a: Seq<char>, h: Seq<char>|
            occurs(address_occurrences(codes), a, h) <==> code_names(codes, a, h),
    decreases codes.len(),
{
    if codes.len() > 0 {
        let init = codes.drop_last();
        let c = codes.last();
        lemma_occurrences_exact(init);
        let prev = address_occurrences(init);
        let tail = match c.addresses {
            Some(l) => l.map_values(|a: Seq<char>| (a, c.header)),
            None => seq![],
        };
        let occ = address_occurrences(codes);
        assert(occ == prev + tail);
        assert forall|a: Seq<char>, h: Seq<char>|
            occurs(occ, a, h) <==> code_names(codes, a, h) by {
            if occurs(occ, a, h) {
                let m = choose|m: int| 0 <= m < occ.len() && #[trigger] occ[m] == (a, h);
                if m < prev.len() {
                    assert(prev[m] == occ[m]);
                    assert(occurs(prev, a, h));
                    assert(code_names(init, a, h));
                    let i = choose|i: int|
                        0 <= i < init.len() && (#[trigger] init[i]).header == h
                            && names(init[i], a);
                    assert(codes[i] == init[i]);
                } else {
                    let l = c.addresses->0;
                    assert(tail[m - prev.len()] == occ[m]);
                    assert(c.addresses is Some);
                    assert(l[m - prev.len()] == a);
                    assert(codes[codes.len() - 1] == c);
                    assert(names(codes[codes.len() - 1], a));
                }
            }
            if code_names(codes, a, h) {
                let i = choose|i: int|
                    0 <= i < codes.len() && (#[trigger] codes[i]).header == h
                        && names(codes[i], a);
                if i < init.len() {
                    assert(init[i] == codes[i]);
                    assert(code_names(init, a, h));
                    let m = choose|m: int| 0 <= m < prev.len() && #[trigger] prev[m] == (a, h);
                    assert(occ[m] == prev[m]);
                } else {
                    let l = c.addresses->0;
                    let q = choose|q: int| 0 <= q < l.len() && l[q] == a;
                    assert(occ[prev.len() + q] == tail[q]);
                    assert(occ[prev.len() + q] == (a, h));
                }
            }
        }
    }
}

/// What `duplicate_addresses` lists, said of the codes themselves: an address named by two
/// codes with different headers, the last code included, is listed; each listed address comes
/// with exactly the headers of the codes that name it, at least two of them.
pub proof fn lemma_duplicates_of_codes(codes: Seq<GeckoCodeModel>, e: Seq<(Seq<char>, Seq<Seq<char>>)>)
    requires
        duplicates_listed(address_occurrences(codes), e),
    ensures
        forall|a: Seq<char>, i: int, j: int|
            0 <= i < codes.len() && 0 <= j < codes.len() && codes[i].header != codes[j].header
                && #[trigger] names(codes[i], a)
                && #[trigger] names(codes[j], a)
                ==> entry_keys(e).contains(a),
        forall|k: int, h: Seq<char>|
            0 <= k < e.len() ==> (#[trigger] e[k].1.contains(h) <==> code_names(codes, e[k].0, h)),
        forall|k: int| 0 <= k < e.len() ==> (#[trigger] e[k]).1.len() >= 2,
{
    let occ = address_occurrences(codes);
    lemma_occurrences_exact(codes);
    assert forall|a: Seq<char>, i: int, j: int|
        0 <= i < codes.len() && 0 <= j < codes.len() && codes[i].header != codes[j].header
            && #[trigger] names(codes[i], a)
            && #[trigger] names(codes[j], a)
            implies entry_keys(e).contains(a) by {
        assert(code_names(codes, a, codes[i].header));
        assert(code_names(codes, a, codes[j].header));
        assert(occurs(occ, a, codes[i].header) && occurs(occ, a, codes[j].header));
        assert(shared(occ, a));
    }
    assert forall|k: int, h: Seq<char>|
        0 <= k < e.len() implies (#[trigger] e[k].1.contains(h) <==> code_names(codes, e[k].0, h)) by {
        assert(e[k].1.contains(h) <==> occurs(occ, e[k].0, h));
    }
}

} // verus!
