//! The order of texts: lexicographic by character, which for `String`s is the order of `Ord`
//! (UTF-8 preserves the order of code points); sorting lists of texts.
use vstd::prelude::*;

verus! {

/// Whether the text `a` comes strictly before `b`: at the first position where they differ
/// the character of `a` is smaller, or `a` is a proper prefix of `b`.
pub open spec fn lex_lt(a: Seq<char>, b: Seq<char>) -> bool
    decreases a.len(),
{
    if a.len() == 0 {
        b.len() > 0
    } else if b.len() == 0 {
        false
    } else if a[0] != b[0] {
        a[0] < b[0]
    } else {
        lex_lt(a.drop_first(), b.drop_first())
    }
}

/// Whether the texts `s` are in strictly increasing order (sorted, without repetitions).
pub open spec fn strictly_sorted(s: Seq<Seq<char>>) -> bool {
    forall|i: int, j: int| 0 <= i < j < s.len() ==> lex_lt(#[trigger] s[i], #[trigger] s[j])
}

/// Whether the texts `s` are in increasing order, repetitions allowed.
pub open spec fn sorted(s: Seq<Seq<char>>) -> bool {
    forall|i: int, j: int| 0 <= i < j < s.len() ==> !lex_lt(#[trigger] s[j], #[trigger] s[i])
}

/// The sorted texts `s` with `x` put before the first text that it comes before.
pub open spec fn insert_sorted(s: Seq<Seq<char>>, x: Seq<char>) -> Seq<Seq<char>>
    decreases s.len(),
{
    if s.len() == 0 {
        seq![x]
    } else if lex_lt(x, s[0]) {
        seq![x] + s
    } else {
        seq![s[0]] + insert_sorted(s.drop_first(), x)
    }
}

/// The texts `s` sorted (`slice::sort` on `String`s): insertion of each text in turn.
pub open spec fn sort_texts(s: Seq<Seq<char>>) -> Seq<Seq<char>>
    decreases s.len(),
{
    if s.len() == 0 {
        seq![]
    } else {
        insert_sorted(sort_texts(s.drop_last()), s.last())
    }
}

/// No text comes strictly before itself.
pub proof fn lemma_lex_irreflexive(a: Seq<char>)
    ensures
        !lex_lt(a, a),
    decreases a.len(),
{
    if a.len() > 0 {
        lemma_lex_irreflexive(a.drop_first());
    }
}

/// Of two texts, at most one comes before the other.
pub proof fn lemma_lex_asymmetric(a: Seq<char>, b: Seq<char>)
    ensures
        lex_lt(a, b) ==> !lex_lt(b, a),
    decreases a.len(),
{
    if a.len() > 0 && b.len() > 0 && a[0] == b[0] {
        lemma_lex_asymmetric(a.drop_first(), b.drop_first());
    }
}

/// The order is transitive.
pub proof fn lemma_lex_transitive(a: Seq<char>, b: Seq<char>, c: Seq<char>)
    ensures
        lex_lt(a, b) && lex_lt(b, c) ==> lex_lt(a, c),
    decreases a.len(),
{
    if a.len() > 0 && b.len() > 0 && c.len() > 0 {
        lemma_lex_transitive(a.drop_first(), b.drop_first(), c.drop_first());
    }
}

/// Of two different texts, one comes before the other.
pub proof fn lemma_lex_total(a: Seq<char>, b: Seq<char>)
    ensures
        a != b ==> lex_lt(a, b) || lex_lt(b, a),
    decreases a.len(),
{
    if a.len() > 0 && b.len() > 0 && a[0] == b[0] {
        lemma_lex_total(a.drop_first(), b.drop_first());
        if a.drop_first() == b.drop_first() {
            assert(a =~= seq![a[0]] + a.drop_first());
            assert(b =~= seq![b[0]] + b.drop_first());
        }
    } else if a.len() == 0 && b.len() == 0 {
        assert(a =~= b);
    }
}

/// Whether the text `a` comes strictly before `b`.
pub fn text_lt(a: &[char], b: &[char]) -> (r: bool)
    ensures
        r == lex_lt(a@, b@),
{
    let mut i: usize = 0;
    assert(a@.skip(0) =~= a@);
    assert(b@.skip(0) =~= b@);
    while i < a.len() && i < b.len()
        invariant
            i <= a.len(),
            i <= b.len(),
            lex_lt(a@, b@) == lex_lt(a@.skip(i as int), b@.skip(i as int)),
        decreases a.len() - i,
    {
        assert(a@.skip(i as int)[0] == a@[i as int]);
        assert(b@.skip(i as int)[0] == b@[i as int]);
        if a[i] != b[i] {
            return a[i] < b[i];
        }
        assert(a@.skip(i as int).drop_first() =~= a@.skip(i + 1));
        assert(b@.skip(i as int).drop_first() =~= b@.skip(i + 1));
        i += 1;
    }
    i < b.len()
}

/// The first position in `v` whose text `x` comes before.
pub fn insert_position(v: &Vec<Vec<char>>, x: &[char]) -> (p: usize)
    ensures
        p <= v.len(),
        forall|k: int| 0 <= k < p ==> !lex_lt(x@, #[trigger] v.deep_view()[k]),
        p < v.len() ==> lex_lt(x@, v.deep_view()[p as int]),
{
    let mut p: usize = 0;
    while p < v.len()
        invariant
            p <= v.len(),
            forall|k: int| 0 <= k < p ==> !lex_lt(x@, #[trigger] v.deep_view()[k]),
        decreases v.len() - p,
    {
        assert(v.deep_view()[p as int] == v[p as int]@) by {
            assert(v[p as int].deep_view() =~= v[p as int]@);
        }
        if text_lt(x, &v[p]) {
            return p;
        }
        p += 1;
    }
    p
}

/// Inserting before the first text that `x` comes before.
pub proof fn lemma_insert_sorted_at(s: Seq<Seq<char>>, x: Seq<char>, p: int)
    requires
        0 <= p <= s.len(),
        forall|k: int| 0 <= k < p ==> !lex_lt(x, #[trigger] s[k]),
        p < s.len() ==> lex_lt(x, s[p]),
    ensures
        insert_sorted(s, x) == s.insert(p, x),
    decreases s.len(),
{
    if s.len() == 0 {
        assert(s.insert(p, x) =~= seq![x]);
    } else if p == 0 {
        assert(s.insert(p, x) =~= seq![x] + s);
    } else {
        let t = s.drop_first();
        assert forall|k: int| 0 <= k < p - 1 implies !lex_lt(x, #[trigger] t[k]) by {
            assert(t[k] == s[k + 1]);
        }
        lemma_insert_sorted_at(t, x, p - 1);
        assert(s.insert(p, x) =~= seq![s[0]] + t.insert(p - 1, x));
    }
}

/// Sorts the texts of `v` in place, as `sort_texts` says.
pub fn sort_texts_exec(v: Vec<Vec<char>>) -> (r: Vec<Vec<char>>)
    ensures
        r.deep_view() == sort_texts(v.deep_view()),
{
    let mut out: Vec<Vec<char>> = Vec::new();
    let mut k: usize = 0;
    let ghost all = v.deep_view();
    while k < v.len()
        invariant
            k <= v.len(),
            all == v.deep_view(),
            out.deep_view() == sort_texts(all.subrange(0, k as int)),
        decreases v.len() - k,
    {
        let x = v[k].clone();
        assert(x@ == all[k as int]) by {
            assert(v[k as int].deep_view() =~= v[k as int]@);
        }
        let p = insert_position(&out, &x);
        let ghost before = out.deep_view();
        proof {
            lemma_insert_sorted_at(before, x@, p as int);
            assert(all.subrange(0, k + 1).drop_last() =~= all.subrange(0, k as int));
        }
        assert(x.deep_view() =~= x@);
        out.insert(p, x);
        assert(out.deep_view() =~= before.insert(p as int, x@));
        k += 1;
    }
    assert(all.subrange(0, v.len() as int) =~= all);
    out
}

/// Inserting a text that is not among the strictly sorted texts `s` before the first text
/// that it comes before keeps them strictly sorted.
pub proof fn lemma_insert_strict(s: Seq<Seq<char>>, x: Seq<char>, q: int)
    requires
        strictly_sorted(s),
        !s.contains(x),
        0 <= q <= s.len(),
        forall|k: int| 0 <= k < q ==> !lex_lt(x, #[trigger] s[k]),
        q < s.len() ==> lex_lt(x, s[q]),
    ensures
        strictly_sorted(s.insert(q, x)),
{
    let t = s.insert(q, x);
    assert forall|i: int, j: int| 0 <= i < j < t.len() implies lex_lt(
        #[trigger] t[i],
        #[trigger] t[j],
    ) by {
        if i < q {
            assert(t[i] == s[i]);
            assert(s[i] != x) by {
                if s[i] == x {
                    assert(s.contains(x));
                }
            }
            if j < q {
                assert(t[j] == s[j]);
            } else if j == q {
                lemma_lex_total(s[i], x);
            } else {
                assert(t[j] == s[j - 1]);
            }
        } else if i == q {
            assert(t[j] == s[j - 1]);
            if j - 1 > q {
                lemma_lex_transitive(x, s[q], s[j - 1]);
            }
        } else {
            assert(t[i] == s[i - 1]);
            assert(t[j] == s[j - 1]);
        }
    }
}

/// The position where `insert_sorted` puts `x` into `s`.
pub open spec fn insert_pos(s: Seq<Seq<char>>, x: Seq<char>) -> int
    decreases s.len(),
{
    if s.len() == 0 || lex_lt(x, s[0]) {
        0
    } else {
        1 + insert_pos(s.drop_first(), x)
    }
}

proof fn lemma_insert_pos(s: Seq<Seq<char>>, x: Seq<char>)
    ensures
        0 <= insert_pos(s, x) <= s.len(),
        forall|k: int| 0 <= k < insert_pos(s, x) ==> !lex_lt(x, #[trigger] s[k]),
        insert_pos(s, x) < s.len() ==> lex_lt(x, s[insert_pos(s, x)]),
        insert_sorted(s, x) == s.insert(insert_pos(s, x), x),
    decreases s.len(),
{
    let p = insert_pos(s, x);
    if s.len() == 0 {
        assert(s.insert(0, x) =~= seq![x]);
    } else if lex_lt(x, s[0]) {
        assert(s.insert(0, x) =~= seq![x] + s);
    } else {
        let t = s.drop_first();
        lemma_insert_pos(t, x);
        assert forall|k: int| 0 <= k < p implies !lex_lt(x, #[trigger] s[k]) by {
            if k > 0 {
                assert(s[k] == t[k - 1]);
            }
        }
        if p < s.len() {
            assert(s[p] == t[p - 1]);
        }
        assert(s.insert(p, x) =~= seq![s[0]] + t.insert(p - 1, x));
    }
}

/// Sorting yields the same texts, in increasing order.
pub proof fn lemma_sort_texts(s: Seq<Seq<char>>)
    ensures
        sorted(sort_texts(s)),
        sort_texts(s).to_multiset() == s.to_multiset(),
    decreases s.len(),
{
    broadcast use vstd::seq_lib::group_to_multiset_ensures;

    if s.len() == 0 {
    } else {
        let r = sort_texts(s.drop_last());
        let x = s.last();
        lemma_sort_texts(s.drop_last());
        lemma_insert_pos(r, x);
        let p = insert_pos(r, x);
        let t = r.insert(p, x);
        assert(s.drop_last().push(x) =~= s);
        assert forall|i: int, j: int| 0 <= i < j < t.len() implies !lex_lt(
            #[trigger] t[j],
            #[trigger] t[i],
        ) by {
            if i < p {
                assert(t[i] == r[i]);
                if j < p {
                    assert(t[j] == r[j]);
                } else if j > p {
                    assert(t[j] == r[j - 1]);
                }
            } else if i == p {
                assert(t[j] == r[j - 1]);
                if lex_lt(r[j - 1], x) {
                    lemma_lex_asymmetric(r[j - 1], x);
                    if j - 1 > p {
                        lemma_lex_transitive(r[j - 1], x, r[p]);
                    } else {
                        lemma_lex_asymmetric(x, r[p]);
                    }
                }
            } else {
                assert(t[i] == r[i - 1]);
                assert(t[j] == r[j - 1]);
            }
        }
    }
}

/// Two sorted lists of the same texts, counted with their repetitions, are the same list: so
/// sorting gives one list for all orders of the same texts.
pub proof fn lemma_sorted_unique(a: Seq<Seq<char>>, b: Seq<Seq<char>>)
    requires
        sorted(a),
        sorted(b),
        a.to_multiset() == b.to_multiset(),
    ensures
        a == b,
    decreases a.len(),
{
    broadcast use vstd::seq_lib::group_to_multiset_ensures;

    assert(a.len() == a.to_multiset().len());
    assert(b.len() == b.to_multiset().len());
    if a.len() == 0 {
        assert(a =~= b);
    } else {
        let x = a[0];
        let y = b[0];
        assert(a.contains(x));
        assert(a.to_multiset().count(x) > 0);
        assert(b.contains(x));
        let j = choose|j: int| 0 <= j < b.len() && b[j] == x;
        assert(!lex_lt(x, y)) by {
            if j > 0 {
                assert(!lex_lt(b[j], b[0]));
            } else {
                lemma_lex_irreflexive(x);
            }
        }
        assert(b.contains(y));
        assert(b.to_multiset().count(y) > 0);
        assert(a.contains(y));
        let i = choose|i: int| 0 <= i < a.len() && a[i] == y;
        assert(!lex_lt(y, x)) by {
            if i > 0 {
                assert(!lex_lt(a[i], a[0]));
            } else {
                lemma_lex_irreflexive(y);
            }
        }
        lemma_lex_total(x, y);
        let a1 = a.drop_first();
        let b1 = b.drop_first();
        assert(a.remove(0) =~= a1);
        assert(b.remove(0) =~= b1);
        assert(a.remove(0).to_multiset() == a.to_multiset().remove(x));
        assert(b.remove(0).to_multiset() == b.to_multiset().remove(y));
        assert forall|p: int, q: int| 0 <= p < q < a1.len() implies !lex_lt(
            #[trigger] a1[q],
            #[trigger] a1[p],
        ) by {
            assert(a1[q] == a[q + 1] && a1[p] == a[p + 1]);
        }
        assert forall|p: int, q: int| 0 <= p < q < b1.len() implies !lex_lt(
            #[trigger] b1[q],
            #[trigger] b1[p],
        ) by {
            assert(b1[q] == b[q + 1] && b1[p] == b[p + 1]);
        }
        lemma_sorted_unique(a1, b1);
        assert(a =~= seq![x] + a1);
        assert(b =~= seq![y] + b1);
    }
}

/// Sorting two orders of the same texts gives the same list.
pub proof fn lemma_sort_texts_order_free(a: Seq<Seq<char>>, b: Seq<Seq<char>>)
    requires
        a.to_multiset() == b.to_multiset(),
    ensures
        sort_texts(a) == sort_texts(b),
{
    lemma_sort_texts(a);
    lemma_sort_texts(b);
    lemma_sorted_unique(sort_texts(a), sort_texts(b));
}

/// The order is the order of `String`s: a proper prefix comes first, and otherwise the text
/// with the smaller character at the first place where the two differ.
pub proof fn lemma_lex_meaning(a: Seq<char>, b: Seq<char>)
    ensures
        a.len() < b.len() && b.subrange(0, a.len() as int) == a ==> lex_lt(a, b),
        forall|i: int|
            0 <= i < a.len() && i < b.len() && a.subrange(0, i) == b.subrange(0, i) && a[i] != b[i]
                ==> (lex_lt(a, b) <==> #[trigger] a[i] < b[i]),
    decreases a.len(),
{
    if a.len() > 0 && b.len() > 0 {
        lemma_lex_meaning(a.drop_first(), b.drop_first());
        if a.len() < b.len() && b.subrange(0, a.len() as int) == a {
            assert(a[0] == b.subrange(0, a.len() as int)[0]);
            assert(b.drop_first().subrange(0, a.len() - 1) =~= a.drop_first()) by {
                assert forall|k: int| 0 <= k < a.len() - 1 implies #[trigger] b.drop_first().subrange(
                    0,
                    a.len() - 1,
                )[k] == a.drop_first()[k] by {
                    assert(b.subrange(0, a.len() as int)[k + 1] == b[k + 1]);
                }
            }
        }
        assert forall|i: int|
            0 <= i < a.len() && i < b.len() && a.subrange(0, i) == b.subrange(0, i) && a[i]
                != b[i] implies (lex_lt(a, b) <==> #[trigger] a[i] < b[i]) by {
            if i > 0 {
                assert(a[0] == a.subrange(0, i)[0]);
                assert(b[0] == b.subrange(0, i)[0]);
                assert(a.drop_first().subrange(0, i - 1) =~= b.drop_first().subrange(0, i - 1)) by {
                    assert forall|k: int| 0 <= k < i - 1 implies #[trigger] a.drop_first().subrange(0, i - 1)[k]
                        == b.drop_first().subrange(0, i - 1)[k] by {
                        assert(a.subrange(0, i)[k + 1] == b.subrange(0, i)[k + 1]);
                    }
                }
                assert(a.drop_first()[i - 1] == a[i]);
                assert(b.drop_first()[i - 1] == b[i]);
            }
        }
    } else if a.len() == 0 {
    }
}

} // verus!
