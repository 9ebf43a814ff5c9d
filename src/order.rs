//! Ordering keyed entries by key: keys compare lexicographically by code
//! point, and entries are ordered by inserting each, in turn, before the
//! first entry whose key is greater.

use vstd::prelude::*;

verus! {

/// `a[i..]` comes before `b[i..]` lexicographically, given equal prefixes.
pub open spec fn key_lt_from(a: Seq<char>, b: Seq<char>, i: int) -> bool
    decreases a.len() - i,
{
    if i >= a.len() {
        b.len() > i
    } else if i >= b.len() {
        false
    } else if a[i] != b[i] {
        a[i] < b[i]
    } else {
        key_lt_from(a, b, i + 1)
    }
}

/// `a` comes before `b` in lexicographic order of code points.
pub open spec fn key_lt(a: Seq<char>, b: Seq<char>) -> bool {
    key_lt_from(a, b, 0)
}

/// Where an entry with key `k` goes in `s`: before the first entry from
/// position `i` on whose key is greater than `k`.
pub open spec fn insert_pos<V>(s: Seq<(Seq<char>, V)>, k: Seq<char>, i: int) -> int
    decreases s.len() - i,
{
    if i >= s.len() {
        s.len() as int
    } else if key_lt(k, s[i].0) {
        i
    } else {
        insert_pos(s, k, i + 1)
    }
}

/// `s` with `e` inserted at its place by key.
pub open spec fn insert_sorted<V>(s: Seq<(Seq<char>, V)>, e: (Seq<char>, V)) -> Seq<(Seq<char>, V)> {
    s.insert(insert_pos(s, e.0, 0), e)
}

/// The entries of `m` ordered by key.
pub open spec fn sort_by_key<V>(m: Seq<(Seq<char>, V)>) -> Seq<(Seq<char>, V)>
    decreases m.len(),
{
    if m.len() == 0 {
        Seq::empty()
    } else {
        insert_sorted(sort_by_key(m.drop_last()), m.last())
    }
}

/// The entries of `m` that the positions `o` pick, in that order.
pub open spec fn picked<V>(m: Seq<V>, o: Seq<usize>) -> Seq<V> {
    Seq::new(o.len(), |j: int| m[o[j] as int])
}

proof fn lemma_insert_pos_range<V>(s: Seq<(Seq<char>, V)>, k: Seq<char>, i: int)
    requires
        0 <= i <= s.len(),
    ensures
        i <= insert_pos(s, k, i) <= s.len(),
    decreases s.len() - i,
{
    if i < s.len() && !key_lt(k, s[i].0) {
        lemma_insert_pos_range(s, k, i + 1);
    }
}

pub proof fn lemma_sort_len<V>(m: Seq<(Seq<char>, V)>)
    ensures
        sort_by_key(m).len() == m.len(),
    decreases m.len(),
{
    if m.len() > 0 {
        lemma_sort_len(m.drop_last());
        lemma_insert_pos_range(sort_by_key(m.drop_last()), m.last().0, 0);
    }
}

/// Tells whether `a` comes before `b` in lexicographic order of code points.
pub fn key_less(a: &String, b: &String) -> (r: bool)
    ensures
        r == key_lt(a@, b@),
{
    let na = a.as_str().unicode_len();
    let nb = b.as_str().unicode_len();
    let mut i: usize = 0;
    loop
        invariant
            na == a@.len(),
            nb == b@.len(),
            i <= na,
            i <= nb,
            key_lt_from(a@, b@, i as int) == key_lt(a@, b@),
        decreases na - i,
    {
        if i >= na {
            return nb > i;
        }
        if i >= nb {
            return false;
        }
        let ca = a.as_str().get_char(i);
        let cb = b.as_str().get_char(i);
        if ca != cb {
            return ca < cb;
        }
        i = i + 1;
    }
}

/// The positions of the entries of `m`, ordered by key.
pub fn key_order<V: DeepView>(m: &Vec<(String, V)>) -> (o: Vec<usize>)
    ensures
        forall|j: int| 0 <= j < o.len() ==> o[j] < m.len(),
        picked(m.deep_view(), o@) == sort_by_key(m.deep_view()),
{
    let ghost d = m.deep_view();
    let mut o: Vec<usize> = Vec::new();
    let mut k: usize = 0;
    assert(picked(d, o@) =~= sort_by_key(d.take(0)));
    while k < m.len()
        invariant
            k <= m.len(),
            d == m.deep_view(),
            forall|j: int| 0 <= j < o.len() ==> o[j] < m.len(),
            picked(d, o@) == sort_by_key(d.take(k as int)),
        decreases m.len() - k,
    {
        let ghost sv = picked(d, o@);
        let mut p: usize = 0;
        loop
            invariant
                p <= o.len(),
                d == m.deep_view(),
                k < m.len(),
                sv == picked(d, o@),
                forall|j: int| 0 <= j < o.len() ==> o[j] < m.len(),
                insert_pos(sv, d[k as int].0, p as int) == insert_pos(sv, d[k as int].0, 0),
            ensures
                p <= o.len(),
                insert_pos(sv, d[k as int].0, 0) == p as int,
            decreases o.len() - p,
        {
            if p >= o.len() {
                break;
            }
            assert(sv[p as int] == d[o[p as int] as int]);
            if key_less(&m[k].0, &m[o[p]].0) {
                break;
            }
            p = p + 1;
        }
        proof {
            lemma_insert_pos_range(sv, d[k as int].0, 0);
        }
        o.insert(p, k);
        assert(d.take(k + 1).drop_last() =~= d.take(k as int));
        assert(picked(d, o@) =~= sv.insert(p as int, d[k as int]));
        assert(d.take(k + 1).last() == d[k as int]);
        assert(sort_by_key(d.take(k + 1)) == insert_sorted(sort_by_key(d.take(k + 1).drop_last()), d.take(k + 1).last()));
        k = k + 1;
    }
    assert(d.take(m.len() as int) =~= d);
    o
}

proof fn lemma_lt_irreflexive(a: Seq<char>, i: int)
    requires
        0 <= i,
    ensures
        !key_lt_from(a, a, i),
    decreases a.len() - i,
{
    if i < a.len() {
        lemma_lt_irreflexive(a, i + 1);
    }
}

proof fn lemma_lt_asymmetric(a: Seq<char>, b: Seq<char>, i: int)
    requires
        0 <= i,
        key_lt_from(a, b, i),
    ensures
        !key_lt_from(b, a, i),
    decreases a.len() - i,
{
    if i < a.len() && i < b.len() && a[i] == b[i] {
        lemma_lt_asymmetric(a, b, i + 1);
    }
}

proof fn lemma_lt_transitive(a: Seq<char>, b: Seq<char>, c: Seq<char>, i: int)
    requires
        0 <= i,
        key_lt_from(a, b, i),
        key_lt_from(b, c, i),
    ensures
        key_lt_from(a, c, i),
    decreases a.len() - i,
{
    if i < a.len() && i < b.len() && i < c.len() && a[i] == b[i] && b[i] == c[i] {
        lemma_lt_transitive(a, b, c, i + 1);
    }
}

proof fn lemma_lt_total(a: Seq<char>, b: Seq<char>, i: int)
    requires
        0 <= i <= a.len(),
        i <= b.len(),
        forall|j: int| 0 <= j < i ==> a[j] == b[j],
        a != b,
    ensures
        key_lt_from(a, b, i) || key_lt_from(b, a, i),
    decreases a.len() - i,
{
    if i == a.len() && i == b.len() {
        assert(a =~= b);
    } else if i < a.len() && i < b.len() && a[i] == b[i] {
        lemma_lt_total(a, b, i + 1);
    }
}

/// Keys strictly increase along `s`.
pub open spec fn strictly_sorted<V>(s: Seq<(Seq<char>, V)>) -> bool {
    forall|i: int, j: int| 0 <= i < j < s.len() ==> key_lt(#[trigger] s[i].0, #[trigger] s[j].0)
}

/// No two entries of `m` share a key.
pub open spec fn distinct_keys<V>(m: Seq<(Seq<char>, V)>) -> bool {
    forall|i: int, j: int| 0 <= i < j < m.len() ==> #[trigger] m[i].0 != #[trigger] m[j].0
}

proof fn lemma_insert_pos_facts<V>(s: Seq<(Seq<char>, V)>, k: Seq<char>, i: int)
    requires
        0 <= i <= s.len(),
    ensures
        forall|j: int| i <= j < insert_pos(s, k, i) ==> !key_lt(k, #[trigger] s[j].0),
        insert_pos(s, k, i) < s.len() ==> key_lt(k, s[insert_pos(s, k, i)].0),
    decreases s.len() - i,
{
    lemma_insert_pos_range(s, k, i);
    if i < s.len() && !key_lt(k, s[i].0) {
        lemma_insert_pos_facts(s, k, i + 1);
    }
}

proof fn lemma_insert_sorted<V>(s: Seq<(Seq<char>, V)>, e: (Seq<char>, V))
    requires
        strictly_sorted(s),
        forall|j: int| 0 <= j < s.len() ==> #[trigger] s[j].0 != e.0,
    ensures
        strictly_sorted(insert_sorted(s, e)),
        forall|x: (Seq<char>, V)| insert_sorted(s, e).contains(x) <==> (s.contains(x) || x == e),
{
    let p = insert_pos(s, e.0, 0);
    lemma_insert_pos_range(s, e.0, 0);
    lemma_insert_pos_facts(s, e.0, 0);
    let r = insert_sorted(s, e);
    assert forall|j: int| 0 <= j < p implies key_lt(#[trigger] s[j].0, e.0) by {
        lemma_lt_total(s[j].0, e.0, 0);
    }
    assert forall|j: int| p < j <= s.len() implies key_lt(e.0, #[trigger] r[j].0) by {
        if p < j - 1 {
            lemma_lt_transitive(e.0, s[p].0, s[j - 1].0, 0);
        }
    }
    assert forall|i: int, j: int| 0 <= i < j < r.len() implies key_lt(#[trigger] r[i].0, #[trigger] r[j].0) by {
        if i < p && j > p {
            lemma_lt_transitive(r[i].0, e.0, r[j].0, 0);
        } else if i < p && j == p {
        } else if i == p {
        } else if i > p {
            assert(r[i] == s[i - 1] && r[j] == s[j - 1]);
        } else {
            assert(r[i] == s[i] && r[j] == s[j]);
        }
    }
    assert forall|x: (Seq<char>, V)| r.contains(x) <==> (s.contains(x) || x == e) by {
        if r.contains(x) {
            let j = choose|j: int| 0 <= j < r.len() && r[j] == x;
            if j < p {
                assert(s[j] == x);
            } else if j > p {
                assert(s[j - 1] == x);
            }
        }
        if s.contains(x) {
            let j = choose|j: int| 0 <= j < s.len() && s[j] == x;
            if j < p {
                assert(r[j] == x);
            } else {
                assert(r[j + 1] == x);
            }
        }
        if x == e {
            assert(r[p] == x);
        }
    }
}

proof fn lemma_sort_facts<V>(m: Seq<(Seq<char>, V)>)
    requires
        distinct_keys(m),
    ensures
        strictly_sorted(sort_by_key(m)),
        forall|x: (Seq<char>, V)| sort_by_key(m).contains(x) <==> m.contains(x),
    decreases m.len(),
{
    if m.len() > 0 {
        let d = m.drop_last();
        assert(distinct_keys(d));
        lemma_sort_facts(d);
        let s = sort_by_key(d);
        assert forall|j: int| 0 <= j < s.len() implies #[trigger] s[j].0 != m.last().0 by {
            assert(s.contains(s[j]));
            assert(d.contains(s[j]));
            let i = choose|i: int| 0 <= i < d.len() && d[i] == s[j];
            assert(m[i] == d[i]);
            assert(m[i].0 != m[m.len() - 1].0);
        }
        lemma_insert_sorted(s, m.last());
        assert forall|x: (Seq<char>, V)| sort_by_key(m).contains(x) <==> m.contains(x) by {
            if m.contains(x) {
                let i = choose|i: int| 0 <= i < m.len() && m[i] == x;
                if i < m.len() - 1 {
                    assert(d[i] == x);
                }
            }
            if d.contains(x) {
                let i = choose|i: int| 0 <= i < d.len() && d[i] == x;
                assert(m[i] == x);
            }
        }
    } else {
        assert(sort_by_key(m) =~= Seq::<(Seq<char>, V)>::empty());
    }
}

proof fn lemma_sorted_unique<V>(a: Seq<(Seq<char>, V)>, b: Seq<(Seq<char>, V)>)
    requires
        strictly_sorted(a),
        strictly_sorted(b),
        forall|x: (Seq<char>, V)| a.contains(x) <==> b.contains(x),
    ensures
        a == b,
    decreases a.len(),
{
    if a.len() == 0 {
        if b.len() > 0 {
            assert(b.contains(b[0]));
        }
        assert(a =~= b);
    } else {
        assert(a.contains(a[0]));
        let j = choose|j: int| 0 <= j < b.len() && b[j] == a[0];
        assert(b.contains(b[0]));
        let i = choose|i: int| 0 <= i < a.len() && a[i] == b[0];
        if j > 0 {
            assert(key_lt(b[0].0, b[j].0));
            if i > 0 {
                assert(key_lt(a[0].0, a[i].0));
                lemma_lt_asymmetric(a[0].0, b[0].0, 0);
            } else {
                lemma_lt_irreflexive(a[0].0, 0);
            }
        }
        assert(a[0] == b[0]);
        let a2 = a.drop_first();
        let b2 = b.drop_first();
        assert forall|x: (Seq<char>, V)| a2.contains(x) <==> b2.contains(x) by {
            if a2.contains(x) {
                let k = choose|k: int| 0 <= k < a2.len() && a2[k] == x;
                assert(a[k + 1] == x);
                assert(key_lt(a[0].0, a[k + 1].0));
                lemma_lt_irreflexive(a[0].0, 0);
                assert(b.contains(x));
                let l = choose|l: int| 0 <= l < b.len() && b[l] == x;
                assert(l != 0);
                assert(b2[l - 1] == x);
            }
            if b2.contains(x) {
                let k = choose|k: int| 0 <= k < b2.len() && b2[k] == x;
                assert(b[k + 1] == x);
                assert(key_lt(b[0].0, b[k + 1].0));
                lemma_lt_irreflexive(b[0].0, 0);
                assert(a.contains(x));
                let l = choose|l: int| 0 <= l < a.len() && a[l] == x;
                assert(l != 0);
                assert(a2[l - 1] == x);
            }
        }
        lemma_sorted_unique(a2, b2);
        assert(a =~= seq![a[0]] + a2);
        assert(b =~= seq![b[0]] + b2);
    }
}

/// Ordering by key forgets the order of the entries: two lists without a
/// repeated key that hold the same entries order alike.
pub proof fn lemma_sort_ignores_order<V>(m1: Seq<(Seq<char>, V)>, m2: Seq<(Seq<char>, V)>)
    requires
        distinct_keys(m1),
        distinct_keys(m2),
        forall|x: (Seq<char>, V)| m1.contains(x) <==> m2.contains(x),
    ensures
        sort_by_key(m1) == sort_by_key(m2),
        strictly_sorted(sort_by_key(m1)),
{
    lemma_sort_facts(m1);
    lemma_sort_facts(m2);
    assert forall|x: (Seq<char>, V)| sort_by_key(m1).contains(x) <==> sort_by_key(m2).contains(x) by {
        assert(sort_by_key(m1).contains(x) <==> m1.contains(x));
        assert(sort_by_key(m2).contains(x) <==> m2.contains(x));
    }
    lemma_sorted_unique(sort_by_key(m1), sort_by_key(m2));
}

} // verus!
