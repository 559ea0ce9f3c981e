//! The order of texts, and sorting by it.
use vstd::prelude::*;
use vstd::string::*;
use crate::text::{str_eq, to_chars, views};

verus! {

/// `a` comes before `b`, or is the same: character by character, a text before
/// those that go on from it. UTF-8 bytes give the same order.
pub open spec fn text_le(a: Seq<char>, b: Seq<char>) -> bool
    decreases a.len(),
{
    if a.len() == 0 {
        true
    } else if b.len() == 0 {
        false
    } else if a[0] != b[0] {
        a[0] < b[0]
    } else {
        text_le(a.drop_first(), b.drop_first())
    }
}

pub fn chars_le(a: &[char], b: &[char]) -> (r: bool)
    ensures
        r == text_le(a@, b@),
{
    let mut i: usize = 0;
    assert(a@.subrange(0, a@.len() as int) =~= a@);
    assert(b@.subrange(0, b@.len() as int) =~= b@);
    while i < a.len()
        invariant
            i <= a@.len(),
            i <= b@.len(),
            text_le(a@.subrange(i as int, a@.len() as int), b@.subrange(i as int, b@.len() as int))
                == text_le(a@, b@),
        decreases a@.len() - i,
    {
        let ghost x = a@.subrange(i as int, a@.len() as int);
        let ghost y = b@.subrange(i as int, b@.len() as int);
        if i >= b.len() {
            return false;
        }
        if a[i] != b[i] {
            return a[i] < b[i];
        }
        proof {
            assert(x.drop_first() =~= a@.subrange(i + 1, a@.len() as int));
            assert(y.drop_first() =~= b@.subrange(i + 1, b@.len() as int));
        }
        i += 1;
    }
    true
}

/// Does `a` come before `b`, or equal it?
pub fn str_le(a: &str, b: &str) -> (r: bool)
    ensures
        r == text_le(a@, b@),
{
    let x = to_chars(a);
    let y = to_chars(b);
    chars_le(&x, &y)
}

pub proof fn lemma_text_le_reflexive(a: Seq<char>)
    ensures
        text_le(a, a),
    decreases a.len(),
{
    if a.len() > 0 {
        lemma_text_le_reflexive(a.drop_first());
    }
}

pub proof fn lemma_text_le_total(a: Seq<char>, b: Seq<char>)
    ensures
        text_le(a, b) || text_le(b, a),
        text_le(a, b) && text_le(b, a) ==> a == b,
    decreases a.len(),
{
    if a.len() > 0 && b.len() > 0 && a[0] == b[0] {
        lemma_text_le_total(a.drop_first(), b.drop_first());
        if text_le(a, b) && text_le(b, a) {
            assert(a =~= seq![a[0]] + a.drop_first());
            assert(b =~= seq![b[0]] + b.drop_first());
        }
    } else if a.len() == 0 && b.len() == 0 {
        assert(a =~= b);
    }
}

pub proof fn lemma_text_le_transitive(a: Seq<char>, b: Seq<char>, c: Seq<char>)
    requires
        text_le(a, b),
        text_le(b, c),
    ensures
        text_le(a, c),
    decreases a.len(),
{
    if a.len() > 0 && a[0] == b[0] && b[0] == c[0] {
        lemma_text_le_transitive(a.drop_first(), b.drop_first(), c.drop_first());
    }
}

/// Pairs in order of their first text, then of their second.
pub open spec fn pair_le(a: (Seq<char>, Seq<char>), b: (Seq<char>, Seq<char>)) -> bool {
    if a.0 == b.0 {
        text_le(a.1, b.1)
    } else {
        text_le(a.0, b.0)
    }
}

/// `p` put into the ordered list `s`, behind everything that does not come after it.
pub open spec fn insert_pair(
    s: Seq<(Seq<char>, Seq<char>)>,
    p: (Seq<char>, Seq<char>),
) -> Seq<(Seq<char>, Seq<char>)>
    decreases s.len(),
{
    if s.len() == 0 || pair_le(s.last(), p) {
        s.push(p)
    } else {
        insert_pair(s.drop_last(), p).push(s.last())
    }
}

/// The pairs in order.
pub open spec fn sorted_pairs(s: Seq<(Seq<char>, Seq<char>)>) -> Seq<(Seq<char>, Seq<char>)>
    decreases s.len(),
{
    if s.len() == 0 {
        s
    } else {
        insert_pair(sorted_pairs(s.drop_last()), s.last())
    }
}

/// The texts of a list of pairs of strings.
pub open spec fn pairs_view(v: Seq<(String, String)>) -> Seq<(Seq<char>, Seq<char>)> {
    Seq::new(v.len(), |i: int| (v[i].0@, v[i].1@))
}

pub fn strings_pair_le(a: &(String, String), b: &(String, String)) -> (r: bool)
    ensures
        r == pair_le((a.0@, a.1@), (b.0@, b.1@)),
{
    if crate::text::str_eq(a.0.as_str(), b.0.as_str()) {
        str_le(a.1.as_str(), b.1.as_str())
    } else {
        str_le(a.0.as_str(), b.0.as_str())
    }
}

/// The pairs in order.
pub fn sort_pairs(v: Vec<(String, String)>) -> (r: Vec<(String, String)>)
    ensures
        pairs_view(r@) == sorted_pairs(pairs_view(v@)),
{
    let mut out: Vec<(String, String)> = Vec::new();
    let mut i: usize = 0;
    assert(pairs_view(out@) =~= sorted_pairs(pairs_view(v@).take(0)));
    while i < v.len()
        invariant
            i <= v@.len(),
            pairs_view(out@) == sorted_pairs(pairs_view(v@).take(i as int)),
        decreases v@.len() - i,
    {
        let item = (v[i].0.clone(), v[i].1.clone());
        let ghost before = pairs_view(out@);
        let ghost p = (item.0@, item.1@);
        let mut k: usize = out.len();
        assert(before.take(k as int) =~= before);
        assert(before.subrange(k as int, before.len() as int) =~= Seq::empty());
        assert(insert_pair(before.take(k as int), p) + before.subrange(
            k as int,
            before.len() as int,
        ) =~= insert_pair(before, p));
        while k > 0 && !strings_pair_le(&out[k - 1], &item)
            invariant
                k <= out@.len(),
                before == pairs_view(out@),
                p == (item.0@, item.1@),
                insert_pair(before.take(k as int), p) + before.subrange(
                    k as int,
                    before.len() as int,
                ) == insert_pair(before, p),
            decreases k,
        {
            proof {
                let head = before.take(k as int);
                assert(head.drop_last() =~= before.take(k - 1));
                assert(insert_pair(head, p) == insert_pair(before.take(k - 1), p).push(head.last()));
                assert(insert_pair(before.take(k - 1), p).push(head.last()) + before.subrange(
                    k as int,
                    before.len() as int,
                ) =~= insert_pair(before.take(k - 1), p) + before.subrange(
                    k - 1,
                    before.len() as int,
                ));
            }
            k -= 1;
        }
        proof {
            let head = before.take(k as int);
            assert(insert_pair(head, p) == head.push(p));
        }
        out.insert(k, item);
        i += 1;
        proof {
            assert(pairs_view(out@) =~= before.take(k as int).push(p) + before.subrange(
                k as int,
                before.len() as int,
            ));
            assert(pairs_view(v@).take(i as int).drop_last() =~= pairs_view(v@).take(i - 1));
        }
    }
    assert(pairs_view(v@).take(i as int) =~= pairs_view(v@));
    out
}

/// Each pair comes no later than those behind it.
pub open spec fn in_order(s: Seq<(Seq<char>, Seq<char>)>) -> bool {
    forall|i: int, j: int| 0 <= i <= j < s.len() ==> pair_le(#[trigger] s[i], #[trigger] s[j])
}

proof fn lemma_pair_order(
    a: (Seq<char>, Seq<char>),
    b: (Seq<char>, Seq<char>),
    c: (Seq<char>, Seq<char>),
)
    ensures
        pair_le(a, a),
        pair_le(a, b) || pair_le(b, a),
        pair_le(a, b) && pair_le(b, c) ==> pair_le(a, c),
{
    lemma_text_le_reflexive(a.1);
    lemma_text_le_total(a.0, b.0);
    lemma_text_le_total(a.1, b.1);
    if pair_le(a, b) && pair_le(b, c) {
        if a.0 == b.0 && b.0 == c.0 {
            lemma_text_le_transitive(a.1, b.1, c.1);
        } else {
            lemma_text_le_total(b.0, c.0);
            if a.0 != b.0 && b.0 != c.0 {
                lemma_text_le_transitive(a.0, b.0, c.0);
                if a.0 == c.0 {
                    lemma_text_le_total(a.0, b.0);
                }
            }
        }
    }
}

proof fn lemma_insert_pair(s: Seq<(Seq<char>, Seq<char>)>, p: (Seq<char>, Seq<char>))
    requires
        in_order(s),
    ensures
        in_order(insert_pair(s, p)),
        insert_pair(s, p).to_multiset() == s.to_multiset().insert(p),
        insert_pair(s, p).len() == s.len() + 1,
        forall|q: (Seq<char>, Seq<char>)|
            (forall|i: int| 0 <= i < s.len() ==> pair_le(#[trigger] s[i], q)) && pair_le(p, q)
                ==> forall|i: int|
                0 <= i < insert_pair(s, p).len() ==> pair_le(#[trigger] insert_pair(s, p)[i], q),
    decreases s.len(),
{
    broadcast use vstd::seq_lib::group_to_multiset_ensures;

    if s.len() == 0 || pair_le(s.last(), p) {
        let r = s.push(p);
        assert forall|i: int, j: int| 0 <= i <= j < r.len() implies pair_le(
            #[trigger] r[i],
            #[trigger] r[j],
        ) by {
            lemma_pair_order(p, p, p);
            if j == s.len() && i < s.len() {
                assert(pair_le(s[i], s[s.len() - 1]));
                lemma_pair_order(s[i], s.last(), p);
            }
        }
    } else {
        let h = s.drop_last();
        assert(in_order(h)) by {
            assert forall|i: int, j: int| 0 <= i <= j < h.len() implies pair_le(
                #[trigger] h[i],
                #[trigger] h[j],
            ) by {
                assert(h[i] == s[i] && h[j] == s[j]);
            }
        }
        lemma_insert_pair(h, p);
        let g = insert_pair(h, p);
        let r = g.push(s.last());
        lemma_pair_order(s.last(), p, p);
        assert forall|i: int| 0 <= i < h.len() implies pair_le(#[trigger] h[i], s.last()) by {
            assert(pair_le(s[i], s[s.len() - 1]));
        }
        assert(forall|i: int| 0 <= i < g.len() ==> pair_le(#[trigger] g[i], s.last()));
        assert forall|i: int, j: int| 0 <= i <= j < r.len() implies pair_le(
            #[trigger] r[i],
            #[trigger] r[j],
        ) by {
            lemma_pair_order(s.last(), s.last(), s.last());
            if j < g.len() {
                assert(r[i] == g[i] && r[j] == g[j]);
            } else if i < g.len() {
                assert(r[i] == g[i]);
            }
        }
        assert(s =~= h.push(s.last()));
        assert(r.to_multiset() =~= s.to_multiset().insert(p));
        assert forall|q: (Seq<char>, Seq<char>)|
            (forall|i: int| 0 <= i < s.len() ==> pair_le(#[trigger] s[i], q)) && pair_le(
                p,
                q,
            ) implies forall|i: int| 0 <= i < r.len() ==> pair_le(#[trigger] r[i], q) by {
            assert forall|i: int| 0 <= i < h.len() implies pair_le(#[trigger] h[i], q) by {
                assert(pair_le(s[i], q));
            }
            assert forall|i: int| 0 <= i < r.len() implies pair_le(#[trigger] r[i], q) by {
                if i < g.len() {
                    assert(r[i] == g[i]);
                } else {
                    assert(pair_le(s[s.len() - 1], q));
                }
            }
        }
    }
}

/// Sorting keeps every pair and puts them in order.
pub proof fn law_sorting_orders_the_same_pairs(s: Seq<(Seq<char>, Seq<char>)>)
    ensures
        in_order(sorted_pairs(s)),
        sorted_pairs(s).to_multiset() == s.to_multiset(),
    decreases s.len(),
{
    broadcast use vstd::seq_lib::group_to_multiset_ensures;

    if s.len() > 0 {
        law_sorting_orders_the_same_pairs(s.drop_last());
        lemma_insert_pair(sorted_pairs(s.drop_last()), s.last());
        assert(s =~= s.drop_last().push(s.last()));
    }
}

/// There is only one order of the same pairs.
pub proof fn lemma_order_is_unique(
    s: Seq<(Seq<char>, Seq<char>)>,
    t: Seq<(Seq<char>, Seq<char>)>,
)
    requires
        in_order(s),
        in_order(t),
        s.to_multiset() == t.to_multiset(),
    ensures
        s == t,
    decreases s.len(),
{
    broadcast use vstd::seq_lib::group_to_multiset_ensures;

    assert(s.len() == s.to_multiset().len());
    assert(t.len() == t.to_multiset().len());
    if s.len() == 0 {
        assert(s =~= t);
    } else {
        let a = s.last();
        let b = t.last();
        assert(s.to_multiset().count(a) > 0 && t.to_multiset().count(b) > 0);
        assert(t.contains(a) && s.contains(b));
        let i = choose|i: int| 0 <= i < t.len() && t[i] == a;
        let j = choose|j: int| 0 <= j < s.len() && s[j] == b;
        assert(pair_le(t[i], t[t.len() - 1]));
        assert(pair_le(s[j], s[s.len() - 1]));
        lemma_text_le_total(a.0, b.0);
        lemma_text_le_total(a.1, b.1);
        assert(a == b);
        let x = s.drop_last();
        let y = t.drop_last();
        assert(s =~= x.push(a));
        assert(t =~= y.push(a));
        assert(x.to_multiset() =~= y.to_multiset()) by {
            assert(x.push(a).to_multiset() == x.to_multiset().insert(a));
            assert(y.push(a).to_multiset() == y.to_multiset().insert(a));
            assert(x.to_multiset() =~= s.to_multiset().remove(a));
            assert(y.to_multiset() =~= t.to_multiset().remove(a));
        }
        assert forall|i: int, j: int| 0 <= i <= j < x.len() implies pair_le(
            #[trigger] x[i],
            #[trigger] x[j],
        ) by {
            assert(x[i] == s[i] && x[j] == s[j]);
        }
        assert forall|i: int, j: int| 0 <= i <= j < y.len() implies pair_le(
            #[trigger] y[i],
            #[trigger] y[j],
        ) by {
            assert(y[i] == t[i] && y[j] == t[j]);
        }
        lemma_order_is_unique(x, y);
    }
}

// ------------------------------------------------------------------ places --

/// `k` in its place in an ordered list of texts, once.
pub open spec fn placed(s: Seq<Seq<char>>, k: Seq<char>) -> Seq<Seq<char>>
    decreases s.len(),
{
    if s.len() == 0 {
        seq![k]
    } else if s[0] == k {
        s
    } else if text_le(k, s[0]) {
        seq![k] + s
    } else {
        seq![s[0]] + placed(s.drop_first(), k)
    }
}

/// Put a text in its place in an ordered list, once.
pub fn place_name(s: &mut Vec<String>, k: &str)
    ensures
        views(final(s)@) == placed(views(old(s)@), k@),
{
    let ghost all = views(s@);
    let n: usize = s.len();
    let mut i: usize = 0;
    assert(all.skip(0) =~= all);
    assert(all.take(0) + placed(all.skip(0), k@) =~= placed(all, k@));
    while i < n
        invariant
            i <= n == s@.len(),
            *s == *old(s),
            all == views(s@),
            all.take(i as int) + placed(all.skip(i as int), k@) == placed(all, k@),
        decreases n - i,
    {
        let ghost rest = all.skip(i as int);
        assert(rest[0] == all[i as int]);
        assert(rest.drop_first() =~= all.skip(i + 1));
        if str_eq(s[i].as_str(), k) {
            assert(all.take(i as int) + rest =~= all);
            return;
        }
        if str_le(k, s[i].as_str()) {
            s.insert(i, k.to_owned());
            assert(views(s@) =~= all.take(i as int) + (seq![k@] + rest));
            return;
        }
        assert(all.take(i as int) + (seq![rest[0]] + placed(rest.drop_first(), k@)) =~= all.take(
            i + 1,
        ) + placed(all.skip(i + 1), k@));
        i += 1;
    }
    s.push(k.to_owned());
    assert(all.skip(i as int).len() == 0);
    assert(views(s@) =~= all.take(i as int) + seq![k@]);
}

/// No text comes after a later one, and none occurs twice.
pub open spec fn sorted_texts(s: Seq<Seq<char>>) -> bool {
    forall|i: int, j: int| 0 <= i < j < s.len() ==> text_le(s[i], s[j]) && s[i] != s[j]
}

pub proof fn lemma_placed(s: Seq<Seq<char>>, k: Seq<char>)
    requires
        sorted_texts(s),
    ensures
        sorted_texts(placed(s, k)),
        forall|x: Seq<char>| #[trigger] placed(s, k).contains(x) <==> s.contains(x) || x == k,
    decreases s.len(),
{
    lemma_text_le_reflexive(k);
    let p = placed(s, k);
    if s.len() == 0 {
        assert(p[0] == k);
    } else if s[0] == k {
    } else if text_le(k, s[0]) {
        assert forall|i: int, j: int| 0 <= i < j < p.len() implies text_le(p[i], p[j]) && p[i]
            != p[j] by {
            if i == 0 {
                if j > 1 {
                    assert(p[j] == s[j - 1]);
                    lemma_text_le_transitive(k, s[0], s[j - 1]);
                    if s[j - 1] == k {
                        lemma_text_le_total(k, s[0]);
                    }
                }
            } else {
                assert(p[i] == s[i - 1] && p[j] == s[j - 1]);
            }
        }
        assert forall|x: Seq<char>| #[trigger] p.contains(x) <==> s.contains(x) || x == k by {
            assert(p[0] == k);
            if s.contains(x) {
                let m = choose|m: int| 0 <= m < s.len() && s[m] == x;
                assert(p[m + 1] == x);
            }
            if p.contains(x) {
                let m = choose|m: int| 0 <= m < p.len() && p[m] == x;
                if m > 0 {
                    assert(s[m - 1] == x);
                }
            }
        }
    } else {
        let t = s.drop_first();
        lemma_placed(t, k);
        let q = placed(t, k);
        lemma_text_le_total(k, s[0]);
        assert forall|i: int, j: int| 0 <= i < j < p.len() implies text_le(p[i], p[j]) && p[i]
            != p[j] by {
            assert(p[j] == q[j - 1]);
            if i == 0 {
                assert(q.contains(q[j - 1]));
                if t.contains(q[j - 1]) {
                    let m = choose|m: int| 0 <= m < t.len() && t[m] == q[j - 1];
                    assert(s[m + 1] == q[j - 1]);
                }
            } else {
                assert(p[i] == q[i - 1]);
            }
        }
        assert forall|x: Seq<char>| #[trigger] p.contains(x) <==> s.contains(x) || x == k by {
            if p.contains(x) {
                let m = choose|m: int| 0 <= m < p.len() && p[m] == x;
                if m == 0 {
                    assert(s[0] == x);
                } else {
                    assert(q[m - 1] == x);
                    assert(q.contains(x));
                    if t.contains(x) {
                        let w = choose|w: int| 0 <= w < t.len() && t[w] == x;
                        assert(s[w + 1] == x);
                    }
                }
            }
            if s.contains(x) || x == k {
                if s.contains(x) {
                    let m = choose|m: int| 0 <= m < s.len() && s[m] == x;
                    if m == 0 {
                        assert(p[0] == x);
                    } else {
                        assert(t[m - 1] == x);
                        assert(t.contains(x));
                    }
                }
                if x == k || t.contains(x) {
                    assert(q.contains(x));
                    let m = choose|m: int| 0 <= m < q.len() && q[m] == x;
                    assert(p[m + 1] == x);
                }
            }
        }
    }
}

// ---------------------------------------------------------------- numbers --

/// No number is smaller than one before it.
pub open spec fn ascending(s: Seq<u64>) -> bool {
    forall|i: int, j: int| 0 <= i <= j < s.len() ==> s[i] <= s[j]
}

/// Two ascending lists as one.
fn merge_numbers(a: &Vec<u64>, b: &Vec<u64>) -> (r: Vec<u64>)
    requires
        ascending(a@),
        ascending(b@),
    ensures
        ascending(r@),
        r@.to_multiset() =~= a@.to_multiset().add(b@.to_multiset()),
{
    let mut r: Vec<u64> = Vec::new();
    let mut i: usize = 0;
    let mut j: usize = 0;
    proof {
        broadcast use vstd::seq_lib::group_to_multiset_ensures;

        assert(a@.take(0) =~= Seq::<u64>::empty());
        assert(b@.take(0) =~= Seq::<u64>::empty());
        assert(r@.to_multiset() =~= a@.take(0).to_multiset().add(b@.take(0).to_multiset()));
    }
    while i < a.len() || j < b.len()
        invariant
            i <= a@.len(),
            j <= b@.len(),
            ascending(a@),
            ascending(b@),
            ascending(r@),
            forall|k: int, l: int| 0 <= k < r@.len() && i <= l < a@.len() ==> r@[k] <= a@[l],
            forall|k: int, l: int| 0 <= k < r@.len() && j <= l < b@.len() ==> r@[k] <= b@[l],
            r@.to_multiset() =~= a@.take(i as int).to_multiset().add(
                b@.take(j as int).to_multiset(),
            ),
        decreases a@.len() - i + b@.len() - j,
    {
        broadcast use vstd::seq_lib::group_to_multiset_ensures;

        if j >= b.len() || (i < a.len() && a[i] <= b[j]) {
            r.push(a[i]);
            assert(a@.take(i + 1) =~= a@.take(i as int).push(a@[i as int]));
            i += 1;
        } else {
            r.push(b[j]);
            assert(b@.take(j + 1) =~= b@.take(j as int).push(b@[j as int]));
            j += 1;
        }
    }
    assert(a@.take(i as int) =~= a@);
    assert(b@.take(j as int) =~= b@);
    r
}

/// The same numbers, ascending.
pub fn sort_numbers(v: &Vec<u64>) -> (r: Vec<u64>)
    ensures
        ascending(r@),
        r@.to_multiset() =~= v@.to_multiset(),
    decreases v@.len(),
{
    let n: usize = v.len();
    let mut a: Vec<u64> = Vec::new();
    let mut b: Vec<u64> = Vec::new();
    let half: usize = n / 2;
    let mut i: usize = 0;
    while i < n
        invariant
            i <= n == v@.len(),
            half == n / 2,
            a@ == v@.take(if i < half {
                i as int
            } else {
                half as int
            }),
            b@ == v@.subrange(
                half as int,
                if i < half {
                    half as int
                } else {
                    i as int
                },
            ),
        decreases n - i,
    {
        if i < half {
            a.push(v[i]);
            assert(a@ =~= v@.take(i + 1));
        } else {
            b.push(v[i]);
            assert(b@ =~= v@.subrange(half as int, i + 1));
        }
        i += 1;
    }
    if n < 2 {
        assert(b@ =~= v@);
        return b;
    }
    let x = sort_numbers(&a);
    let y = sort_numbers(&b);
    let r = merge_numbers(&x, &y);
    proof {
        assert(v@ =~= a@ + b@);
        vstd::seq_lib::lemma_multiset_commutative(a@, b@);
    }
    r
}

} // verus!
