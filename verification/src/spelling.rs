//! Spelled-out signs: the `@` and the dots of an address that was written to hide it.
use vstd::prelude::*;
use vstd::string::*;
use crate::scan::{
    holds, lemma_replace_absent, lemma_replace_parts, lemma_replace_run, match_at, replace, replace_all,
    replace_from, starts,
};
use crate::text::is_space;

verus! {

/// The bracketed spellings of a sign, each with the sign: first those with a space on
/// either side, then the bare ones.
pub open spec fn marks() -> Seq<(Seq<char>, char)> {
    seq![
        (" (at) "@, '@'),
        (" [at] "@, '@'),
        (" (dot) "@, '.'),
        (" [dot] "@, '.'),
        ("(at)"@, '@'),
        ("[at]"@, '@'),
        ("(dot)"@, '.'),
        ("[dot]"@, '.'),
    ]
}

/// The text with the `n`-th spelling undone.
pub open spec fn undone(s: Seq<char>, n: int) -> Seq<char> {
    replace(s, marks()[n].0, seq![marks()[n].1])
}

/// The text with the spellings of `@` and `.` undone, the Spanish word for `@` among them.
pub open spec fn unbracketed(s: Seq<char>) -> Seq<char> {
    let a = undone(undone(undone(undone(s, 0), 1), 2), 3);
    let b = replace(a, " arroba "@, seq!['@']);
    undone(undone(undone(undone(b, 4), 5), 6), 7)
}

/// The text with the spellings of `@` and `.` undone.
pub fn unbracket(v: &[char]) -> (r: Vec<char>)
    ensures
        r@ == unbracketed(v@),
{
    proof {
        reveal_strlit("@");
        reveal_strlit(".");
        assert("@"@ =~= seq!['@']);
        assert("."@ =~= seq!['.']);
    }
    let a = replace_all(v, " (at) ", "@");
    let b = replace_all(&a, " [at] ", "@");
    let c = replace_all(&b, " (dot) ", ".");
    let d = replace_all(&c, " [dot] ", ".");
    let e = replace_all(&d, " arroba ", "@");
    let f = replace_all(&e, "(at)", "@");
    let g = replace_all(&f, "[at]", "@");
    let h = replace_all(&g, "(dot)", ".");
    replace_all(&h, "[dot]", ".")
}

// --------------------------------------------------------------- spellings --

pub open spec fn is_sign(c: char) -> bool {
    c == '@' || c == '.'
}

pub open spec fn opens(c: char) -> bool {
    c == '(' || c == '['
}

pub open spec fn closes(c: char) -> bool {
    c == ')' || c == ']'
}

/// `w` is `v` with some of its signs in a spelling from the `n`-th on.
pub open spec fn spells(v: Seq<char>, w: Seq<char>, n: int) -> bool
    decreases v.len(),
{
    if v.len() == 0 {
        w.len() == 0
    } else {
        ||| w.len() > 0 && w[0] == v[0] && spells(v.drop_first(), w.drop_first(), n)
        ||| exists|k: int|
            n <= k < 8 && marks()[k].1 == v[0] && starts(w, #[trigger] marks()[k].0) && spells(
                v.drop_first(),
                w.skip(marks()[k].0.len() as int),
                n,
            )
    }
}

/// The end of an address: no white space and no brackets, no two signs in a row, no sign
/// at the end.
pub open spec fn ends_address(v: Seq<char>) -> bool {
    &&& forall|i: int|
        0 <= i < v.len() ==> !is_space(#[trigger] v[i]) && !opens(v[i]) && !closes(v[i])
    &&& forall|i: int, j: int|
        0 <= i && j == i + 1 && j < v.len() && is_sign(#[trigger] v[i]) ==> !is_sign(
            #[trigger] v[j],
        )
    &&& v.len() > 0 ==> !is_sign(v.last())
}

/// What an address looks like: an `@` inside, no white space, no brackets, no two signs
/// in a row, and no sign at either end.
pub open spec fn is_address(v: Seq<char>) -> bool {
    ends_address(v) && v.contains('@') && !is_sign(v[0])
}

/// How a spelling is made: brackets around letters, and in the first four a space at
/// either end.
proof fn lemma_mark(k: int)
    requires
        0 <= k < 8,
    ensures
        ({
            let p = marks()[k].0;
            let o = if k < 4 {
                1int
            } else {
                0int
            };
            let c = p.len() - 1 - o;
            &&& 4 <= p.len() <= 7
            &&& o + 1 < c
            &&& opens(p[o]) && closes(p[c])
            &&& k < 4 ==> p[0] == ' ' && p.last() == ' '
            &&& forall|i: int|
                o < i < c ==> !opens(#[trigger] p[i]) && !closes(p[i]) && p[i] != '@' && p[i] != ' '
            &&& is_sign(marks()[k].1)
        }),
{
    reveal_strlit(" (at) ");
    reveal_strlit(" [at] ");
    reveal_strlit(" (dot) ");
    reveal_strlit(" [dot] ");
    reveal_strlit("(at)");
    reveal_strlit("[at]");
    reveal_strlit("(dot)");
    reveal_strlit("[dot]");
}

/// No two spellings of the same shape start alike.
proof fn lemma_marks_differ(n: int, k: int)
    requires
        0 <= n < k < 8,
        (n < 4) == (k < 4),
    ensures
        exists|i: int|
            0 <= i < marks()[n].0.len() && i < marks()[k].0.len() && #[trigger] marks()[n].0[i]
                != marks()[k].0[i],
{
    reveal_strlit(" (at) ");
    reveal_strlit(" [at] ");
    reveal_strlit(" (dot) ");
    reveal_strlit(" [dot] ");
    reveal_strlit("(at)");
    reveal_strlit("[at]");
    reveal_strlit("(dot)");
    reveal_strlit("[dot]");
    let p = marks()[n].0;
    let f = marks()[k].0;
    assert(p[0] != f[0] || p[1] != f[1] || p[2] != f[2]);
}

/// A character that is no sign stands for itself.
proof fn lemma_first(v: Seq<char>, w: Seq<char>, n: int)
    requires
        0 <= n,
        v.len() > 0,
        !is_sign(v[0]),
        spells(v, w, n),
    ensures
        w.len() > 0,
        w[0] == v[0],
        spells(v.drop_first(), w.drop_first(), n),
{
    if exists|k: int|
        n <= k < 8 && marks()[k].1 == v[0] && starts(w, #[trigger] marks()[k].0) && spells(
            v.drop_first(),
            w.skip(marks()[k].0.len() as int),
            n,
        ) {
        let k = choose|k: int|
            n <= k < 8 && marks()[k].1 == v[0] && starts(w, #[trigger] marks()[k].0) && spells(
                v.drop_first(),
                w.skip(marks()[k].0.len() as int),
                n,
            );
        lemma_mark(k);
    }
}

proof fn lemma_ends_rest(v: Seq<char>)
    requires
        ends_address(v),
        v.len() > 0,
    ensures
        ends_address(v.drop_first()),
{
    let r = v.drop_first();
    assert forall|i: int| 0 <= i < r.len() implies !is_space(#[trigger] r[i]) && !opens(r[i])
        && !closes(r[i]) by {
        assert(r[i] == v[i + 1]);
    }
    assert forall|i: int, j: int|
        0 <= i && j == i + 1 && j < r.len() && is_sign(#[trigger] r[i]) implies !is_sign(
        #[trigger] r[j],
    ) by {
        assert(r[i] == v[i + 1] && r[j] == v[j + 1]);
    }
    if r.len() > 0 {
        assert(r.last() == v.last());
    }
}

/// In a spelling a bracket closes only behind one that opens.
proof fn lemma_closing(v: Seq<char>, w: Seq<char>, n: int, j: int) -> (i: int)
    requires
        0 <= n,
        ends_address(v),
        spells(v, w, n),
        0 <= j < w.len(),
        closes(w[j]),
    ensures
        0 <= i < j,
        opens(w[i]),
    decreases v.len(),
{
    if v.len() == 0 {
        0
    } else {
        let rest = v.drop_first();
        lemma_ends_rest(v);
        if w.len() > 0 && w[0] == v[0] && spells(rest, w.drop_first(), n) {
            assert(w.drop_first()[j - 1] == w[j]);
            let i = lemma_closing(rest, w.drop_first(), n, j - 1);
            assert(w.drop_first()[i] == w[i + 1]);
            i + 1
        } else {
            let k = choose|k: int|
                n <= k < 8 && marks()[k].1 == v[0] && starts(w, #[trigger] marks()[k].0) && spells(
                    rest,
                    w.skip(marks()[k].0.len() as int),
                    n,
                );
            let f = marks()[k].0;
            lemma_mark(k);
            let o = if k < 4 {
                1int
            } else {
                0int
            };
            assert(w.subrange(0, f.len() as int) == f);
            assert(w.subrange(0, f.len() as int)[o] == w[o]);
            assert(w.subrange(0, f.len() as int)[0] == w[0]);
            if j <= o {
                assert(f[j] == w[j]);
            }
            o
        }
    }
}

/// A spelling of what holds an `@` holds one, or a bracket that opens.
proof fn lemma_at(v: Seq<char>, w: Seq<char>, n: int) -> (i: int)
    requires
        0 <= n,
        v.contains('@'),
        spells(v, w, n),
    ensures
        0 <= i < w.len(),
        w[i] == '@' || opens(w[i]),
    decreases v.len(),
{
    let at = choose|at: int| 0 <= at < v.len() && v[at] == '@';
    let rest = v.drop_first();
    if w.len() > 0 && w[0] == v[0] && spells(rest, w.drop_first(), n) {
        if v[0] == '@' {
            0
        } else {
            assert(rest[at - 1] == '@');
            let i = lemma_at(rest, w.drop_first(), n);
            assert(w.drop_first()[i] == w[i + 1]);
            i + 1
        }
    } else {
        let k = choose|k: int|
            n <= k < 8 && marks()[k].1 == v[0] && starts(w, #[trigger] marks()[k].0) && spells(
                rest,
                w.skip(marks()[k].0.len() as int),
                n,
            );
        let f = marks()[k].0;
        lemma_mark(k);
        let o = if k < 4 {
            1int
        } else {
            0int
        };
        assert(w.subrange(0, f.len() as int)[o] == w[o]);
        o
    }
}

/// The bare spellings hold no spaces.
proof fn lemma_no_space(v: Seq<char>, w: Seq<char>, j: int)
    requires
        ends_address(v),
        spells(v, w, 4),
        0 <= j < w.len(),
    ensures
        w[j] != ' ',
    decreases v.len(),
{
    if v.len() > 0 {
        let rest = v.drop_first();
        lemma_ends_rest(v);
        if w.len() > 0 && w[0] == v[0] && spells(rest, w.drop_first(), 4) {
            assert(is_space(' '));
            if j > 0 {
                assert(w.drop_first()[j - 1] == w[j]);
                lemma_no_space(rest, w.drop_first(), j - 1);
            }
        } else {
            let k = choose|k: int|
                4 <= k < 8 && marks()[k].1 == v[0] && starts(w, #[trigger] marks()[k].0) && spells(
                    rest,
                    w.skip(marks()[k].0.len() as int),
                    4,
                );
            let f = marks()[k].0;
            lemma_mark(k);
            if j < f.len() {
                assert(w.subrange(0, f.len() as int)[j] == w[j]);
            } else {
                assert(w.skip(f.len() as int)[j - f.len()] == w[j]);
                lemma_no_space(rest, w.skip(f.len() as int), j - f.len());
            }
        }
    }
}

/// What is in no spelling from the last on is written as it is.
proof fn lemma_spelled_out(v: Seq<char>, w: Seq<char>)
    requires
        spells(v, w, 8),
    ensures
        w == v,
    decreases v.len(),
{
    if v.len() > 0 {
        lemma_spelled_out(v.drop_first(), w.drop_first());
        assert(w =~= seq![w[0]] + w.drop_first());
        assert(v =~= seq![v[0]] + v.drop_first());
    } else {
        assert(w =~= v);
    }
}

// ------------------------------------------------------------------ passes --

/// Undoing the `n`-th spelling inside an address that ends at `e`.
proof fn lemma_undo_window(t: Seq<char>, i: int, e: int, v: Seq<char>, n: int) -> (w: Seq<char>)
    requires
        0 <= i <= e <= t.len(),
        0 <= n < 8,
        ends_address(v),
        spells(v, t.subrange(i, e), n),
    ensures
        replace_from(t, i, marks()[n].0, seq![marks()[n].1]) == w + replace_from(
            t,
            e,
            marks()[n].0,
            seq![marks()[n].1],
        ),
        spells(v, w, n + 1),
    decreases v.len(),
{
    let p = marks()[n].0;
    let q = seq![marks()[n].1];
    let old_w = t.subrange(i, e);
    let after = replace_from(t, e, p, q);
    lemma_mark(n);
    if v.len() == 0 {
        assert(Seq::<char>::empty() + after =~= after);
        Seq::empty()
    } else {
        let rest = v.drop_first();
        lemma_ends_rest(v);
        if old_w.len() > 0 && old_w[0] == v[0] && spells(rest, old_w.drop_first(), n) {
            assert(t[i] == v[0]);
            if match_at(t, i, p) {
                assert(t.subrange(i, i + p.len())[0] == t[i]);
                assert(is_space(' '));
            }
            assert(old_w.drop_first() =~= t.subrange(i + 1, e));
            let w = lemma_undo_window(t, i + 1, e, rest, n);
            let new = seq![v[0]] + w;
            assert(seq![t[i]] + (w + after) =~= new + after);
            assert(new.drop_first() =~= w);
            new
        } else {
            let k = choose|k: int|
                n <= k < 8 && marks()[k].1 == v[0] && starts(old_w, #[trigger] marks()[k].0)
                    && spells(rest, old_w.skip(marks()[k].0.len() as int), n);
            let f = marks()[k].0;
            let m = i + f.len();
            lemma_mark(k);
            assert(old_w.subrange(0, f.len() as int) =~= t.subrange(i, m));
            assert(old_w.skip(f.len() as int) =~= t.subrange(m, e));
            let w = lemma_undo_window(t, m, e, rest, n);
            if k == n {
                assert(match_at(t, i, p));
                let new = seq![v[0]] + w;
                assert(q + (w + after) =~= new + after);
                assert(new.drop_first() =~= w);
                new
            } else {
                assert(v.len() > 1) by {
                    if v.len() == 1 {
                        assert(v.last() == v[0]);
                    }
                }
                assert(is_sign(v[0]) && !is_sign(v[1]));
                assert(rest[0] == v[1]);
                lemma_first(rest, t.subrange(m, e), n);
                assert(t.subrange(m, e)[0] == t[m]);
                assert forall|j: int| i <= j < m implies !#[trigger] match_at(t, j, p) by {
                    lemma_no_other(t, i, j, n, k);
                }
                lemma_replace_run(t, i, m, p, q);
                let new = f + w;
                assert(f + (w + after) =~= new + after);
                assert(new.subrange(0, f.len() as int) =~= f);
                assert(starts(new, marks()[k].0));
                assert(new.skip(f.len() as int) =~= w);
                new
            }
        }
    }
}

/// A later spelling, with no bracket behind it, holds no start of an earlier one.
proof fn lemma_no_other(t: Seq<char>, i: int, j: int, n: int, k: int)
    requires
        0 <= n < k < 8,
        0 <= i <= j < i + marks()[k].0.len(),
        i + marks()[k].0.len() < t.len(),
        t.subrange(i, i + marks()[k].0.len()) == marks()[k].0,
        !opens(t[i + marks()[k].0.len()]),
    ensures
        !match_at(t, j, marks()[n].0),
{
    let p = marks()[n].0;
    let f = marks()[k].0;
    lemma_mark(n);
    lemma_mark(k);
    if match_at(t, j, p) {
        let m = t.subrange(j, j + p.len());
        let g = t.subrange(i, i + f.len());
        assert(m == p && g == f);
        assert(m[0] == t[j] && m[1] == t[j + 1]);
        assert(g[j - i] == t[j]);
        if j + 1 < i + f.len() {
            assert(g[j - i + 1] == t[j + 1]);
        }
        if j == i && (n < 4) == (k < 4) {
            lemma_marks_differ(n, k);
            let d = choose|d: int| 0 <= d < p.len() && d < f.len() && #[trigger] p[d] != f[d];
            assert(m[d] == t[j + d] && g[d] == t[i + d]);
        }
    }
}

/// Undoing the `n`-th spelling in a text around an address.
proof fn lemma_undo(a: Seq<char>, w: Seq<char>, b: Seq<char>, v: Seq<char>, n: int) -> (r: (
    Seq<char>,
    Seq<char>,
    Seq<char>,
))
    requires
        0 <= n < 8,
        is_address(v),
        spells(v, w, n),
    ensures
        undone(a + w + b, n) == r.0 + r.1 + r.2,
        spells(v, r.1, n + 1),
{
    let t = a + w + b;
    let p = marks()[n].0;
    let q = seq![marks()[n].1];
    let i = a.len() as int;
    let e = (a.len() + w.len()) as int;
    lemma_mark(n);
    lemma_first(v, w, n);
    assert forall|j: int| 0 <= j < i && #[trigger] match_at(t, j, p) implies j + p.len() <= i by {
        lemma_no_match_over(a, w, b, v, n, j);
    }
    let head = lemma_replace_parts(t, 0, i, p, q);
    assert(t.subrange(i, e) =~= w);
    let new = lemma_undo_window(t, i, e, v, n);
    let after = replace_from(t, e, p, q);
    assert(head + (new + after) =~= head + new + after);
    (head, new, after)
}

/// No spelling stands over the start of an address.
proof fn lemma_no_match_over(
    a: Seq<char>,
    w: Seq<char>,
    b: Seq<char>,
    v: Seq<char>,
    n: int,
    j: int,
)
    requires
        0 <= n < 8,
        is_address(v),
        spells(v, w, n),
        0 <= j < a.len(),
        match_at(a + w + b, j, marks()[n].0),
    ensures
        j + marks()[n].0.len() <= a.len(),
{
    let t = a + w + b;
    let p = marks()[n].0;
    let o = if n < 4 {
        1int
    } else {
        0int
    };
    let c = p.len() - 1 - o;
    let d = a.len() - j;
    lemma_mark(n);
    lemma_first(v, w, n);
    if j + p.len() > a.len() {
        let m = t.subrange(j, j + p.len());
        assert(m == p);
        assert(m[d] == w[0]);
        assert(is_space(' '));
        assert(o < d < c);
        if c - d < w.len() {
            assert(m[c] == w[c - d]);
            let i = lemma_closing(v, w, n, c - d);
            assert(m[d + i] == w[i]);
        } else {
            let i = lemma_at(v, w, n);
            assert(m[d + i] == w[i]);
        }
    }
}

/// The Spanish word leaves an address alone.
proof fn lemma_arroba(a: Seq<char>, w: Seq<char>, b: Seq<char>, v: Seq<char>) -> (r: (
    Seq<char>,
    Seq<char>,
))
    requires
        is_address(v),
        spells(v, w, 4),
    ensures
        replace(a + w + b, " arroba "@, seq!['@']) == r.0 + w + r.1,
{
    let t = a + w + b;
    let p = " arroba "@;
    let q = seq!['@'];
    let i = a.len() as int;
    let e = (a.len() + w.len()) as int;
    reveal_strlit(" arroba ");
    lemma_first(v, w, 4);
    assert forall|j: int| 0 <= j < i && #[trigger] match_at(t, j, p) implies j + p.len() <= i by {
        if j + p.len() > i {
            let m = t.subrange(j, j + p.len());
            assert(m == p);
            let d = i - j;
            if 7 - d < w.len() {
                assert(m[7] == w[7 - d]);
                lemma_no_space(v, w, 7 - d);
            } else {
                let k = lemma_at(v, w, 4);
                assert(m[d + k] == w[k]);
            }
        }
    }
    let head = lemma_replace_parts(t, 0, i, p, q);
    assert forall|j: int| i <= j < e implies !#[trigger] match_at(t, j, p) by {
        if match_at(t, j, p) {
            assert(t.subrange(j, j + p.len())[0] == w[j - i]);
            lemma_no_space(v, w, j - i);
        }
    }
    lemma_replace_run(t, i, e, p, q);
    assert(t.subrange(i, e) =~= w);
    let after = replace_from(t, e, p, q);
    assert(head + (w + after) =~= head + w + after);
    (head, after)
}

/// An address stays where it stood, in its plain form, once spellings are undone.
pub proof fn lemma_unbracketed_address(a: Seq<char>, w: Seq<char>, b: Seq<char>, v: Seq<char>)
    requires
        is_address(v),
        spells(v, w, 0),
    ensures
        holds(unbracketed(a + w + b), v),
{
    let r1 = lemma_undo(a, w, b, v, 0);
    let r2 = lemma_undo(r1.0, r1.1, r1.2, v, 1);
    let r3 = lemma_undo(r2.0, r2.1, r2.2, v, 2);
    let r4 = lemma_undo(r3.0, r3.1, r3.2, v, 3);
    let r5 = lemma_arroba(r4.0, r4.1, r4.2, v);
    let r6 = lemma_undo(r5.0, r4.1, r5.1, v, 4);
    let r7 = lemma_undo(r6.0, r6.1, r6.2, v, 5);
    let r8 = lemma_undo(r7.0, r7.1, r7.2, v, 6);
    let r9 = lemma_undo(r8.0, r8.1, r8.2, v, 7);
    lemma_spelled_out(v, r9.1);
    let t = r9.0 + r9.1 + r9.2;
    assert(t.subrange(r9.0.len() as int, (r9.0.len() + v.len()) as int) =~= v);
    assert(match_at(t, r9.0.len() as int, v));
}

/// An address has no spellings to undo.
pub proof fn lemma_plain_address(v: Seq<char>)
    requires
        is_address(v),
    ensures
        unbracketed(v) == v,
{
    assert forall|n: int| 0 <= n < 8 implies #[trigger] undone(v, n) == v by {
        let p = marks()[n].0;
        lemma_mark(n);
        if holds(v, p) {
            let i = choose|i: int| match_at(v, i, p);
            let o = if n < 4 {
                1int
            } else {
                0int
            };
            assert(v.subrange(i, i + p.len())[o] == v[i + o]);
        }
        lemma_replace_absent(v, 0, p, seq![marks()[n].1]);
        assert(v.subrange(0, v.len() as int) =~= v);
    }
    reveal_strlit(" arroba ");
    if holds(v, " arroba "@) {
        let i = choose|i: int| match_at(v, i, " arroba "@);
        assert(v.subrange(i, i + 8)[0] == v[i]);
        assert(is_space(' '));
    }
    lemma_replace_absent(v, 0, " arroba "@, seq!['@']);
    assert(v.subrange(0, v.len() as int) =~= v);
}

} // verus!
