//! Searching, trimming, splitting and replacing.
use vstd::prelude::*;
use vstd::string::*;
use crate::text::{is_space, is_whitespace, lower_all, sub_chars, to_chars, views};

verus! {

// ------------------------------------------------------------- searching --

/// `p` stands in `s` at index `i`.
pub open spec fn match_at(s: Seq<char>, i: int, p: Seq<char>) -> bool {
    &&& 0 <= i
    &&& i + p.len() <= s.len()
    &&& s.subrange(i, i + p.len()) == p
}

/// `p` stands somewhere in `s`.
pub open spec fn holds(s: Seq<char>, p: Seq<char>) -> bool {
    exists|i: int| match_at(s, i, p)
}

/// The first index from `i` on at which `p` stands in `s`.
pub open spec fn find_from(s: Seq<char>, i: int, p: Seq<char>) -> Option<int>
    decreases s.len() + 1 - i,
{
    if i < 0 || i + p.len() > s.len() {
        None
    } else if match_at(s, i, p) {
        Some(i)
    } else {
        find_from(s, i + 1, p)
    }
}

/// The last index at or before `i` at which `p` stands in `s`.
pub open spec fn rfind_from(s: Seq<char>, i: int, p: Seq<char>) -> Option<int>
    decreases i + 1,
{
    if i < 0 {
        None
    } else if match_at(s, i, p) {
        Some(i)
    } else {
        rfind_from(s, i - 1, p)
    }
}

/// Does `p` stand in `v` at index `i`?
pub fn matches_at(v: &[char], i: usize, p: &str) -> (r: bool)
    requires
        i <= v@.len(),
    ensures
        r == match_at(v@, i as int, p@),
{
    let mut j: usize = i;
    for c in it: p.chars()
        invariant
            it.seq() == p@,
            j == i + it.index(),
            j <= v@.len(),
            v@.subrange(i as int, j as int) == p@.take(it.index()),
    {
        if j >= v.len() || v[j] != c {
            assert(!match_at(v@, i as int, p@)) by {
                if match_at(v@, i as int, p@) {
                    assert(v@.subrange(i as int, i + p@.len())[it.index()] == p@[it.index()]);
                }
            }
            return false;
        }
        j += 1;
        assert(v@.subrange(i as int, j as int) =~= p@.take(it.index() + 1));
    }
    assert(p@.take(p@.len() as int) =~= p@);
    true
}

/// Does the sequence `p` stand in `v` at index `i`?
pub fn matches_chars_at(v: &[char], i: usize, p: &[char]) -> (r: bool)
    requires
        i <= v@.len(),
    ensures
        r == match_at(v@, i as int, p@),
{
    let n: usize = v.len();
    if p.len() > n - i {
        return false;
    }
    let mut k: usize = 0;
    while k < p.len()
        invariant
            k <= p@.len(),
            n == v@.len(),
            i + p@.len() <= n,
            v@.subrange(i as int, i + k) == p@.take(k as int),
        decreases p@.len() - k,
    {
        if v[i + k] != p[k] {
            assert(!match_at(v@, i as int, p@)) by {
                if match_at(v@, i as int, p@) {
                    assert(v@.subrange(i as int, i + p@.len())[k as int] == p@[k as int]);
                }
            }
            return false;
        }
        k += 1;
        assert(v@.subrange(i as int, i + k) =~= p@.take(k as int));
    }
    assert(p@.take(p@.len() as int) =~= p@);
    true
}

/// The first index from `i` on at which `p` stands in `v`.
pub fn find(v: &[char], i: usize, p: &str) -> (r: Option<usize>)
    requires
        i <= v@.len(),
    ensures
        match r {
            Some(k) => find_from(v@, i as int, p@) == Some(k as int) && i <= k && match_at(
                v@,
                k as int,
                p@,
            ) && k + p@.len() <= usize::MAX,
            None => find_from(v@, i as int, p@) is None,
        },
{
    let p = to_chars(p);
    find_chars(v, i, &p)
}

/// The first index from `i` on at which the sequence `p` stands in `v`.
pub fn find_chars(v: &[char], i: usize, p: &[char]) -> (r: Option<usize>)
    requires
        i <= v@.len(),
    ensures
        match r {
            Some(k) => find_from(v@, i as int, p@) == Some(k as int) && i <= k && match_at(
                v@,
                k as int,
                p@,
            ) && k + p@.len() <= usize::MAX,
            None => find_from(v@, i as int, p@) is None,
        },
{
    let mut k: usize = i;
    while k <= v.len() && p.len() <= v.len() - k
        invariant
            i <= k <= v@.len() + 1,
            find_from(v@, k as int, p@) == find_from(v@, i as int, p@),
        decreases v@.len() + 1 - k,
    {
        if matches_chars_at(v, k, p) {
            return Some(k);
        }
        if k == v.len() {
            assert(find_from(v@, k + 1, p@) is None);
            return None;
        }
        k += 1;
    }
    None
}

/// A search finds the first place, and every place it passed over is no match.
pub proof fn lemma_find_from(s: Seq<char>, i: int, p: Seq<char>)
    requires
        0 <= i,
    ensures
        match find_from(s, i, p) {
            Some(k) => i <= k && match_at(s, k, p) && forall|j: int|
                i <= j < k ==> !#[trigger] match_at(s, j, p),
            None => forall|j: int| i <= j ==> !#[trigger] match_at(s, j, p),
        },
    decreases s.len() + 1 - i,
{
    if i + p.len() <= s.len() && !match_at(s, i, p) {
        lemma_find_from(s, i + 1, p);
    }
}

/// A text holds `p` exactly when a search from its start finds `p`.
pub proof fn lemma_holds(s: Seq<char>, p: Seq<char>)
    ensures
        holds(s, p) == (find_from(s, 0, p) is Some),
{
    lemma_find_from(s, 0, p);
    if holds(s, p) {
        let i = choose|i: int| match_at(s, i, p);
        assert(match_at(s, i, p));
    }
}

/// Does `p` stand somewhere in `v`?
pub fn contains(v: &[char], p: &str) -> (r: bool)
    ensures
        r == holds(v@, p@),
{
    proof {
        lemma_holds(v@, p@);
    }
    match find(v, 0, p) {
        Some(_) => true,
        None => false,
    }
}

/// Does `p` stand somewhere in `s`?
pub fn str_contains(s: &str, p: &str) -> (r: bool)
    ensures
        r == holds(s@, p@),
{
    let v = to_chars(s);
    contains(&v, p)
}

/// Does the sequence `p` stand somewhere in `v`?
pub fn contains_chars(v: &[char], p: &[char]) -> (r: bool)
    ensures
        r == holds(v@, p@),
{
    proof {
        lemma_holds(v@, p@);
    }
    match find_chars(v, 0, p) {
        Some(_) => true,
        None => false,
    }
}

/// The last index at which `p` stands in `v`.
pub fn rfind(v: &[char], p: &str) -> (r: Option<usize>)
    ensures
        match r {
            Some(k) => rfind_from(v@, v@.len() as int, p@) == Some(k as int) && match_at(
                v@,
                k as int,
                p@,
            ) && k + p@.len() <= usize::MAX,
            None => rfind_from(v@, v@.len() as int, p@) is None,
        },
{
    let pc = to_chars(p);
    let n: usize = v.len();
    let mut k: usize = n;
    while k > 0
        invariant
            k <= n,
            n == v@.len(),
            pc@ == p@,
            rfind_from(v@, k as int, p@) == rfind_from(v@, v@.len() as int, p@),
        decreases k,
    {
        if matches_chars_at(v, k, &pc) {
            return Some(k);
        }
        k -= 1;
    }
    if matches_chars_at(v, 0, &pc) {
        return Some(0);
    }
    assert(rfind_from(v@, -1, p@) is None);
    None
}

/// The first index from `i` on that holds `c`.
pub open spec fn index_from(s: Seq<char>, i: int, c: char) -> Option<int>
    decreases s.len() - i,
{
    if i < 0 || i >= s.len() {
        None
    } else if s[i] == c {
        Some(i)
    } else {
        index_from(s, i + 1, c)
    }
}

pub fn index_of(v: &[char], i: usize, c: char) -> (r: Option<usize>)
    requires
        i <= v@.len(),
    ensures
        match r {
            Some(k) => index_from(v@, i as int, c) == Some(k as int) && i <= k < v@.len() && v@[k as int]
                == c && k < usize::MAX,
            None => index_from(v@, i as int, c) is None,
        },
{
    let mut k: usize = i;
    while k < v.len()
        invariant
            i <= k <= v@.len(),
            index_from(v@, k as int, c) == index_from(v@, i as int, c),
        decreases v@.len() - k,
    {
        if v[k] == c {
            return Some(k);
        }
        k += 1;
    }
    None
}

/// `s` starts with `p`.
pub open spec fn starts(s: Seq<char>, p: Seq<char>) -> bool {
    match_at(s, 0, p)
}

/// `s` ends with `p`.
pub open spec fn ends(s: Seq<char>, p: Seq<char>) -> bool {
    match_at(s, s.len() - p.len(), p)
}

pub fn starts_with(v: &[char], p: &str) -> (r: bool)
    ensures
        r == starts(v@, p@),
{
    matches_at(v, 0, p)
}

pub fn ends_with(v: &[char], p: &str) -> (r: bool)
    ensures
        r == ends(v@, p@),
{
    let p = to_chars(p);
    if p.len() > v.len() {
        return false;
    }
    matches_chars_at(v, v.len() - p.len(), &p)
}

// -------------------------------------------------------------- trimming --

/// `s` without the white space it starts with.
pub open spec fn trim_start(s: Seq<char>) -> Seq<char>
    decreases s.len(),
{
    if s.len() > 0 && is_space(s[0]) {
        trim_start(s.drop_first())
    } else {
        s
    }
}

/// `s` without the white space it ends with.
pub open spec fn trim_end(s: Seq<char>) -> Seq<char>
    decreases s.len(),
{
    if s.len() > 0 && is_space(s.last()) {
        trim_end(s.drop_last())
    } else {
        s
    }
}

/// `s` without white space at either end.
pub open spec fn trim(s: Seq<char>) -> Seq<char> {
    trim_end(trim_start(s))
}

/// Where the trimmed text starts and ends inside `v`.
pub fn trim_bounds(v: &[char]) -> (r: (usize, usize))
    ensures
        r.0 <= r.1 <= v@.len(),
        v@.subrange(r.0 as int, r.1 as int) == trim(v@),
{
    let mut lo: usize = 0;
    assert(v@.subrange(0, v@.len() as int) =~= v@);
    while lo < v.len() && is_whitespace(v[lo])
        invariant
            lo <= v@.len(),
            trim_start(v@.subrange(lo as int, v@.len() as int)) == trim_start(v@),
        decreases v@.len() - lo,
    {
        assert(v@.subrange(lo as int, v@.len() as int).drop_first() =~= v@.subrange(
            lo + 1,
            v@.len() as int,
        ));
        lo += 1;
    }
    let hi = trim_end_bound(v, lo);
    (lo, hi)
}

/// Where the text that starts at `lo` ends once trailing white space is dropped.
pub fn trim_end_bound(v: &[char], lo: usize) -> (hi: usize)
    requires
        lo <= v@.len(),
    ensures
        lo <= hi <= v@.len(),
        v@.subrange(lo as int, hi as int) == trim_end(v@.subrange(lo as int, v@.len() as int)),
{
    let mut hi: usize = v.len();
    while hi > lo && is_whitespace(v[hi - 1])
        invariant
            lo <= hi <= v@.len(),
            trim_end(v@.subrange(lo as int, hi as int)) == trim_end(
                v@.subrange(lo as int, v@.len() as int),
            ),
        decreases hi,
    {
        assert(v@.subrange(lo as int, hi as int).drop_last() =~= v@.subrange(lo as int, hi - 1));
        hi -= 1;
    }
    hi
}

/// The text without white space at either end.
pub fn trim_chars(v: &[char]) -> (r: Vec<char>)
    ensures
        r@ == trim(v@),
{
    let (lo, hi) = trim_bounds(v);
    sub_chars(v, lo, hi)
}

/// The text without white space at either end.
pub fn trim_str(s: &str) -> (r: &str)
    ensures
        r@ == trim(s@),
{
    let v = to_chars(s);
    let (lo, hi) = trim_bounds(&v);
    s.substring_char(lo, hi)
}

/// Nothing but white space.
pub open spec fn blank(s: Seq<char>) -> bool {
    forall|i: int| 0 <= i < s.len() ==> is_space(#[trigger] s[i])
}

/// A text trims to nothing exactly when it is blank.
pub proof fn lemma_trim_blank(s: Seq<char>)
    ensures
        (trim(s).len() == 0) == blank(s),
{
    lemma_trim_start(s);
    let t = trim_start(s);
    lemma_trim_end(t);
    if blank(s) && t.len() > 0 {
        assert(t[0] == s[s.len() - t.len()]);
    }
    if !blank(s) {
        let i = choose|i: int| 0 <= i < s.len() && !is_space(#[trigger] s[i]);
        if t.len() == 0 {
            assert(is_space(s[i]));
        }
    }
}

/// What `trim_start` keeps is a suffix; what it drops is white space.
pub proof fn lemma_trim_start(s: Seq<char>)
    ensures
        trim_start(s).len() <= s.len(),
        trim_start(s) == s.subrange(s.len() - trim_start(s).len(), s.len() as int),
        forall|i: int| 0 <= i < s.len() - trim_start(s).len() ==> is_space(#[trigger] s[i]),
        trim_start(s).len() > 0 ==> !is_space(trim_start(s)[0]),
    decreases s.len(),
{
    if s.len() > 0 && is_space(s[0]) {
        let t = s.drop_first();
        lemma_trim_start(t);
        assert(trim_start(t) =~= s.subrange(s.len() - trim_start(s).len(), s.len() as int));
        assert forall|i: int| 0 <= i < s.len() - trim_start(s).len() implies is_space(
            #[trigger] s[i],
        ) by {
            if i > 0 {
                assert(t[i - 1] == s[i]);
            }
        }
    } else {
        assert(s =~= s.subrange(0, s.len() as int));
    }
}

/// What `trim_end` keeps is a prefix; what it drops is white space.
pub proof fn lemma_trim_end(s: Seq<char>)
    ensures
        trim_end(s).len() <= s.len(),
        trim_end(s) == s.take(trim_end(s).len() as int),
        forall|i: int| trim_end(s).len() <= i < s.len() ==> is_space(#[trigger] s[i]),
        trim_end(s).len() > 0 ==> !is_space(trim_end(s).last()),
    decreases s.len(),
{
    if s.len() > 0 && is_space(s.last()) {
        let t = s.drop_last();
        lemma_trim_end(t);
        assert(trim_end(t) =~= s.take(trim_end(t).len() as int));
        assert forall|i: int| trim_end(s).len() <= i < s.len() implies is_space(#[trigger] s[i]) by {
            if i < s.len() - 1 {
                assert(t[i] == s[i]);
            }
        }
    } else {
        assert(s =~= s.take(s.len() as int));
    }
}

/// Is there nothing but white space here?
pub fn is_blank(v: &[char]) -> (r: bool)
    ensures
        r == blank(v@),
        r == (trim(v@).len() == 0),
{
    proof {
        lemma_trim_blank(v@);
    }
    let mut i: usize = 0;
    while i < v.len()
        invariant
            i <= v@.len(),
            blank(v@) == (trim(v@).len() == 0),
            forall|k: int| 0 <= k < i ==> is_space(#[trigger] v@[k]),
        decreases v@.len() - i,
    {
        if !is_whitespace(v[i]) {
            return false;
        }
        i += 1;
    }
    true
}

/// Is there nothing but white space in this string?
pub fn is_blank_str(s: &str) -> (r: bool)
    ensures
        r == blank(s@),
        r == (trim(s@).len() == 0),
{
    let v = to_chars(s);
    is_blank(&v)
}

// ------------------------------------------------------------- splitting --

/// Where the word that starts at `i` ends.
pub open spec fn word_end(s: Seq<char>, i: int) -> int
    decreases s.len() - i,
{
    if 0 <= i < s.len() && !is_space(s[i]) {
        word_end(s, i + 1)
    } else {
        i
    }
}

pub proof fn lemma_word_end(s: Seq<char>, i: int)
    requires
        0 <= i <= s.len(),
    ensures
        i <= word_end(s, i) <= s.len(),
        i < s.len() && !is_space(s[i]) ==> i < word_end(s, i),
    decreases s.len() - i,
{
    if i < s.len() && !is_space(s[i]) {
        lemma_word_end(s, i + 1);
    }
}

/// The words of `s` from index `i` on: the longest runs without white space.
pub open spec fn words_from(s: Seq<char>, i: int) -> Seq<Seq<char>>
    decreases s.len() - i,
{
    if i < 0 || i >= s.len() {
        Seq::empty()
    } else if is_space(s[i]) {
        words_from(s, i + 1)
    } else {
        proof {
            lemma_word_end(s, i);
        }
        seq![s.subrange(i, word_end(s, i))] + words_from(s, word_end(s, i))
    }
}

/// The words of `s`: the longest runs without white space.
pub open spec fn words(s: Seq<char>) -> Seq<Seq<char>> {
    words_from(s, 0)
}

/// The words of a text.
pub fn split_words(v: &[char]) -> (r: Vec<Vec<char>>)
    ensures
        char_views(r@) == words(v@),
{
    let mut out: Vec<Vec<char>> = Vec::new();
    let mut i: usize = 0;
    assert(char_views(out@) + words_from(v@, 0) =~= words(v@));
    while i < v.len()
        invariant
            i <= v@.len(),
            char_views(out@) + words_from(v@, i as int) == words(v@),
        decreases v@.len() - i,
    {
        if is_whitespace(v[i]) {
            i += 1;
        } else {
            let lo: usize = i;
            proof {
                lemma_word_end(v@, lo as int);
            }
            while i < v.len() && !is_whitespace(v[i])
                invariant
                    lo <= i <= v@.len(),
                    word_end(v@, i as int) == word_end(v@, lo as int),
                decreases v@.len() - i,
            {
                i += 1;
            }
            let w = sub_chars(v, lo, i);
            let ghost before = char_views(out@);
            out.push(w);
            proof {
                assert(char_views(out@) =~= before.push(v@.subrange(lo as int, i as int)));
                assert(before + (seq![v@.subrange(lo as int, i as int)] + words_from(v@, i as int))
                    =~= char_views(out@) + words_from(v@, i as int));
            }
        }
    }
    assert(char_views(out@) + words_from(v@, i as int) =~= char_views(out@));
    out
}

/// The texts of a list of character lists.
pub open spec fn char_views(v: Seq<Vec<char>>) -> Seq<Seq<char>> {
    Seq::new(v.len(), |i: int| v[i]@)
}

/// The parts one after the other, with `sep` between each two.
pub open spec fn join(parts: Seq<Seq<char>>, sep: Seq<char>) -> Seq<char>
    decreases parts.len(),
{
    if parts.len() == 0 {
        Seq::empty()
    } else if parts.len() == 1 {
        parts[0]
    } else {
        join(parts.drop_last(), sep) + sep + parts.last()
    }
}

/// The strings one after the other, with `sep` between each two.
pub fn join_strings(parts: &Vec<String>, sep: &str) -> (r: String)
    ensures
        r@ == join(views(parts@), sep@),
{
    let mut out = String::new();
    let mut i: usize = 0;
    while i < parts.len()
        invariant
            i <= parts@.len(),
            out@ == join(views(parts@).take(i as int), sep@),
        decreases parts@.len() - i,
    {
        if i > 0 {
            out.append(sep);
        }
        out.append(parts[i].as_str());
        i += 1;
        assert(views(parts@).take(i as int).drop_last() =~= views(parts@).take(i - 1));
    }
    assert(views(parts@).take(parts@.len() as int) =~= views(parts@));
    out
}

/// The words of `s` with one space between each two.
pub open spec fn squeeze(s: Seq<char>) -> Seq<char> {
    join(words(s), seq![' '])
}

/// The text with every run of white space as one space, and none at the ends.
pub fn squeeze_spaces(v: &[char]) -> (r: Vec<char>)
    ensures
        r@ == squeeze(v@),
{
    let parts = split_words(v);
    let mut out: Vec<char> = Vec::new();
    let mut i: usize = 0;
    while i < parts.len()
        invariant
            i <= parts@.len(),
            out@ == join(char_views(parts@).take(i as int), seq![' ']),
        decreases parts@.len() - i,
    {
        let ghost before = out@;
        if i > 0 {
            out.push(' ');
            assert(out@ =~= before + seq![' ']);
        }
        let part = &parts[i];
        crate::text::push_range(&mut out, part, 0, part.len());
        assert(parts@[i as int]@.subrange(0, parts@[i as int]@.len() as int) =~= parts@[i as int]@);
        i += 1;
        assert(char_views(parts@).take(i as int).drop_last() =~= char_views(parts@).take(i - 1));
    }
    assert(char_views(parts@).take(parts@.len() as int) =~= char_views(parts@));
    out
}

/// The words behind a start do not depend on it.
pub proof fn lemma_words_suffix(a: Seq<char>, y: Seq<char>, i: int)
    requires
        0 <= i <= y.len(),
    ensures
        words_from(a + y, a.len() + i) == words_from(y, i),
        word_end(a + y, a.len() + i) == a.len() + word_end(y, i),
    decreases y.len() - i,
{
    let s = a + y;
    let k = a.len() + i;
    if i < y.len() {
        assert(s[k] == y[i]);
        lemma_words_suffix(a, y, i + 1);
        if !is_space(y[i]) {
            let e = word_end(y, i);
            lemma_word_end(y, i);
            lemma_words_suffix(a, y, e);
            assert(s.subrange(k, a.len() + e) =~= y.subrange(i, e));
        }
    }
}

/// The words of a text from its second character on.
proof fn lemma_words_rest(s: Seq<char>)
    requires
        s.len() > 0,
    ensures
        words_from(s, 1) == words(s.drop_first()),
        word_end(s, 1) == 1 + word_end(s.drop_first(), 0),
{
    assert(s =~= seq![s[0]] + s.drop_first());
    lemma_words_suffix(seq![s[0]], s.drop_first(), 0);
}

/// A first part, and the others behind it.
pub proof fn lemma_join_first(head: Seq<char>, parts: Seq<Seq<char>>, sep: Seq<char>)
    ensures
        join(seq![head] + parts, sep) == if parts.len() == 0 {
            head
        } else {
            head + sep + join(parts, sep)
        },
    decreases parts.len(),
{
    let all = seq![head] + parts;
    if parts.len() == 0 {
        assert(all =~= seq![head]);
    } else if parts.len() == 1 {
        assert(all.drop_last() =~= seq![head]);
        assert(join(all.drop_last(), sep) == head);
    } else {
        assert(all.drop_last() =~= seq![head] + parts.drop_last());
        lemma_join_first(head, parts.drop_last(), sep);
        assert(head + sep + join(parts.drop_last(), sep) + sep + parts.last() =~= head + sep + (join(
            parts.drop_last(),
            sep,
        ) + sep + parts.last()));
    }
}

/// What the first character of a text adds to its words.
pub proof fn lemma_squeeze_first(s: Seq<char>)
    requires
        s.len() > 0,
    ensures
        ({
            let rest = s.drop_first();
            &&& is_space(s[0]) ==> squeeze(s) == squeeze(rest) && words(s) == words(rest)
            &&& !is_space(s[0]) ==> words(s).len() > 0 && words(s)[0].len() > 0
            &&& !is_space(s[0]) && rest.len() > 0 && !is_space(rest[0]) ==> squeeze(s) == seq![s[0]]
                + squeeze(rest) && words(s) == seq![seq![s[0]] + words(rest)[0]]
                + words(rest).drop_first() && words(rest).len() > 0
            &&& !is_space(s[0]) && (rest.len() == 0 || is_space(rest[0])) ==> words(s) == seq![
                seq![s[0]],
            ] + words(rest) && squeeze(s) == if words(rest).len() == 0 {
                seq![s[0]]
            } else {
                seq![s[0]] + seq![' '] + squeeze(rest)
            }
        }),
{
    let rest = s.drop_first();
    let gap = seq![' '];
    lemma_words_rest(s);
    if !is_space(s[0]) {
        lemma_word_end(s, 0);
        assert(word_end(s, 0) == word_end(s, 1));
        let e = word_end(rest, 0);
        lemma_word_end(rest, 0);
        assert(s =~= seq![s[0]] + rest);
        lemma_words_suffix(seq![s[0]], rest, e);
        assert(s.subrange(0, e + 1) =~= seq![s[0]] + rest.subrange(0, e));
        if rest.len() > 0 && !is_space(rest[0]) {
            let tail = words_from(rest, e);
            let w = rest.subrange(0, e);
            assert(words(rest) == seq![w] + tail);
            assert(words(rest).drop_first() =~= tail);
            assert(words(s) =~= seq![seq![s[0]] + w] + tail);
            lemma_join_first(w, tail, gap);
            lemma_join_first(seq![s[0]] + w, tail, gap);
            assert(squeeze(s) =~= seq![s[0]] + squeeze(rest));
        } else {
            assert(e == 0);
            assert(rest.subrange(0, 0) =~= Seq::<char>::empty());
            assert(seq![s[0]] + rest.subrange(0, 0) =~= seq![s[0]]);
            assert(words(s) =~= seq![seq![s[0]]] + words(rest));
            lemma_join_first(seq![s[0]], words(rest), gap);
        }
    }
}

/// A text squeezes to nothing exactly when it has no words.
pub proof fn lemma_squeeze_empty(s: Seq<char>)
    ensures
        (squeeze(s).len() == 0) == (words(s).len() == 0),
    decreases s.len(),
{
    if s.len() > 0 {
        lemma_squeeze_first(s);
        lemma_squeeze_empty(s.drop_first());
    }
}

/// The start of a text squeezes to a start of what the text squeezes to.
pub proof fn lemma_squeeze_prefix(x: Seq<char>, y: Seq<char>)
    ensures
        squeeze(x).len() <= squeeze(x + y).len(),
        squeeze(x + y).take(squeeze(x).len() as int) == squeeze(x),
    decreases x.len(),
{
    let a = squeeze(x);
    let b = squeeze(x + y);
    if x.len() == 0 {
        assert(b.take(0) =~= a);
    } else {
        let rest = x.drop_first();
        assert((x + y).drop_first() =~= rest + y);
        lemma_squeeze_first(x);
        lemma_squeeze_first(x + y);
        lemma_squeeze_prefix(rest, y);
        lemma_squeeze_empty(rest);
        lemma_squeeze_empty(rest + y);
        let c = squeeze(rest);
        let d = squeeze(rest + y);
        if is_space(x[0]) {
        } else if rest.len() > 0 && !is_space(rest[0]) {
            assert((rest + y)[0] == rest[0]);
            assert(b.take(a.len() as int) =~= seq![x[0]] + d.take(c.len() as int));
        } else if rest.len() > 0 {
            assert((rest + y)[0] == rest[0]);
            if c.len() > 0 {
                assert(b.take(a.len() as int) =~= seq![x[0]] + seq![' '] + d.take(c.len() as int));
            } else {
                assert(b.take(1) =~= seq![x[0]]);
            }
        } else {
            assert(words(rest).len() == 0);
            assert(b.take(1) =~= seq![x[0]]);
        }
    }
}

/// The end of a text squeezes to an end of what the text squeezes to.
pub proof fn lemma_squeeze_suffix(x: Seq<char>, y: Seq<char>)
    ensures
        ends(squeeze(x + y), squeeze(y)),
    decreases x.len(),
{
    let b = squeeze(x + y);
    let c = squeeze(y);
    if x.len() == 0 {
        assert(x + y =~= y);
        assert(c.subrange(0, c.len() as int) =~= c);
    } else {
        let rest = x.drop_first();
        assert((x + y).drop_first() =~= rest + y);
        lemma_squeeze_first(x + y);
        lemma_squeeze_suffix(rest, y);
        let d = squeeze(rest + y);
        lemma_squeeze_empty(rest + y);
        assert(b.len() >= d.len());
        assert(b.subrange(b.len() - d.len(), b.len() as int) =~= d);
        assert(b.subrange(b.len() - c.len(), b.len() as int) =~= d.subrange(
            d.len() - c.len(),
            d.len() as int,
        ));
    }
}

/// A piece of a text, squeezed, stands in the squeezed text.
pub proof fn lemma_squeeze_holds(a: Seq<char>, w: Seq<char>, b: Seq<char>)
    ensures
        holds(squeeze(a + w + b), squeeze(w)),
{
    lemma_squeeze_prefix(w, b);
    lemma_squeeze_suffix(a, w + b);
    assert(a + (w + b) =~= a + w + b);
    let whole = squeeze(a + w + b);
    let tail = squeeze(w + b);
    let p = squeeze(w);
    let i = whole.len() - tail.len();
    assert(whole.subrange(i, i + p.len()) =~= tail.take(p.len() as int));
    assert(match_at(whole, i, p));
}

/// Squeezing brings in nothing but spaces.
pub proof fn lemma_squeeze_chars(s: Seq<char>, c: char)
    requires
        c != ' ',
        squeeze(s).contains(c),
    ensures
        s.contains(c),
    decreases s.len(),
{
    if s.len() > 0 {
        let rest = s.drop_first();
        lemma_squeeze_first(s);
        if s[0] != c {
            let q = squeeze(s);
            let i = choose|i: int| 0 <= i < q.len() && q[i] == c;
            let d = squeeze(rest);
            if is_space(s[0]) {
                assert(d[i] == c);
            } else if rest.len() > 0 && !is_space(rest[0]) {
                assert(d[i - 1] == c);
            } else {
                assert(d[i - 2] == c);
            }
            lemma_squeeze_chars(rest, c);
            let k = choose|k: int| 0 <= k < rest.len() && rest[k] == c;
            assert(s[k + 1] == c);
        }
    }
}

/// The words of a squeezed text are the words of the text.
pub proof fn lemma_squeeze_words(s: Seq<char>)
    ensures
        words(squeeze(s)) == words(s),
        squeeze(squeeze(s)) == squeeze(s),
        squeeze(s).len() > 0 ==> !is_space(squeeze(s)[0]),
    decreases s.len(),
{
    if s.len() > 0 {
        let rest = s.drop_first();
        lemma_squeeze_first(s);
        lemma_squeeze_words(rest);
        lemma_squeeze_empty(rest);
        let d = squeeze(rest);
        let q = squeeze(s);
        if !is_space(s[0]) {
            lemma_squeeze_first(q);
            if rest.len() > 0 && !is_space(rest[0]) {
                assert(q.drop_first() =~= d);
                assert(d.len() > 0);
            } else if words(rest).len() == 0 {
                assert(q.drop_first() =~= Seq::<char>::empty());
            } else {
                let after = seq![' '] + d;
                assert(q.drop_first() =~= after);
                lemma_squeeze_first(after);
                assert(after.drop_first() =~= d);
            }
        }
    }
}

proof fn lemma_lower_word_end(s: Seq<char>, i: int)
    requires
        0 <= i <= s.len(),
    ensures
        word_end(lower_all(s), i) == word_end(s, i),
    decreases s.len() - i,
{
    if i < s.len() && !is_space(s[i]) {
        lemma_lower_word_end(s, i + 1);
    }
}

/// The words of a text in lower case are its words in lower case.
pub proof fn lemma_lower_words(s: Seq<char>, i: int)
    requires
        0 <= i <= s.len(),
    ensures
        words_from(lower_all(s), i) == words_from(s, i).map_values(|w: Seq<char>| lower_all(w)),
    decreases s.len() - i,
{
    let low = |w: Seq<char>| lower_all(w);
    let t = lower_all(s);
    if i < s.len() {
        if is_space(s[i]) {
            lemma_lower_words(s, i + 1);
        } else {
            let e = word_end(s, i);
            lemma_word_end(s, i);
            lemma_lower_word_end(s, i);
            lemma_lower_words(s, e);
            assert(t.subrange(i, e) =~= lower_all(s.subrange(i, e)));
            assert(words_from(t, i) =~= words_from(s, i).map_values(low));
        }
    } else {
        assert(words_from(t, i) =~= words_from(s, i).map_values(low));
    }
}

/// White space at the end of a text adds no words.
pub proof fn lemma_words_before_blank(x: Seq<char>, y: Seq<char>)
    requires
        blank(y),
    ensures
        words(x + y) == words(x),
    decreases x.len() + y.len(),
{
    if x.len() > 0 {
        let rest = x.drop_first();
        assert((x + y).drop_first() =~= rest + y);
        lemma_squeeze_first(x);
        lemma_squeeze_first(x + y);
        lemma_words_before_blank(rest, y);
        if rest.len() > 0 {
            assert((rest + y)[0] == rest[0]);
        } else if y.len() > 0 {
            assert((rest + y)[0] == y[0]);
        }
    } else if y.len() > 0 {
        assert(x + y =~= y);
        lemma_squeeze_first(y);
        let rest = y.drop_first();
        assert forall|i: int| 0 <= i < rest.len() implies is_space(#[trigger] rest[i]) by {
            assert(rest[i] == y[i + 1]);
        }
        lemma_words_before_blank(x, rest);
        assert(x + rest =~= rest);
    } else {
        assert(x + y =~= x);
    }
}

/// White space at the start of a text adds no words.
pub proof fn lemma_words_behind_blank(x: Seq<char>, y: Seq<char>)
    requires
        blank(x),
    ensures
        words(x + y) == words(y),
    decreases x.len(),
{
    if x.len() > 0 {
        let rest = x.drop_first();
        assert((x + y).drop_first() =~= rest + y);
        lemma_squeeze_first(x + y);
        assert((x + y)[0] == x[0]);
        assert forall|i: int| 0 <= i < rest.len() implies is_space(#[trigger] rest[i]) by {
            assert(rest[i] == x[i + 1]);
        }
        lemma_words_behind_blank(rest, y);
    } else {
        assert(x + y =~= y);
    }
}

/// Trimming a text keeps its words.
pub proof fn lemma_words_trim(s: Seq<char>)
    ensures
        words(trim_start(s)) == words(s),
        words(trim_end(s)) == words(s),
        words(trim(s)) == words(s),
{
    lemma_trim_start(s);
    let a = trim_start(s);
    let head = s.take(s.len() - a.len());
    assert forall|i: int| 0 <= i < head.len() implies is_space(#[trigger] head[i]) by {
        assert(head[i] == s[i]);
    }
    assert(s =~= head + a);
    lemma_words_behind_blank(head, a);
    lemma_words_trim_end(s);
    lemma_words_trim_end(a);
}

proof fn lemma_words_trim_end(s: Seq<char>)
    ensures
        words(trim_end(s)) == words(s),
{
    lemma_trim_end(s);
    let b = trim_end(s);
    let tail = s.subrange(b.len() as int, s.len() as int);
    assert forall|i: int| 0 <= i < tail.len() implies is_space(#[trigger] tail[i]) by {
        assert(tail[i] == s[b.len() + i]);
    }
    assert(s =~= b + tail);
    lemma_words_before_blank(b, tail);
}

/// Trimming the start of a text stops at what is not white space.
pub proof fn lemma_trim_start_add(a: Seq<char>, b: Seq<char>)
    requires
        !blank(a),
    ensures
        trim_start(a + b) == trim_start(a) + b,
        trim_start(a).len() > 0,
    decreases a.len(),
{
    let i = choose|i: int| 0 <= i < a.len() && !is_space(#[trigger] a[i]);
    assert((a + b)[0] == a[0]);
    if is_space(a[0]) {
        let rest = a.drop_first();
        assert(rest[i - 1] == a[i]);
        assert((a + b).drop_first() =~= rest + b);
        lemma_trim_start_add(rest, b);
    }
}

/// Trimming the end of a text stops at what is not white space.
pub proof fn lemma_trim_end_add(a: Seq<char>, b: Seq<char>)
    requires
        !blank(b),
    ensures
        trim_end(a + b) == a + trim_end(b),
        trim_end(b).len() > 0,
    decreases b.len(),
{
    let i = choose|i: int| 0 <= i < b.len() && !is_space(#[trigger] b[i]);
    assert((a + b).last() == b.last());
    if is_space(b.last()) {
        let rest = b.drop_last();
        assert(rest[i] == b[i]);
        assert((a + b).drop_last() =~= a + rest);
        lemma_trim_end_add(a, rest);
    }
}

/// A search from the end finds the last place.
pub proof fn lemma_rfind(s: Seq<char>, i: int, p: Seq<char>)
    ensures
        match rfind_from(s, i, p) {
            Some(k) => 0 <= k <= i && match_at(s, k, p) && forall|j: int|
                k < j <= i ==> !#[trigger] match_at(s, j, p),
            None => forall|j: int| j <= i ==> !#[trigger] match_at(s, j, p),
        },
    decreases i + 1,
{
    if i >= 0 && !match_at(s, i, p) {
        lemma_rfind(s, i - 1, p);
    }
}

// ------------------------------------------------------------- replacing --

/// `s` from index `i` on, with every `from` (taken left to right) as `to`.
pub open spec fn replace_from(s: Seq<char>, i: int, from: Seq<char>, to: Seq<char>) -> Seq<char>
    decreases s.len() - i,
{
    if i < 0 || i >= s.len() {
        Seq::empty()
    } else if from.len() > 0 && match_at(s, i, from) {
        to + replace_from(s, i + from.len(), from, to)
    } else {
        seq![s[i]] + replace_from(s, i + 1, from, to)
    }
}

/// `s` with every `from` (taken left to right, without overlap) as `to`.
pub open spec fn replace(s: Seq<char>, from: Seq<char>, to: Seq<char>) -> Seq<char> {
    replace_from(s, 0, from, to)
}

/// The text with every `from` as `to`.
pub fn replace_all(v: &[char], from: &str, to: &str) -> (r: Vec<char>)
    ensures
        r@ == replace(v@, from@, to@),
{
    let n: usize = from.unicode_len();
    let mut out: Vec<char> = Vec::new();
    let mut i: usize = 0;
    assert(out@ + replace_from(v@, 0, from@, to@) =~= replace(v@, from@, to@));
    while i < v.len()
        invariant
            i <= v@.len(),
            n == from@.len(),
            out@ + replace_from(v@, i as int, from@, to@) == replace(v@, from@, to@),
        decreases v@.len() - i,
    {
        let ghost before = out@;
        if n > 0 && matches_at(v, i, from) {
            crate::text::push_str(&mut out, to);
            i += n;
            assert(before + (to@ + replace_from(v@, i as int, from@, to@)) =~= out@ + replace_from(
                v@,
                i as int,
                from@,
                to@,
            ));
        } else {
            out.push(v[i]);
            i += 1;
            assert(before + (seq![v@[i - 1]] + replace_from(v@, i as int, from@, to@)) =~= out@
                + replace_from(v@, i as int, from@, to@));
        }
    }
    assert(out@ + replace_from(v@, i as int, from@, to@) =~= out@);
    out
}

/// Replacing what is not there changes nothing.
pub proof fn lemma_replace_absent(s: Seq<char>, i: int, from: Seq<char>, to: Seq<char>)
    requires
        0 <= i <= s.len(),
        !holds(s, from),
    ensures
        replace_from(s, i, from, to) == s.subrange(i, s.len() as int),
    decreases s.len() - i,
{
    if i < s.len() {
        assert(!match_at(s, i, from));
        lemma_replace_absent(s, i + 1, from, to);
        assert(seq![s[i]] + s.subrange(i + 1, s.len() as int) =~= s.subrange(i, s.len() as int));
    } else {
        assert(replace_from(s, i, from, to) =~= s.subrange(i, s.len() as int));
    }
}

/// Where a pattern starts nowhere, its replacement copies.
pub proof fn lemma_replace_run(t: Seq<char>, i: int, e: int, p: Seq<char>, q: Seq<char>)
    requires
        0 <= i <= e <= t.len(),
        forall|j: int| i <= j < e ==> !#[trigger] match_at(t, j, p),
    ensures
        replace_from(t, i, p, q) == t.subrange(i, e) + replace_from(t, e, p, q),
    decreases e - i,
{
    if i < e {
        lemma_replace_run(t, i + 1, e, p, q);
        assert(!match_at(t, i, p));
        assert(seq![t[i]] + (t.subrange(i + 1, e) + replace_from(t, e, p, q)) =~= t.subrange(i, e)
            + replace_from(t, e, p, q));
    } else {
        assert(t.subrange(i, e) + replace_from(t, e, p, q) =~= replace_from(t, e, p, q));
    }
}

/// A place that no match stands over parts a replacement in two.
pub proof fn lemma_replace_parts(t: Seq<char>, i: int, e: int, p: Seq<char>, q: Seq<char>) -> (head:
    Seq<char>)
    requires
        0 <= i <= e <= t.len(),
        forall|j: int| 0 <= j < e && #[trigger] match_at(t, j, p) ==> j + p.len() <= e,
    ensures
        replace_from(t, i, p, q) == head + replace_from(t, e, p, q),
    decreases e - i,
{
    if i < e {
        if p.len() > 0 && match_at(t, i, p) {
            let rest = lemma_replace_parts(t, i + p.len(), e, p, q);
            assert(q + (rest + replace_from(t, e, p, q)) =~= (q + rest) + replace_from(t, e, p, q));
            q + rest
        } else {
            let rest = lemma_replace_parts(t, i + 1, e, p, q);
            assert(seq![t[i]] + (rest + replace_from(t, e, p, q)) =~= (seq![t[i]] + rest)
                + replace_from(t, e, p, q));
            seq![t[i]] + rest
        }
    } else {
        assert(Seq::<char>::empty() + replace_from(t, e, p, q) =~= replace_from(t, e, p, q));
        Seq::empty()
    }
}

// --------------------------------------------------------------- splitting --

/// The parts of `s` from index `i` on that `c` parts; at least one.
pub open spec fn split_from(s: Seq<char>, i: int, c: char) -> Seq<Seq<char>>
    decreases s.len() - i,
    when 0 <= i <= s.len()
    via split_from_moves
{
    match index_from(s, i, c) {
        None => seq![s.subrange(i, s.len() as int)],
        Some(k) => seq![s.subrange(i, k)] + split_from(s, k + 1, c),
    }
}

#[via_fn]
proof fn split_from_moves(s: Seq<char>, i: int, c: char) {
    lemma_index_within(s, i, c);
}

pub proof fn lemma_index_within(s: Seq<char>, i: int, c: char)
    requires
        0 <= i,
    ensures
        index_from(s, i, c) matches Some(k) ==> i <= k < s.len() && s[k] == c,
    decreases s.len() - i,
{
    if i < s.len() && s[i] != c {
        lemma_index_within(s, i + 1, c);
    }
}

/// The parts of a text that `c` parts.
pub fn split_chars(v: &[char], c: char) -> (r: Vec<Vec<char>>)
    ensures
        char_views(r@) == split_from(v@, 0, c),
{
    let mut out: Vec<Vec<char>> = Vec::new();
    let mut i: usize = 0;
    let ghost all = split_from(v@, 0, c);
    assert(char_views(out@) + split_from(v@, 0, c) =~= all);
    loop
        invariant
            i <= v@.len(),
            all == split_from(v@, 0, c),
            char_views(out@) + split_from(v@, i as int, c) == all,
        decreases v@.len() - i,
    {
        let ghost before = out@;
        match index_of(v, i, c) {
            None => {
                let part = crate::text::sub_chars(v, i, v.len());
                out.push(part);
                assert(char_views(out@) =~= char_views(before) + seq![part@]);
                return out;
            },
            Some(k) => {
                let part = crate::text::sub_chars(v, i, k);
                out.push(part);
                proof {
                    lemma_index_within(v@, i as int, c);
                    assert(char_views(before) + (seq![part@] + split_from(v@, k + 1, c))
                        =~= char_views(out@) + split_from(v@, k + 1, c));
                }
                i = k + 1;
            },
        }
    }
}

// -------------------------------------------------------------------- laws --

/// Trimming takes white space off both ends and nothing else: what it leaves starts and ends
/// with something to see, and what it took is blank.
pub proof fn law_trimming_takes_only_blanks(s: Seq<char>) -> (r: (Seq<char>, Seq<char>))
    ensures
        s == r.0 + trim(s) + r.1,
        forall|i: int| 0 <= i < r.0.len() ==> is_space(#[trigger] r.0[i]),
        forall|i: int| 0 <= i < r.1.len() ==> is_space(#[trigger] r.1[i]),
        trim(s).len() > 0 ==> !is_space(trim(s)[0]) && !is_space(trim(s).last()),
{
    lemma_trim_start(s);
    let t = trim_start(s);
    lemma_trim_end(t);
    let head = s.subrange(0, s.len() - t.len());
    let tail = t.subrange(trim(s).len() as int, t.len() as int);
    assert(s =~= head + t);
    assert(t =~= trim(s) + tail);
    assert(s =~= head + trim(s) + tail);
    assert forall|i: int| 0 <= i < head.len() implies is_space(#[trigger] head[i]) by {
        assert(head[i] == s[i]);
    }
    assert forall|i: int| 0 <= i < tail.len() implies is_space(#[trigger] tail[i]) by {
        assert(tail[i] == t[trim(s).len() + i]);
    }
    (head, tail)
}

proof fn lemma_words_inside(s: Seq<char>, i: int)
    requires
        0 <= i <= s.len(),
    ensures
        forall|k: int| i <= k < word_end(s, i) ==> !is_space(#[trigger] s[k]),
        word_end(s, i) < s.len() ==> is_space(s[word_end(s, i)]),
    decreases s.len() - i,
{
    if i < s.len() && !is_space(s[i]) {
        lemma_words_inside(s, i + 1);
    }
}

/// What is seen of a text.
pub open spec fn seen(s: Seq<char>) -> Seq<char>
    decreases s.len(),
{
    if s.len() == 0 {
        s
    } else if is_space(s[0]) {
        seen(s.drop_first())
    } else {
        seq![s[0]] + seen(s.drop_first())
    }
}

proof fn lemma_seen_run(s: Seq<char>, i: int, e: int)
    requires
        0 <= i <= e <= s.len(),
        forall|k: int| i <= k < e ==> !is_space(#[trigger] s[k]),
    ensures
        seen(s.skip(i)) == s.subrange(i, e) + seen(s.skip(e)),
    decreases e - i,
{
    if i < e {
        lemma_seen_run(s, i + 1, e);
        assert(s.skip(i).drop_first() =~= s.skip(i + 1));
        assert(s.skip(i)[0] == s[i]);
        assert(seq![s[i]] + (s.subrange(i + 1, e) + seen(s.skip(e))) =~= s.subrange(i, e) + seen(
            s.skip(e),
        ));
    } else {
        assert(s.subrange(i, e) + seen(s.skip(e)) =~= seen(s.skip(e)));
    }
}

proof fn lemma_words_from(s: Seq<char>, i: int)
    requires
        0 <= i <= s.len(),
    ensures
        words_from(s, i).flatten() == seen(s.skip(i)),
        forall|k: int|
            0 <= k < words_from(s, i).len() ==> (#[trigger] words_from(s, i)[k]).len() > 0,
        forall|k: int, j: int|
            0 <= k < words_from(s, i).len() && 0 <= j < words_from(s, i)[k].len() ==> !is_space(
                #[trigger] words_from(s, i)[k][j],
            ),
    decreases s.len() - i,
{
    if i < s.len() {
        if is_space(s[i]) {
            lemma_words_from(s, i + 1);
            assert(s.skip(i).drop_first() =~= s.skip(i + 1));
            assert(s.skip(i)[0] == s[i]);
        } else {
            let e = word_end(s, i);
            lemma_word_end(s, i);
            lemma_words_inside(s, i);
            lemma_words_from(s, e);
            lemma_seen_run(s, i, e);
            let w = s.subrange(i, e);
            let rest = words_from(s, e);
            assert(words_from(s, i) =~= seq![w] + rest);
            assert((seq![w] + rest).drop_first() =~= rest);
            assert((seq![w] + rest).flatten() == w + rest.flatten());
            assert forall|k: int| 0 <= k < words_from(s, i).len() implies (
            #[trigger] words_from(s, i)[k]).len() > 0 by {
                if k > 0 {
                    assert(words_from(s, i)[k] == rest[k - 1]);
                }
            }
            assert forall|k: int, j: int|
                0 <= k < words_from(s, i).len() && 0 <= j < words_from(s, i)[k].len() implies
                    !is_space(#[trigger] words_from(s, i)[k][j]) by {
                if k > 0 {
                    assert(words_from(s, i)[k] == rest[k - 1]);
                    assert(!is_space(rest[k - 1][j]));
                } else {
                    assert(words_from(s, i)[k][j] == s[i + j]);
                }
            }
        }
    } else {
        assert(s.skip(i) =~= Seq::<char>::empty());
        assert(words_from(s, i) =~= Seq::<Seq<char>>::empty());
    }
}

/// The words of a text are what is seen of it: none is empty, none holds white space, and
/// one after the other they are the text without its white space.
pub proof fn law_words_lose_only_white_space(s: Seq<char>)
    ensures
        words(s).flatten() == seen(s),
        forall|k: int| 0 <= k < words(s).len() ==> (#[trigger] words(s)[k]).len() > 0,
        forall|k: int, j: int|
            0 <= k < words(s).len() && 0 <= j < words(s)[k].len() ==> !is_space(
                #[trigger] words(s)[k][j],
            ),
{
    lemma_words_from(s, 0);
    assert(s.skip(0) =~= s);
}

proof fn lemma_join_front(first: Seq<char>, rest: Seq<Seq<char>>, sep: Seq<char>)
    requires
        rest.len() > 0,
    ensures
        join(seq![first] + rest, sep) == first + sep + join(rest, sep),
    decreases rest.len(),
{
    let all = seq![first] + rest;
    if rest.len() == 1 {
        assert(all.drop_last() =~= seq![first]);
        assert(join(seq![first], sep) == first);
        assert(join(rest, sep) == rest[0]);
        assert(all.last() == rest[0]);
    } else {
        lemma_join_front(first, rest.drop_last(), sep);
        assert(all.drop_last() =~= seq![first] + rest.drop_last());
        assert(all.last() == rest.last());
        assert(first + sep + join(rest.drop_last(), sep) + sep + rest.last() =~= first + sep + (
        join(rest.drop_last(), sep) + sep + rest.last()));
    }
}

proof fn lemma_index_first(s: Seq<char>, i: int, c: char)
    requires
        0 <= i <= s.len(),
    ensures
        forall|k: int|
            i <= k < (match index_from(s, i, c) {
                Some(e) => e,
                None => s.len() as int,
            }) ==> #[trigger] s[k] != c,
    decreases s.len() - i,
{
    if i < s.len() && s[i] != c {
        lemma_index_first(s, i + 1, c);
    }
}

/// The parts of a text hold no separator, and with one between each two they are the text
/// again.
pub proof fn law_parts_join_to_the_text(s: Seq<char>, i: int, c: char)
    requires
        0 <= i <= s.len(),
    ensures
        split_from(s, i, c).len() > 0,
        join(split_from(s, i, c), seq![c]) == s.skip(i),
        forall|k: int|
            0 <= k < split_from(s, i, c).len() ==> !(#[trigger] split_from(s, i, c)[k]).contains(c),
    decreases s.len() - i,
{
    lemma_index_within(s, i, c);
    lemma_index_first(s, i, c);
    match index_from(s, i, c) {
        None => {
            assert(s.subrange(i, s.len() as int) =~= s.skip(i));
        },
        Some(k) => {
            law_parts_join_to_the_text(s, k + 1, c);
            lemma_join_front(s.subrange(i, k), split_from(s, k + 1, c), seq![c]);
            assert(s.subrange(i, k) + seq![c] + s.skip(k + 1) =~= s.skip(i));
            let rest = split_from(s, k + 1, c);
            assert forall|j: int| 0 <= j < split_from(s, i, c).len() implies !(
            #[trigger] split_from(s, i, c)[j]).contains(c) by {
                if j > 0 {
                    assert(split_from(s, i, c)[j] == rest[j - 1]);
                }
            }
        },
    }
}

} // verus!
