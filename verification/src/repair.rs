//! Getting JSON out of what a model wrote: fences, preambles, and documents that
//! were cut short.
use vstd::prelude::*;
use vstd::string::*;
use crate::scan::{rfind, rfind_from, starts, starts_with, trim, trim_chars};
use crate::text::{from_chars, from_range, is_space, is_whitespace, sub_chars, to_chars};

verus! {

// ------------------------------------------------------------------ fences --

/// What stands behind `p`, or the whole of `s` where it does not start with `p`.
pub open spec fn behind(s: Seq<char>, p: Seq<char>) -> Seq<char> {
    if starts(s, p) {
        s.subrange(p.len() as int, s.len() as int)
    } else {
        s
    }
}

/// A text without white space around it and without a code fence around that.
pub open spec fn unfenced(s: Seq<char>) -> Seq<char> {
    let t = trim(s);
    if starts(t, "```"@) {
        let rest = behind(behind(t, "```"@), "json"@);
        match rfind_from(rest, rest.len() as int, "```"@) {
            Some(end) => trim(rest.take(end)),
            None => t,
        }
    } else {
        t
    }
}

/// A reply without the code fence that a model may put around it.
pub fn strip_code_fence(s: &str) -> (r: String)
    ensures
        r@ == unfenced(s@),
{
    let v = to_chars(s);
    let t = trim_chars(&v);
    if starts_with(&t, "```") {
        proof {
            reveal_strlit("```");
            reveal_strlit("json");
        }
        let fenced = sub_chars(&t, 3, t.len());
        let rest = if starts_with(&fenced, "json") {
            sub_chars(&fenced, 4, fenced.len())
        } else {
            fenced
        };
        assert(rest@ =~= behind(behind(t@, "```"@), "json"@));
        match rfind(&rest, "```") {
            Some(end) => {
                let inner = sub_chars(&rest, 0, end);
                assert(inner@ =~= rest@.take(end as int));
                let clean = trim_chars(&inner);
                return from_chars(&clean);
            },
            None => {},
        }
    }
    from_chars(&t)
}

// ----------------------------------------------------------- first object --

/// Where the scan for an object stands: inside a string, behind a backslash in
/// one, how many braces are open, and where the first of them stood.
pub struct ObjectScan {
    pub in_str: bool,
    pub escape: bool,
    pub depth: usize,
    pub start: usize,
}

/// The scan behind the character `c` at index `i`. A closing brace that closes
/// nothing is passed over.
pub open spec fn object_step(st: ObjectScan, i: int, c: char) -> ObjectScan {
    if st.in_str {
        if st.escape {
            ObjectScan { escape: false, ..st }
        } else if c == '\\' {
            ObjectScan { escape: true, ..st }
        } else if c == '"' {
            ObjectScan { in_str: false, ..st }
        } else {
            st
        }
    } else if c == '"' {
        ObjectScan { in_str: true, ..st }
    } else if c == '{' {
        ObjectScan {
            depth: (st.depth + 1) as usize,
            start: if st.depth == 0 {
                i as usize
            } else {
                st.start
            },
            ..st
        }
    } else if c == '}' && st.depth > 0 {
        ObjectScan { depth: (st.depth - 1) as usize, ..st }
    } else {
        st
    }
}

/// The bounds of the first balanced object at or after index `i`.
pub open spec fn object_from(s: Seq<char>, i: int, st: ObjectScan) -> Option<(int, int)>
    decreases s.len() - i,
{
    if i < 0 || i >= s.len() {
        None
    } else {
        let next = object_step(st, i, s[i]);
        if st.depth == 1 && next.depth == 0 {
            Some((st.start as int, i + 1))
        } else {
            object_from(s, i + 1, next)
        }
    }
}

pub open spec fn fresh_scan() -> ObjectScan {
    ObjectScan { in_str: false, escape: false, depth: 0, start: 0 }
}

/// The first balanced `{...}` block, if there is one.
pub open spec fn first_object(s: Seq<char>) -> Option<Seq<char>> {
    match object_from(s, 0, fresh_scan()) {
        Some((a, b)) => Some(s.subrange(a, b)),
        None => None,
    }
}

/// Extract the first balanced `{...}` block, honouring string literals so that a
/// brace inside a string does not count.
pub fn extract_first_json_object(s: &str) -> (r: Option<String>)
    ensures
        match r {
            Some(t) => first_object(s@) == Some(t@),
            None => first_object(s@) is None,
        },
{
    let v = to_chars(s);
    let n: usize = v.len();
    let mut st = ObjectScan { in_str: false, escape: false, depth: 0, start: 0 };
    let mut i: usize = 0;
    while i < n
        invariant
            n == v@.len(),
            v@ == s@,
            i <= n,
            st.depth <= i,
            st.start <= i,
            object_from(v@, 0, fresh_scan()) == object_from(v@, i as int, st),
        decreases n - i,
    {
        let c = v[i];
        let ghost before = st;
        if st.in_str {
            if st.escape {
                st.escape = false;
            } else if c == '\\' {
                st.escape = true;
            } else if c == '"' {
                st.in_str = false;
            }
        } else if c == '"' {
            st.in_str = true;
        } else if c == '{' {
            if st.depth == 0 {
                st.start = i;
            }
            st.depth = st.depth + 1;
        } else if c == '}' && st.depth > 0 {
            st.depth = st.depth - 1;
            if st.depth == 0 {
                assert(st == object_step(before, i as int, c));
                return Some(from_range(&v, st.start, i + 1));
            }
        }
        assert(st == object_step(before, i as int, c));
        i += 1;
    }
    None
}

/// A scan with open braces knows where the first of them stands.
proof fn lemma_object_from(s: Seq<char>, i: int, st: ObjectScan)
    requires
        0 <= i <= s.len() <= usize::MAX,
        st.depth <= i,
        st.depth > 0 ==> st.start < i && s[st.start as int] == '{',
    ensures
        match object_from(s, i, st) {
            Some((a, b)) => 0 <= a < b <= s.len() && s[a] == '{' && s[b - 1] == '}',
            None => true,
        },
    decreases s.len() - i,
{
    if i < s.len() {
        lemma_object_from(s, i + 1, object_step(st, i, s[i]));
    }
}

/// What is extracted starts with an opening brace, ends with a closing one, and
/// stands in the text as it is.
pub proof fn law_extracted_object_is_a_block(s: Seq<char>)
    requires
        s.len() <= usize::MAX,
    ensures
        first_object(s) matches Some(t) ==> {
            &&& t.len() >= 2
            &&& t[0] == '{'
            &&& t.last() == '}'
            &&& exists|a: int| crate::scan::match_at(s, a, t)
        },
{
    lemma_object_from(s, 0, fresh_scan());
    match object_from(s, 0, fresh_scan()) {
        Some((a, b)) => {
            let t = s.subrange(a, b);
            assert(s.subrange(a, a + t.len()) =~= t);
            assert(crate::scan::match_at(s, a, t));
        },
        None => {},
    }
}

// ---------------------------------------------------------------- salvage --

/// Where the scan of a document stands: inside a string, behind a backslash in
/// one, and which containers are open, outermost first.
#[verifier::ext_equal]
pub struct Nesting {
    pub in_str: bool,
    pub escape: bool,
    pub open: Seq<char>,
}

/// The scan behind one more character.
pub open spec fn nest(st: Nesting, c: char) -> Nesting {
    if st.escape {
        Nesting { escape: false, ..st }
    } else if c == '\\' && st.in_str {
        Nesting { escape: true, ..st }
    } else if c == '"' {
        Nesting { in_str: !st.in_str, ..st }
    } else if (c == '{' || c == '[') && !st.in_str {
        Nesting { open: st.open.push(c), ..st }
    } else if (c == '}' || c == ']') && !st.in_str {
        Nesting {
            open: if st.open.len() > 0 {
                st.open.drop_last()
            } else {
                st.open
            },
            ..st
        }
    } else {
        st
    }
}

/// The scan of a document.
pub open spec fn nested(s: Seq<char>) -> Nesting
    decreases s.len(),
{
    if s.len() == 0 {
        Nesting { in_str: false, escape: false, open: Seq::empty() }
    } else {
        nest(nested(s.drop_last()), s.last())
    }
}

/// The document closes an object at its end that stands inside something still
/// open.
pub open spec fn closes_inner(s: Seq<char>) -> bool {
    &&& s.len() > 0
    &&& s.last() == '}'
    &&& !nested(s.drop_last()).in_str
    &&& !nested(s.drop_last()).escape
    &&& nested(s).open.len() > 0
}

/// The longest start of the document that closes an inner object.
pub open spec fn safe_cut(s: Seq<char>) -> Option<int>
    decreases s.len(),
{
    if s.len() == 0 {
        None
    } else if closes_inner(s) {
        Some(s.len() as int)
    } else {
        safe_cut(s.drop_last())
    }
}

pub open spec fn closer(c: char) -> char {
    if c == '{' {
        '}'
    } else {
        ']'
    }
}

/// What closes the open containers, innermost first.
pub open spec fn closers(open: Seq<char>) -> Seq<char>
    decreases open.len(),
{
    if open.len() == 0 {
        Seq::empty()
    } else {
        seq![closer(open.last())] + closers(open.drop_last())
    }
}

/// Nothing is open at the end of the document: it was not cut short.
pub open spec fn whole(s: Seq<char>) -> bool {
    nested(s).open.len() == 0 && !nested(s).in_str
}

/// A truncated document, cut behind its last complete inner object and closed.
pub open spec fn salvaged(s: Seq<char>) -> Option<Seq<char>> {
    match safe_cut(s) {
        None => None,
        Some(cut) => if cut >= s.len() || whole(s) {
            None
        } else {
            Some(s.take(cut) + closers(nested(s.take(cut)).open))
        },
    }
}

/// Repair a truncated JSON document by cutting at the last completely closed inner
/// object and closing whatever containers are still open. Nothing when the
/// document is not cut short or holds no closed inner object.
pub fn salvage_truncated_json(s: &str) -> (r: Option<String>)
    ensures
        match r {
            Some(t) => salvaged(s@) == Some(t@),
            None => salvaged(s@) is None,
        },
{
    let v = to_chars(s);
    let n: usize = v.len();
    let mut in_str: bool = false;
    let mut escape: bool = false;
    let mut stack: Vec<char> = Vec::new();
    let mut cut: usize = 0;
    let mut open: Vec<char> = Vec::new();
    let mut i: usize = 0;
    assert(v@.take(0) =~= Seq::<char>::empty());
    assert(stack@ =~= Seq::<char>::empty());
    while i < n
        invariant
            n == v@.len(),
            v@ == s@,
            i <= n,
            nested(v@.take(i as int)) == (Nesting { in_str, escape, open: stack@ }),
            cut <= i,
            cut == 0 ==> safe_cut(v@.take(i as int)) is None,
            cut > 0 ==> safe_cut(v@.take(i as int)) == Some(cut as int),
            cut > 0 ==> open@ == nested(v@.take(cut as int)).open,
        decreases n - i,
    {
        let c = v[i];
        let ghost part = v@.take(i + 1);
        let ghost st = nested(v@.take(i as int));
        assert(part.drop_last() =~= v@.take(i as int));
        assert(part.last() == c);
        let ghost depth = stack@;
        if escape {
            escape = false;
        } else if c == '\\' && in_str {
            escape = true;
        } else if c == '"' {
            in_str = !in_str;
        } else if (c == '{' || c == '[') && !in_str {
            stack.push(c);
        } else if (c == '}' || c == ']') && !in_str {
            let _ = stack.pop();
            assert(stack@ =~= nest(st, c).open);
            if c == '}' && stack.len() > 0 {
                cut = i + 1;
                open = sub_chars(&stack, 0, stack.len());
                assert(open@ =~= stack@);
                assert(closes_inner(part));
            }
        }
        assert(nested(part) == (Nesting { in_str, escape, open: stack@ }));
        i += 1;
    }
    assert(v@.take(i as int) =~= v@);
    if cut == 0 || cut >= n || (stack.len() == 0 && !in_str) {
        return None;
    }
    let mut out = sub_chars(&v, 0, cut);
    assert(out@ =~= v@.take(cut as int));
    let ghost start = out@;
    let mut k: usize = open.len();
    assert(open@.take(k as int) =~= open@);
    while k > 0
        invariant
            k <= open@.len(),
            out@ + closers(open@.take(k as int)) == start + closers(open@),
        decreases k,
    {
        let ghost part = open@.take(k as int);
        assert(part.drop_last() =~= open@.take(k - 1));
        let ghost before = out@;
        let c = if open[k - 1] == '{' {
            '}'
        } else {
            ']'
        };
        out.push(c);
        assert(before + (seq![closer(part.last())] + closers(part.drop_last())) =~= out@ + closers(
            open@.take(k - 1),
        ));
        k -= 1;
    }
    assert(out@ + closers(open@.take(0)) =~= out@);
    Some(from_chars(&out))
}

/// Closing the open containers of a document outside a string leaves none open.
proof fn lemma_closed(a: Seq<char>, open: Seq<char>)
    requires
        nested(a) == (Nesting { in_str: false, escape: false, open }),
    ensures
        nested(a + closers(open)) == (Nesting {
            in_str: false,
            escape: false,
            open: Seq::empty(),
        }),
    decreases open.len(),
{
    if open.len() == 0 {
        assert(a + closers(open) =~= a);
        assert(open =~= Seq::<char>::empty());
    } else {
        let b = a.push(closer(open.last()));
        assert(b.drop_last() =~= a);
        lemma_closed(b, open.drop_last());
        assert(a + closers(open) =~= b + closers(open.drop_last()));
    }
}

proof fn lemma_safe_cut(s: Seq<char>)
    ensures
        safe_cut(s) matches Some(cut) ==> 0 < cut <= s.len() && closes_inner(s.take(cut)),
    decreases s.len(),
{
    if s.len() > 0 {
        if closes_inner(s) {
            assert(s.take(s.len() as int) =~= s);
        } else {
            lemma_safe_cut(s.drop_last());
            match safe_cut(s.drop_last()) {
                Some(cut) => {
                    assert(s.drop_last().take(cut) =~= s.take(cut));
                },
                None => {},
            }
        }
    }
}

/// `t` keeps a start of `s` that ends in a closing brace.
pub open spec fn keeps_start(s: Seq<char>, t: Seq<char>) -> bool {
    exists|cut: int|
        0 < cut < s.len() && cut <= t.len() && #[trigger] t.take(cut) == s.take(cut) && s[cut - 1]
            == '}'
}

/// A salvaged document keeps a start of the broken one up to a closed object, and
/// leaves no string and no container open.
pub proof fn law_salvage_closes_everything(s: Seq<char>)
    ensures
        salvaged(s) matches Some(t) ==> {
            &&& nested(t) == (Nesting { in_str: false, escape: false, open: Seq::empty() })
            &&& keeps_start(s, t)
        },
{
    lemma_safe_cut(s);
    match safe_cut(s) {
        Some(cut) => if cut < s.len() && !whole(s) {
            let head = s.take(cut);
            lemma_closed(head, nested(head).open);
            let t = head + closers(nested(head).open);
            assert(salvaged(s) == Some(t));
            assert(head.last() == s[cut - 1]);
            assert(0 < cut < s.len() && cut <= t.len() && s[cut - 1] == '}');
            assert(t.take(cut) =~= s.take(cut));
            assert(keeps_start(s, t));
        },
        None => {},
    }
}

/// The cut lies behind every place that closes an inner object.
proof fn lemma_cut_is_last(s: Seq<char>, k: int)
    requires
        0 <= k <= s.len(),
        closes_inner(s.take(k)),
    ensures
        safe_cut(s) matches Some(cut) && k <= cut,
        safe_cut(s) == Some(s.len() as int) ==> closes_inner(s),
    decreases s.len(),
{
    if closes_inner(s) {
    } else if k == s.len() {
        assert(s.take(k) =~= s);
    } else {
        assert(s.drop_last().take(k) =~= s.take(k));
        lemma_cut_is_last(s.drop_last(), k);
        lemma_safe_cut(s.drop_last());
    }
}

/// Every inner object that a cut-off document finished is kept by its salvage. Of a
/// document that finished one there is a salvage unless it ends there or is whole.
pub proof fn law_salvage_keeps_every_finished_object(s: Seq<char>, k: int)
    requires
        0 <= k <= s.len(),
        closes_inner(s.take(k)),
    ensures
        closes_inner(s) || whole(s) <==> salvaged(s) is None,
        salvaged(s) matches Some(t) ==> k <= t.len() && t.take(k) == s.take(k),
{
    lemma_cut_is_last(s, k);
    lemma_safe_cut(s);
    match salvaged(s) {
        Some(t) => {
            assert(t.take(k) =~= s.take(k));
        },
        None => {},
    }
}

// ------------------------------------------------------------------ stalls --

/// Consecutive white space that marks a stalled output. Legitimate JSON never
/// holds this much in a row.
pub const STALL_WHITESPACE: usize = 256;

/// Characters that are not white space which a stalled output may hold and still
/// count as having written nothing.
pub const STALL_OPENING: usize = 16;

/// White space at the end of a text.
pub open spec fn trailing_spaces(s: Seq<char>) -> nat
    decreases s.len(),
{
    if s.len() > 0 && is_space(s.last()) {
        1 + trailing_spaces(s.drop_last())
    } else {
        0
    }
}

/// The white space at the end after `piece` came behind a text that ended in `run`
/// of it.
pub open spec fn run_after(run: int, piece: Seq<char>) -> int {
    if trailing_spaces(piece) == piece.len() {
        run + piece.len()
    } else {
        trailing_spaces(piece) as int
    }
}

/// The white-space run after appending `piece`: extended by trailing white space,
/// reset by any other character inside it.
pub fn whitespace_run(run: usize, piece: &str) -> (r: usize)
    requires
        run + piece@.len() <= usize::MAX,
    ensures
        r == run_after(run as int, piece@),
{
    let v = to_chars(piece);
    let n: usize = v.len();
    let mut k: usize = n;
    assert(v@.take(n as int) =~= v@);
    while k > 0 && is_whitespace(v[k - 1])
        invariant
            k <= n == v@.len(),
            trailing_spaces(v@) == (n - k) + trailing_spaces(v@.take(k as int)),
        decreases k,
    {
        assert(v@.take(k as int).drop_last() =~= v@.take(k - 1));
        k -= 1;
    }
    if k == 0 {
        assert(v@.take(0).len() == 0);
        run + n
    } else {
        assert(trailing_spaces(v@.take(k as int)) == 0);
        n - k
    }
}

/// Runs over the pieces of a text add up to the run of the whole.
pub proof fn law_runs_carry_across_pieces(a: Seq<char>, b: Seq<char>)
    ensures
        run_after(trailing_spaces(a) as int, b) == trailing_spaces(a + b),
    decreases b.len(),
{
    if b.len() == 0 {
        assert(a + b =~= a);
    } else {
        assert((a + b).drop_last() =~= a + b.drop_last());
        assert((a + b).last() == b.last());
        if is_space(b.last()) {
            law_runs_carry_across_pieces(a, b.drop_last());
        }
    }
}

/// How many characters of a text are not white space.
pub open spec fn solid_chars(s: Seq<char>) -> nat
    decreases s.len(),
{
    if s.len() == 0 {
        0
    } else {
        solid_chars(s.drop_last()) + (if is_space(s.last()) {
            0nat
        } else {
            1nat
        })
    }
}

/// Did a stalled output get past its opening structure? Only then is it worth
/// salvaging.
pub fn stall_progressed(kept: &str) -> (r: bool)
    ensures
        r == (solid_chars(kept@) > STALL_OPENING),
{
    let v = to_chars(kept);
    let mut solid: usize = 0;
    let mut i: usize = 0;
    assert(v@.take(0) =~= Seq::<char>::empty());
    while i < v.len()
        invariant
            i <= v@.len(),
            solid <= i,
            solid == solid_chars(v@.take(i as int)),
        decreases v@.len() - i,
    {
        assert(v@.take(i + 1).drop_last() =~= v@.take(i as int));
        assert(v@.take(i + 1).last() == v@[i as int]);
        if !is_whitespace(v[i]) {
            solid += 1;
        }
        i += 1;
    }
    assert(v@.take(i as int) =~= v@);
    solid > STALL_OPENING
}

// --------------------------------------------------------------- sse lines --

/// A line without the line breaks at its end.
pub open spec fn chomped(s: Seq<char>) -> Seq<char>
    decreases s.len(),
{
    if s.len() > 0 && (s.last() == '\r' || s.last() == '\n') {
        chomped(s.drop_last())
    } else {
        s
    }
}

/// The payload of one server-sent-event line, if it has one.
pub open spec fn payload(line: Seq<char>) -> Option<Seq<char>> {
    let t = chomped(line);
    if starts(t, "data:"@) {
        Some(trim(behind(t, "data:"@)))
    } else {
        None
    }
}

/// The payload of one server-sent-event line; nothing for blanks, comments and
/// other fields.
pub fn sse_data(line: &str) -> (r: Option<String>)
    ensures
        match r {
            Some(t) => payload(line@) == Some(t@),
            None => payload(line@) is None,
        },
{
    let v = to_chars(line);
    let mut n: usize = v.len();
    assert(v@.take(n as int) =~= v@);
    while n > 0 && (v[n - 1] == '\r' || v[n - 1] == '\n')
        invariant
            n <= v@.len(),
            chomped(v@) == chomped(v@.take(n as int)),
        decreases n,
    {
        assert(v@.take(n as int).drop_last() =~= v@.take(n - 1));
        n -= 1;
    }
    let t = sub_chars(&v, 0, n);
    assert(t@ =~= v@.take(n as int));
    if !starts_with(&t, "data:") {
        return None;
    }
    proof {
        reveal_strlit("data:");
    }
    let rest = sub_chars(&t, 5, n);
    assert(rest@ =~= behind(t@, "data:"@));
    let clean = trim_chars(&rest);
    Some(from_chars(&clean))
}

} // verus!
