//! Page text in pieces that a judge can read.
use vstd::prelude::*;
use vstd::string::*;
use crate::scan::{
    char_views, find, find_from, holds, join, lemma_find_from, lemma_trim_end, lemma_trim_start,
    match_at, replace, replace_from, rfind, rfind_from, trim, trim_chars, trim_end, trim_start,
};
use crate::text::{
    byte_len, chars_byte_length, cut_at, cut_from, from_chars, is_space, lemma_byte_len_add,
    lemma_cut_from, push_range, push_str, sub_chars, to_chars, views,
};

verus! {

// ------------------------------------------------------------- truncation --

/// The longest prefix of `s` that takes at most `n` bytes.
pub open spec fn truncated(s: Seq<char>, n: nat) -> Seq<char> {
    s.take(cut_from(s, 0, n))
}

/// The longest prefix of `s` that takes at most `n` bytes and ends on a whole
/// character.
pub fn truncate(s: &str, n: usize) -> (r: &str)
    ensures
        r@ == truncated(s@, n as nat),
        byte_len(r@) <= n,
        byte_len(s@) <= n ==> r@ == s@,
{
    let v = to_chars(s);
    let end = cut_at(&v, 0, n);
    proof {
        lemma_cut_from(s@, 0, n as nat);
        assert(s@.take(end as int) =~= s@.subrange(0, end as int));
        if byte_len(s@) <= n && end < s@.len() {
            lemma_prefix_bytes(s@, end + 1);
            assert(s@.subrange(0, end + 1) =~= s@.take(end + 1));
        }
        if end == s@.len() {
            assert(s@.take(end as int) =~= s@);
        }
    }
    s.substring_char(0, end)
}

/// A prefix takes no more bytes than the whole.
pub proof fn lemma_prefix_bytes(s: Seq<char>, i: int)
    requires
        0 <= i <= s.len(),
    ensures
        byte_len(s.take(i)) <= byte_len(s),
        byte_len(s.subrange(i, s.len() as int)) <= byte_len(s),
        byte_len(s.take(i)) + byte_len(s.subrange(i, s.len() as int)) == byte_len(s),
{
    lemma_byte_len_add(s.take(i), s.subrange(i, s.len() as int));
    assert(s.take(i) + s.subrange(i, s.len() as int) =~= s);
}

/// A text fits in `n` bytes exactly when cutting it at `n` bytes cuts nothing off.
proof fn lemma_fits(s: Seq<char>, n: nat)
    ensures
        (byte_len(s) <= n) == (cut_from(s, 0, n) == s.len()),
        0 <= cut_from(s, 0, n) <= s.len(),
        byte_len(s.take(cut_from(s, 0, n))) <= n,
{
    lemma_cut_from(s, 0, n);
    let e = cut_from(s, 0, n);
    assert(s.subrange(0, e) =~= s.take(e));
    if e < s.len() {
        assert(s.subrange(0, e + 1) =~= s.take(e + 1));
        lemma_prefix_bytes(s, e + 1);
    } else {
        assert(s.take(e) =~= s);
    }
}

// ------------------------------------------------------------- paragraphs --

/// The smallest piece size in use, in bytes: the widest character fits.
pub const MIN_SIZE: usize = 4;

pub open spec fn piece_size(size: nat) -> nat {
    if size < MIN_SIZE {
        MIN_SIZE as nat
    } else {
        size
    }
}

/// Where an oversized text is cut: at the last line break of what fits, or at its
/// last space when it has no line break, provided that is past the middle; else
/// at the end of what fits.
pub open spec fn cut_point(rest: Seq<char>, size: nat) -> int {
    let window = rest.take(cut_from(rest, 0, size));
    let at = match rfind_from(window, window.len() as int, "\n"@) {
        Some(i) => Some(i),
        None => rfind_from(window, window.len() as int, " "@),
    };
    match at {
        Some(i) => if byte_len(rest.take(i)) > size / 2 {
            i
        } else {
            window.len() as int
        },
        None => window.len() as int,
    }
}

proof fn lemma_rfind_bounds(s: Seq<char>, i: int, p: Seq<char>)
    ensures
        rfind_from(s, i, p) matches Some(k) ==> 0 <= k <= i && k + p.len() <= s.len(),
    decreases i + 1,
{
    if i >= 0 && !match_at(s, i, p) {
        lemma_rfind_bounds(s, i - 1, p);
    }
}

proof fn lemma_cut_point(rest: Seq<char>, size: nat)
    requires
        size >= MIN_SIZE,
        byte_len(rest) > size,
    ensures
        1 <= cut_point(rest, size) <= cut_from(rest, 0, size),
        cut_point(rest, size) < rest.len(),
        byte_len(rest.take(cut_point(rest, size))) <= size,
{
    lemma_fits(rest, size);
    let w = cut_from(rest, 0, size);
    let window = rest.take(w);
    assert(rest.len() > 0) by {
        if rest.len() == 0 {
            assert(byte_len(rest) == 0);
        }
    }
    assert(w >= 1) by {
        lemma_cut_from(rest, 1, (size - crate::text::width(rest[0])) as nat);
    }
    lemma_rfind_bounds(window, window.len() as int, "\n"@);
    lemma_rfind_bounds(window, window.len() as int, " "@);
    let c = cut_point(rest, size);
    lemma_prefix_bytes(window, c);
    assert(window.take(c) =~= rest.take(c));
    if c == 0 {
        assert(rest.take(0) =~= Seq::empty());
        assert(byte_len(rest.take(0)) == 0);
    }
}

/// A paragraph in pieces of at most `size` bytes.
pub open spec fn pieces_of(rest: Seq<char>, size: nat) -> Seq<Seq<char>>
    decreases rest.len(),
    when size >= MIN_SIZE
    via pieces_of_shrinks
{
    if byte_len(rest) <= size {
        seq![rest]
    } else {
        let c = cut_point(rest, size);
        seq![rest.take(c)] + pieces_of(rest.subrange(c, rest.len() as int), size)
    }
}

#[via_fn]
proof fn pieces_of_shrinks(rest: Seq<char>, size: nat) {
    if byte_len(rest) > size {
        lemma_cut_point(rest, size);
    }
}

/// The paragraphs of `s` from index `i` on, in pieces.
pub open spec fn paragraphs_from(s: Seq<char>, i: int, size: nat) -> Seq<Seq<char>>
    decreases s.len() - i,
    when 0 <= i <= s.len()
    via paragraphs_from_moves
{
    match find_from(s, i, "\n\n"@) {
        None => pieces_of(s.subrange(i, s.len() as int), size),
        Some(k) => pieces_of(s.subrange(i, k), size) + paragraphs_from(s, k + 2, size),
    }
}

#[via_fn]
proof fn paragraphs_from_moves(s: Seq<char>, i: int, size: nat) {
    reveal_strlit("\n\n");
    lemma_find_from(s, i, "\n\n"@);
}

/// The text in paragraph-sized pieces, split on blank lines.
pub open spec fn paragraphs(s: Seq<char>, size: nat) -> Seq<Seq<char>> {
    paragraphs_from(s, 0, piece_size(size))
}

fn push_pieces(out: &mut Vec<Vec<char>>, para: Vec<char>, size: usize)
    requires
        size >= MIN_SIZE,
    ensures
        char_views(final(out)@) == char_views(old(out)@) + pieces_of(para@, size as nat),
{
    let ghost start = char_views(out@);
    let mut rest: Vec<char> = para;
    loop
        invariant_except_break
            char_views(out@) + pieces_of(rest@, size as nat) == start + pieces_of(
                para@,
                size as nat,
            ),
        invariant
            size >= MIN_SIZE,
        ensures
            char_views(out@) == start + pieces_of(para@, size as nat),
        decreases rest@.len(),
    {
        let w = cut_at(&rest, 0, size);
        proof {
            lemma_fits(rest@, size as nat);
        }
        if w == rest.len() {
            let ghost before = char_views(out@);
            let ghost last = rest@;
            out.push(rest);
            proof {
                assert(char_views(out@) =~= before.push(last));
                assert(before + seq![last] =~= before.push(last));
            }
            break;
        }
        proof {
            lemma_cut_point(rest@, size as nat);
        }
        let window = sub_chars(&rest, 0, w);
        assert(window@ =~= rest@.take(w as int));
        let at: Option<usize> = match rfind(&window, "\n") {
            Some(i) => Some(i),
            None => rfind(&window, " "),
        };
        let cut: usize = match at {
            Some(i) => {
                let head = sub_chars(&rest, 0, i);
                assert(head@ =~= rest@.take(i as int));
                if chars_byte_length(&head) > (size / 2) as u128 {
                    i
                } else {
                    w
                }
            },
            None => w,
        };
        assert(cut == cut_point(rest@, size as nat));
        let piece = sub_chars(&rest, 0, cut);
        let next = sub_chars(&rest, cut, rest.len());
        let ghost before = char_views(out@);
        let ghost p = piece@;
        out.push(piece);
        proof {
            assert(p =~= rest@.take(cut as int));
            assert(char_views(out@) =~= before.push(p));
            assert(before + (seq![p] + pieces_of(next@, size as nat)) =~= char_views(out@)
                + pieces_of(next@, size as nat));
        }
        rest = next;
    }
}

/// Break text into paragraph-sized pieces, none longer than `size` bytes (or four,
/// where that is more: a character is never cut).
pub fn split_paragraphs(v: &[char], size: usize) -> (r: Vec<Vec<char>>)
    ensures
        char_views(r@) == paragraphs(v@, size as nat),
{
    let size: usize = if size < MIN_SIZE {
        MIN_SIZE
    } else {
        size
    };
    let mut out: Vec<Vec<char>> = Vec::new();
    let mut pos: usize = 0;
    proof {
        reveal_strlit("\n\n");
        assert(char_views(out@) + paragraphs_from(v@, 0, size as nat) =~= paragraphs_from(
            v@,
            0,
            size as nat,
        ));
    }
    loop
        invariant_except_break
            char_views(out@) + paragraphs_from(v@, pos as int, size as nat) == paragraphs_from(
                v@,
                0,
                size as nat,
            ),
        invariant
            pos <= v@.len(),
            size >= MIN_SIZE,
            "\n\n"@.len() == 2,
        ensures
            char_views(out@) == paragraphs_from(v@, 0, size as nat),
        decreases v@.len() - pos,
    {
        let ghost before = char_views(out@);
        match find(v, pos, "\n\n") {
            None => {
                let para = sub_chars(v, pos, v.len());
                push_pieces(&mut out, para, size);
                break;
            },
            Some(k) => {
                let para = sub_chars(v, pos, k);
                let ghost p = para@;
                push_pieces(&mut out, para, size);
                proof {
                    assert(before + (pieces_of(p, size as nat) + paragraphs_from(
                        v@,
                        k + 2,
                        size as nat,
                    )) =~= char_views(out@) + paragraphs_from(v@, k + 2, size as nat));
                }
                pos = k + 2;
            },
        }
    }
    out
}

// ----------------------------------------------------------------- chunks --

/// Shorter texts than this, in bytes, can answer nothing and are dropped.
pub const MIN_CHUNK: usize = 80;

/// The chunks so far with the finished text `current`, if it is worth keeping.
pub open spec fn flushed(chunks: Seq<Seq<char>>, current: Seq<char>) -> Seq<Seq<char>> {
    if byte_len(trim(current)) > MIN_CHUNK {
        chunks.push(current)
    } else {
        chunks
    }
}

/// The text `current` with one more paragraph.
pub open spec fn extended(current: Seq<char>, para: Seq<char>) -> Seq<char> {
    if current.len() == 0 {
        para
    } else {
        current + "\n\n"@ + para
    }
}

/// The chunks that the pieces from the `k`-th on make, after `chunks` and the
/// unfinished text `current`. A `max` of 0 is no limit.
pub open spec fn chunks_from(
    pieces: Seq<Seq<char>>,
    k: int,
    size: nat,
    max: nat,
    current: Seq<char>,
    chunks: Seq<Seq<char>>,
) -> Seq<Seq<char>>
    decreases pieces.len() - k,
{
    if k < 0 || k >= pieces.len() {
        let all = flushed(chunks, current);
        if max > 0 && all.len() > max {
            all.take(max as int)
        } else {
            all
        }
    } else {
        let para = trim(pieces[k]);
        if para.len() == 0 {
            chunks_from(pieces, k + 1, size, max, current, chunks)
        } else if current.len() > 0 && byte_len(current) + byte_len(para) > size {
            let next = flushed(chunks, current);
            if max > 0 && next.len() >= max {
                next
            } else {
                chunks_from(pieces, k + 1, size, max, para, next)
            }
        } else {
            chunks_from(pieces, k + 1, size, max, extended(current, para), chunks)
        }
    }
}

/// Page text in chunks.
pub open spec fn chunked(s: Seq<char>, size: nat, max: nat) -> Seq<Seq<char>> {
    chunks_from(paragraphs(s, size), 0, size, max, Seq::empty(), Seq::empty())
}

fn flush(chunks: &mut Vec<String>, current: &[char])
    ensures
        views(final(chunks)@) == flushed(views(old(chunks)@), current@),
{
    let t = trim_chars(current);
    if chars_byte_length(&t) > MIN_CHUNK as u128 {
        let s = from_chars(current);
        let ghost before = views(chunks@);
        let ghost c = s@;
        chunks.push(s);
        assert(views(chunks@) =~= before.push(c));
    }
}

/// Split page text into chunks on blank lines, up to roughly `size` bytes each,
/// and at most `max_chunks` of them (0 is no limit).
pub fn chunk(text: &str, size: usize, max_chunks: usize) -> (r: Vec<String>)
    ensures
        views(r@) == chunked(text@, size as nat, max_chunks as nat),
{
    let v = to_chars(text);
    let pieces = split_paragraphs(&v, size);
    let ghost all = char_views(pieces@);
    let ghost result = chunked(text@, size as nat, max_chunks as nat);
    let mut chunks: Vec<String> = Vec::new();
    let mut current: Vec<char> = Vec::new();
    let mut k: usize = 0;
    assert(views(chunks@) =~= Seq::<Seq<char>>::empty());
    assert(current@ =~= Seq::<char>::empty());
    while k < pieces.len()
        invariant
            k <= pieces@.len(),
            all == char_views(pieces@),
            chunks_from(
                all,
                k as int,
                size as nat,
                max_chunks as nat,
                current@,
                views(chunks@),
            ) == result,
            result == chunked(text@, size as nat, max_chunks as nat),
        decreases pieces@.len() - k,
    {
        let para = trim_chars(&pieces[k]);
        assert(para@ == trim(all[k as int]));
        k += 1;
        if para.len() == 0 {
            continue;
        }
        if current.len() > 0 && chars_byte_length(&current) + chars_byte_length(&para)
            > size as u128 {
            flush(&mut chunks, &current);
            if max_chunks > 0 && chunks.len() >= max_chunks {
                assert(views(chunks@).len() == chunks@.len());
                return chunks;
            }
            assert(views(chunks@).len() == chunks@.len());
            current = para;
        } else {
            let ghost before = current@;
            if current.len() > 0 {
                push_str(&mut current, "\n\n");
            }
            push_range(&mut current, &para, 0, para.len());
            proof {
                assert(para@.subrange(0, para@.len() as int) =~= para@);
                assert(current@ =~= extended(before, para@));
            }
        }
    }
    flush(&mut chunks, &current);
    assert(views(chunks@).len() == chunks@.len());
    if max_chunks > 0 && chunks.len() > max_chunks {
        let ghost before = views(chunks@);
        chunks.truncate(max_chunks);
        assert(views(chunks@) =~= before.take(max_chunks as int));
    }
    chunks
}

// ------------------------------------------------------------------- laws --

/// The pieces of a paragraph are the paragraph, cut: put together again they are
/// it, and none takes more than `size` bytes.
pub proof fn law_pieces_lose_nothing(rest: Seq<char>, size: nat)
    requires
        size >= MIN_SIZE,
    ensures
        pieces_of(rest, size).len() > 0,
        join(pieces_of(rest, size), Seq::empty()) == rest,
        forall|i: int|
            0 <= i < pieces_of(rest, size).len() ==> byte_len(#[trigger] pieces_of(rest, size)[i])
                <= size,
    decreases rest.len(),
{
    if byte_len(rest) > size {
        lemma_cut_point(rest, size);
        let c = cut_point(rest, size);
        let tail = rest.subrange(c, rest.len() as int);
        law_pieces_lose_nothing(tail, size);
        let more = pieces_of(tail, size);
        let all = seq![rest.take(c)] + more;
        assert(pieces_of(rest, size) == all);
        lemma_join_front(rest.take(c), more);
        assert(rest.take(c) + tail =~= rest);
        assert forall|i: int| 0 <= i < all.len() implies byte_len(#[trigger] all[i]) <= size by {
            if i > 0 {
                assert(all[i] == more[i - 1]);
            }
        }
    }
}

proof fn lemma_join_front(head: Seq<char>, parts: Seq<Seq<char>>)
    requires
        parts.len() > 0,
    ensures
        join(seq![head] + parts, Seq::empty()) == head + join(
            parts,
            Seq::empty(),
        ),
    decreases parts.len(),
{
    let all = seq![head] + parts;
    if parts.len() == 1 {
        assert(all.drop_last() =~= seq![head]);
        assert(join(all.drop_last(), Seq::empty()) == head);
        assert(head + Seq::<char>::empty() + parts[0] =~= head + parts[0]);
    } else {
        assert(all.drop_last() =~= seq![head] + parts.drop_last());
        lemma_join_front(head, parts.drop_last());
        assert(head + join(parts.drop_last(), Seq::empty()) + Seq::<char>::empty()
            + parts.last() =~= head + (join(parts.drop_last(), Seq::empty())
            + Seq::<char>::empty() + parts.last()));
    }
}

proof fn lemma_join_add(a: Seq<Seq<char>>, b: Seq<Seq<char>>)
    ensures
        join(a + b, Seq::empty()) == join(a, Seq::empty()) + join(b, Seq::empty()),
    decreases a.len(),
{
    if a.len() == 0 {
        assert(a + b =~= b);
        assert(join(a, Seq::empty()) + join(b, Seq::empty()) =~= join(b, Seq::empty()));
    } else if b.len() == 0 {
        assert(a + b =~= a);
        assert(join(a, Seq::empty()) + join(b, Seq::empty()) =~= join(a, Seq::empty()));
    } else {
        let rest = a.drop_first();
        lemma_join_add(rest, b);
        assert(a + b =~= seq![a[0]] + (rest + b));
        assert(a =~= seq![a[0]] + rest);
        lemma_join_front(a[0], rest + b);
        if rest.len() > 0 {
            lemma_join_front(a[0], rest);
        } else {
            assert(rest + b =~= b);
            assert(a =~= seq![a[0]]);
            assert(a.drop_last() =~= Seq::<Seq<char>>::empty());
            assert(join(a, Seq::empty()) =~= a[0]);
        }
        assert(a[0] + (join(rest, Seq::empty()) + join(b, Seq::empty())) =~= a[0] + join(
            rest,
            Seq::empty(),
        ) + join(b, Seq::empty()));
    }
}

/// Up to the next blank line nothing is replaced.
proof fn lemma_up_to_blank(s: Seq<char>, i: int, k: int)
    requires
        0 <= i <= k <= s.len(),
        forall|j: int| i <= j < k ==> !#[trigger] match_at(s, j, "\n\n"@),
    ensures
        replace_from(s, i, "\n\n"@, Seq::empty()) == s.subrange(i, k) + replace_from(
            s,
            k,
            "\n\n"@,
            Seq::empty(),
        ),
    decreases k - i,
{
    let none = Seq::<char>::empty();
    if i < k {
        lemma_up_to_blank(s, i + 1, k);
        assert(seq![s[i]] + (s.subrange(i + 1, k) + replace_from(s, k, "\n\n"@, none))
            =~= s.subrange(i, k) + replace_from(s, k, "\n\n"@, none));
    } else {
        assert(s.subrange(i, k) + replace_from(s, k, "\n\n"@, none) =~= replace_from(
            s,
            k,
            "\n\n"@,
            none,
        ));
    }
}

proof fn lemma_paragraphs_join(s: Seq<char>, i: int, size: nat)
    requires
        0 <= i <= s.len(),
        size >= MIN_SIZE,
    ensures
        join(paragraphs_from(s, i, size), Seq::empty()) == replace_from(
            s,
            i,
            "\n\n"@,
            Seq::empty(),
        ),
    decreases s.len() - i,
{
    let none = Seq::<char>::empty();
    reveal_strlit("\n\n");
    lemma_find_from(s, i, "\n\n"@);
    match find_from(s, i, "\n\n"@) {
        None => {
            law_pieces_lose_nothing(s.subrange(i, s.len() as int), size);
            lemma_up_to_blank(s, i, s.len() as int);
            assert(s.subrange(i, s.len() as int) + replace_from(s, s.len() as int, "\n\n"@, none)
                =~= s.subrange(i, s.len() as int));
        },
        Some(k) => {
            law_pieces_lose_nothing(s.subrange(i, k), size);
            lemma_paragraphs_join(s, k + 2, size);
            lemma_join_add(pieces_of(s.subrange(i, k), size), paragraphs_from(s, k + 2, size));
            lemma_up_to_blank(s, i, k);
            assert(none + replace_from(s, k + 2, "\n\n"@, none) =~= replace_from(
                s,
                k + 2,
                "\n\n"@,
                none,
            ));
        },
    }
}

/// The pieces of a text in order are the text without its blank lines, and none takes
/// more bytes than asked for (or four, where that is more).
pub proof fn law_paragraphs_lose_only_blank_lines(s: Seq<char>, size: nat)
    ensures
        join(paragraphs(s, size), Seq::empty()) == replace(s, "\n\n"@, Seq::empty()),
        forall|k: int|
            0 <= k < paragraphs(s, size).len() ==> byte_len(#[trigger] paragraphs(s, size)[k])
                <= piece_size(size),
        size >= 4 ==> piece_size(size) == size,
{
    lemma_paragraphs_join(s, 0, piece_size(size));
    law_paragraphs_are_bounded(s, 0, piece_size(size));
}

/// No piece of a text takes more bytes than its size allows.
pub proof fn law_paragraphs_are_bounded(s: Seq<char>, i: int, size: nat)
    requires
        0 <= i <= s.len(),
        size >= MIN_SIZE,
    ensures
        forall|k: int|
            0 <= k < paragraphs_from(s, i, size).len() ==> byte_len(
                #[trigger] paragraphs_from(s, i, size)[k],
            ) <= size,
    decreases s.len() - i,
{
    reveal_strlit("\n\n");
    lemma_find_from(s, i, "\n\n"@);
    match find_from(s, i, "\n\n"@) {
        None => {
            law_pieces_lose_nothing(s.subrange(i, s.len() as int), size);
        },
        Some(k) => {
            let head = pieces_of(s.subrange(i, k), size);
            law_pieces_lose_nothing(s.subrange(i, k), size);
            law_paragraphs_are_bounded(s, k + 2, size);
            let tail = paragraphs_from(s, k + 2, size);
            assert forall|j: int| 0 <= j < (head + tail).len() implies byte_len(
                #[trigger] (head + tail)[j],
            ) <= size by {
                if j < head.len() {
                    assert((head + tail)[j] == head[j]);
                } else {
                    assert((head + tail)[j] == tail[j - head.len()]);
                }
            }
        },
    }
}

/// A chunk worth judging: more than eighty bytes but for the white space around them, and
/// no more than two past the size asked for.
pub open spec fn fair_chunk(c: Seq<char>, size: nat) -> bool {
    MIN_CHUNK < byte_len(trim(c)) && byte_len(c) <= size + 2
}

/// Every chunk is worth judging.
pub open spec fn all_fair(chunks: Seq<Seq<char>>, size: nat) -> bool {
    forall|i: int| 0 <= i < chunks.len() ==> fair_chunk(#[trigger] chunks[i], size)
}

proof fn lemma_trim_bytes(s: Seq<char>)
    ensures
        byte_len(trim(s)) <= byte_len(s),
{
    lemma_trim_start(s);
    let t = trim_start(s);
    lemma_trim_end(t);
    lemma_prefix_bytes(s, s.len() - t.len());
    lemma_prefix_bytes(t, trim_end(t).len() as int);
}

proof fn lemma_chunks_fair(
    pieces: Seq<Seq<char>>,
    k: int,
    size: nat,
    max: nat,
    current: Seq<char>,
    chunks: Seq<Seq<char>>,
)
    requires
        0 <= k,
        forall|i: int| 0 <= i < pieces.len() ==> byte_len(#[trigger] pieces[i]) <= piece_size(size),
        byte_len(current) <= piece_size(size) + 2,
        all_fair(chunks, size),
        max > 0 ==> chunks.len() < max,
    ensures
        all_fair(chunks_from(pieces, k, size, max, current, chunks), size),
        max > 0 ==> chunks_from(pieces, k, size, max, current, chunks).len() <= max,
    decreases pieces.len() - k,
{
    lemma_trim_bytes(current);
    let next = flushed(chunks, current);
    assert(all_fair(next, size)) by {
        assert forall|i: int| 0 <= i < next.len() implies fair_chunk(#[trigger] next[i], size) by {
            if i < chunks.len() {
                assert(next[i] == chunks[i]);
            }
        }
    }
    if k < pieces.len() {
        let para = trim(pieces[k]);
        lemma_trim_bytes(pieces[k]);
        if para.len() == 0 {
            lemma_chunks_fair(pieces, k + 1, size, max, current, chunks);
        } else if current.len() > 0 && byte_len(current) + byte_len(para) > size {
            if max > 0 && next.len() >= max {
                assert(chunks_from(pieces, k, size, max, current, chunks) == next);
            } else {
                assert(byte_len(para) <= piece_size(size));
                lemma_chunks_fair(pieces, k + 1, size, max, para, next);
            }
        } else {
            reveal_strlit("\n\n");
            lemma_byte_len_add(current, "\n\n"@);
            lemma_byte_len_add(current + "\n\n"@, para);
            assert(byte_len("\n\n"@) == 2) by {
                let s = "\n\n"@;
                assert(s.drop_last().drop_last() =~= Seq::empty());
                assert(byte_len(s.drop_last().drop_last()) == 0);
                assert(s.drop_last().last() == s[0]);
                assert(byte_len(s.drop_last()) == 1);
            }
            lemma_chunks_fair(pieces, k + 1, size, max, extended(current, para), chunks);
        }
    } else {
        assert(chunks_from(pieces, k, size, max, current, chunks) == next);
    }
}

/// Every chunk of a text takes more than eighty bytes, the white space around it not
/// counted, and at most two more than the size asked for. There are no more chunks than
/// asked for.
pub proof fn law_chunks_are_fair(s: Seq<char>, size: nat, max: nat)
    ensures
        all_fair(chunked(s, size, max), size),
        max > 0 ==> chunked(s, size, max).len() <= max,
{
    law_paragraphs_are_bounded(s, 0, piece_size(size));
    lemma_chunks_fair(paragraphs(s, size), 0, size, max, Seq::empty(), Seq::empty());
}

/// White space at neither end.
spec fn tidy(s: Seq<char>) -> bool {
    s.len() > 0 ==> !is_space(s[0]) && !is_space(s.last())
}

proof fn lemma_tidy(s: Seq<char>)
    ensures
        tidy(s) ==> trim(s) == s,
        tidy(trim(s)),
{
    lemma_trim_start(s);
    let t = trim_start(s);
    lemma_trim_end(t);
    let r = trim_end(t);
    if r.len() > 0 {
        assert(r[0] == t[0]);
    }
    if tidy(s) && s.len() > 0 {
        if t.len() < s.len() {
            assert(is_space(s[0]));
        }
        assert(t =~= s);
        if r.len() < t.len() {
            assert(is_space(t[t.len() - 1]));
        }
        assert(r =~= s);
    }
}

proof fn lemma_extended(current: Seq<char>, para: Seq<char>)
    requires
        tidy(current),
        tidy(para),
        para.len() > 0,
    ensures
        tidy(extended(current, para)),
        extended(current, para).len() > 0,
        holds(extended(current, para), para),
        forall|p: Seq<char>| #[trigger] holds(extended(current, para), p) <== holds(current, p)
            && p.len() > 0,
        byte_len(extended(current, para)) >= byte_len(current),
        byte_len(extended(current, para)) >= byte_len(para),
{
    let e = extended(current, para);
    let at = e.len() - para.len();
    assert(e.subrange(at, e.len() as int) =~= para);
    assert(match_at(e, at, para));
    if current.len() > 0 {
        lemma_byte_len_add(current, "\n\n"@);
        lemma_byte_len_add(current + "\n\n"@, para);
        assert(e[0] == current[0]);
        assert(e.last() == para.last());
    }
    assert forall|p: Seq<char>| holds(current, p) && p.len() > 0 implies #[trigger] holds(e, p) by {
        let i = choose|i: int| match_at(current, i, p);
        assert(e.subrange(i, i + p.len()) =~= current.subrange(i, i + p.len()));
        assert(match_at(e, i, p));
    }
}

/// A piece that is long enough to be judged on its own.
pub open spec fn worth_judging(piece: Seq<char>) -> bool {
    byte_len(trim(piece)) > 80
}

/// The chunk `home[k]` holds the `k`-th piece, for every one of the first `n` that is worth
/// judging, and later pieces stand in no earlier chunk; a piece without a chunk has the number
/// of chunks as its home.
pub open spec fn housed(
    pieces: Seq<Seq<char>>,
    n: int,
    chunks: Seq<Seq<char>>,
    home: Seq<int>,
) -> bool {
    &&& home.len() == n
    &&& forall|j: int|
        0 <= j < n ==> 0 <= #[trigger] home[j] <= chunks.len() && (worth_judging(pieces[j])
            && home[j] < chunks.len() ==> holds(chunks[home[j]], trim(pieces[j])))
    &&& forall|i: int, j: int| 0 <= i < j < n ==> #[trigger] home[i] <= #[trigger] home[j]
}

/// The pieces that have no chunk yet stand in the unfinished text, which will be one.
spec fn pending(
    pieces: Seq<Seq<char>>,
    n: int,
    chunks: Seq<Seq<char>>,
    home: Seq<int>,
    current: Seq<char>,
) -> bool {
    forall|j: int|
        0 <= j < n && #[trigger] home[j] == chunks.len() && worth_judging(pieces[j]) ==> holds(
            current,
            trim(pieces[j]),
        ) && byte_len(current) > 80
}

proof fn lemma_flushed_homes(
    pieces: Seq<Seq<char>>,
    n: int,
    chunks: Seq<Seq<char>>,
    home: Seq<int>,
    current: Seq<char>,
)
    requires
        0 <= n <= pieces.len(),
        housed(pieces, n, chunks, home),
        pending(pieces, n, chunks, home, current),
        tidy(current),
    ensures
        housed(pieces, n, flushed(chunks, current), home),
        forall|j: int|
            0 <= j < n && worth_judging(pieces[j]) ==> #[trigger] home[j] < flushed(
                chunks,
                current,
            ).len(),
{
    lemma_tidy(current);
    let next = flushed(chunks, current);
    assert forall|j: int| 0 <= j < n implies 0 <= #[trigger] home[j] <= next.len() && (
    worth_judging(pieces[j]) ==> home[j] < next.len() && holds(next[home[j]], trim(pieces[j]))) by {
        if home[j] < chunks.len() {
            assert(next[home[j]] == chunks[home[j]]);
        } else if worth_judging(pieces[j]) {
            assert(next[chunks.len() as int] == current);
        }
    }
}

proof fn lemma_homes(
    pieces: Seq<Seq<char>>,
    k: int,
    size: nat,
    max: nat,
    current: Seq<char>,
    chunks: Seq<Seq<char>>,
    home: Seq<int>,
) -> (r: Seq<int>)
    requires
        0 <= k <= pieces.len(),
        tidy(current),
        max > 0 ==> chunks.len() < max,
        housed(pieces, k, chunks, home),
        pending(pieces, k, chunks, home, current),
    ensures
        housed(
            pieces,
            pieces.len() as int,
            chunks_from(pieces, k, size, max, current, chunks),
            r,
        ),
        forall|j: int|
            0 <= j < pieces.len() && worth_judging(pieces[j]) && #[trigger] r[j] == chunks_from(
                pieces,
                k,
                size,
                max,
                current,
                chunks,
            ).len() ==> max > 0 && chunks_from(pieces, k, size, max, current, chunks).len() == max,
    decreases pieces.len() - k,
{
    lemma_flushed_homes(pieces, k, chunks, home, current);
    let next = flushed(chunks, current);
    if k == pieces.len() {
        home
    } else {
        let para = trim(pieces[k]);
        lemma_tidy(pieces[k]);
        let more = home.push(chunks.len() as int);
        if para.len() == 0 {
            assert(byte_len(para) == 0);
            assert(housed(pieces, k + 1, chunks, more));
            assert(pending(pieces, k + 1, chunks, more, current));
            lemma_homes(pieces, k + 1, size, max, current, chunks, more)
        } else if current.len() > 0 && byte_len(current) + byte_len(para) > size {
            if max > 0 && next.len() >= max {
                let r = home + Seq::new((pieces.len() - k) as nat, |i: int| next.len() as int);
                assert forall|j: int| 0 <= j < pieces.len() implies 0 <= #[trigger] r[j]
                    <= next.len() && (worth_judging(pieces[j]) && r[j] < next.len() ==> holds(
                    next[r[j]],
                    trim(pieces[j]),
                )) by {
                    if j < k {
                        assert(r[j] == home[j]);
                    }
                }
                assert forall|i: int, j: int| 0 <= i < j < pieces.len() implies #[trigger] r[i]
                    <= #[trigger] r[j] by {
                    if j < k {
                        assert(r[i] == home[i] && r[j] == home[j]);
                    } else if i < k {
                        assert(r[i] == home[i]);
                    }
                }
                r
            } else {
                let later = home.push(next.len() as int);
                assert(para.subrange(0, para.len() as int) =~= para);
                assert(match_at(para, 0, para));
                assert(housed(pieces, k + 1, next, later));
                assert(pending(pieces, k + 1, next, later, para));
                lemma_homes(pieces, k + 1, size, max, para, next, later)
            }
        } else {
            lemma_extended(current, para);
            let e = extended(current, para);
            assert forall|j: int|
                0 <= j < k + 1 && #[trigger] more[j] == chunks.len() && worth_judging(
                    pieces[j],
                ) implies holds(e, trim(pieces[j])) && byte_len(e) > 80 by {
                if j < k {
                    assert(more[j] == home[j]);
                    if trim(pieces[j]).len() == 0 {
                        assert(byte_len(trim(pieces[j])) == 0);
                    }
                }
            }
            assert(housed(pieces, k + 1, chunks, more));
            lemma_homes(pieces, k + 1, size, max, e, chunks, more)
        }
    }
}

/// No piece of a page that is worth judging is lost: each stands whole in a chunk, in the
/// order of the page, unless the page has been cut at the number of chunks asked for.
pub proof fn law_chunks_lose_no_piece(s: Seq<char>, size: nat, max: nat)
    ensures
        exists|home: Seq<int>|
            {
                &&& #[trigger] housed(
                    paragraphs(s, size),
                    paragraphs(s, size).len() as int,
                    chunked(s, size, max),
                    home,
                )
                &&& forall|j: int|
                    0 <= j < home.len() && worth_judging(paragraphs(s, size)[j])
                        && #[trigger] home[j] == chunked(s, size, max).len() ==> max > 0 && chunked(
                        s,
                        size,
                        max,
                    ).len() == max
            },
{
    let pieces = paragraphs(s, size);
    let none = Seq::<Seq<char>>::empty();
    let home = lemma_homes(pieces, 0, size, max, Seq::empty(), none, Seq::empty());
    assert(housed(pieces, pieces.len() as int, chunked(s, size, max), home));
}

} // verus!
