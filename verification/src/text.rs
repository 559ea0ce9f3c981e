//! Text as sequences of characters: trimming, searching, splitting, numerals.
//!
//! Every specification in the crate speaks of a string as a `Seq<char>`. The
//! functions here move between `&str`, `String` and slices of `char`, and give
//! the handful of string operations the other modules are built from.
use vstd::prelude::*;
use vstd::string::*;

verus! {

/// `String::push` appends one character to the end of the string.
pub assume_specification[ std::string::String::push ](s: &mut std::string::String, c: char)
    ensures
        final(s)@ == old(s)@.push(c),
;

/// `str == str` compares the two texts, nothing else.
pub assume_specification[ <str as PartialEq<str>>::eq ](a: &str, b: &str) -> (r: bool)
    ensures
        r == (a@ == b@),
;

/// Are the two texts the same?
pub fn str_eq(a: &str, b: &str) -> (r: bool)
    ensures
        r == (a@ == b@),
{
    *a == *b
}

/// The characters of a string.
pub fn to_chars(s: &str) -> (r: Vec<char>)
    ensures
        r@ == s@,
{
    let mut out: Vec<char> = Vec::new();
    for c in it: s.chars()
        invariant
            out@ == it.seq().take(it.index()),
            it.seq() == s@,
    {
        out.push(c);
        assert(out@ =~= it.seq().take(it.index() + 1));
    }
    assert(out@ =~= s@);
    out
}

/// The string made of these characters.
pub fn from_chars(v: &[char]) -> (r: String)
    ensures
        r@ == v@,
{
    let mut out = String::new();
    let mut i: usize = 0;
    while i < v.len()
        invariant
            i <= v@.len(),
            out@ == v@.take(i as int),
        decreases v@.len() - i,
    {
        out.push(v[i]);
        i += 1;
        assert(out@ =~= v@.take(i as int));
    }
    assert(out@ =~= v@);
    out
}

/// The string made of the characters from `lo` up to `hi`.
pub fn from_range(v: &[char], lo: usize, hi: usize) -> (r: String)
    requires
        lo <= hi <= v@.len(),
    ensures
        r@ == v@.subrange(lo as int, hi as int),
{
    let mut out = String::new();
    let mut i: usize = lo;
    while i < hi
        invariant
            lo <= i <= hi <= v@.len(),
            out@ == v@.subrange(lo as int, i as int),
        decreases hi - i,
    {
        out.push(v[i]);
        i += 1;
        assert(out@ =~= v@.subrange(lo as int, i as int));
    }
    out
}

/// The characters from `lo` up to `hi`.
pub fn sub_chars(v: &[char], lo: usize, hi: usize) -> (r: Vec<char>)
    requires
        lo <= hi <= v@.len(),
    ensures
        r@ == v@.subrange(lo as int, hi as int),
{
    let mut out: Vec<char> = Vec::new();
    push_range(&mut out, v, lo, hi);
    assert(out@ =~= v@.subrange(lo as int, hi as int));
    out
}

/// Append the characters of `v` from `lo` up to `hi`.
pub fn push_range(out: &mut Vec<char>, v: &[char], lo: usize, hi: usize)
    requires
        lo <= hi <= v@.len(),
    ensures
        final(out)@ == old(out)@ + v@.subrange(lo as int, hi as int),
{
    let mut i: usize = lo;
    while i < hi
        invariant
            lo <= i <= hi <= v@.len(),
            out@ == old(out)@ + v@.subrange(lo as int, i as int),
        decreases hi - i,
    {
        out.push(v[i]);
        i += 1;
        assert(out@ =~= old(out)@ + v@.subrange(lo as int, i as int));
    }
    assert(out@ =~= old(out)@ + v@.subrange(lo as int, hi as int));
}

/// Append a string's characters.
pub fn push_str(out: &mut Vec<char>, s: &str)
    ensures
        final(out)@ == old(out)@ + s@,
{
    for c in it: s.chars()
        invariant
            out@ == old(out)@ + it.seq().take(it.index()),
            it.seq() == s@,
    {
        out.push(c);
        assert(out@ =~= old(out)@ + it.seq().take(it.index() + 1));
    }
    assert(out@ =~= old(out)@ + s@);
}

/// The texts of a list of strings.
pub open spec fn views(v: Seq<String>) -> Seq<Seq<char>> {
    Seq::new(v.len(), |i: int| v[i]@)
}

// ------------------------------------------------------------- characters --

/// Unicode's `White_Space` property.
pub open spec fn is_space(c: char) -> bool {
    ||| 0x09 <= c as u32 <= 0x0D
    ||| c as u32 == 0x20
    ||| c as u32 == 0x85
    ||| c as u32 == 0xA0
    ||| c as u32 == 0x1680
    ||| 0x2000 <= c as u32 <= 0x200A
    ||| c as u32 == 0x2028
    ||| c as u32 == 0x2029
    ||| c as u32 == 0x202F
    ||| c as u32 == 0x205F
    ||| c as u32 == 0x3000
}

/// Does this character have Unicode's `White_Space` property?
pub fn is_whitespace(c: char) -> (r: bool)
    ensures
        r == is_space(c),
{
    let n: u32 = c as u32;
    (0x09 <= n && n <= 0x0D) || n == 0x20 || n == 0x85 || n == 0xA0 || n == 0x1680 || (0x2000 <= n
        && n <= 0x200A) || n == 0x2028 || n == 0x2029 || n == 0x202F || n == 0x205F || n == 0x3000
}

pub open spec fn is_digit(c: char) -> bool {
    '0' <= c <= '9'
}

pub open spec fn is_ascii_letter(c: char) -> bool {
    ('a' <= c <= 'z') || ('A' <= c <= 'Z')
}

/// An ASCII letter or digit.
pub open spec fn is_ascii_alnum(c: char) -> bool {
    is_digit(c) || is_ascii_letter(c)
}

pub fn is_ascii_alphanumeric(c: char) -> (r: bool)
    ensures
        r == is_ascii_alnum(c),
{
    ('0' <= c && c <= '9') || ('a' <= c && c <= 'z') || ('A' <= c && c <= 'Z')
}

/// The lower-case form of an ASCII letter; every other character is itself.
pub open spec fn lower(c: char) -> char {
    if 'A' <= c <= 'Z' {
        ((c as u32) + 32) as char
    } else {
        c
    }
}

pub fn ascii_lower(c: char) -> (r: char)
    ensures
        r == lower(c),
{
    match c {
        'A' => 'a', 'B' => 'b', 'C' => 'c', 'D' => 'd', 'E' => 'e', 'F' => 'f', 'G' => 'g',
        'H' => 'h', 'I' => 'i', 'J' => 'j', 'K' => 'k', 'L' => 'l', 'M' => 'm', 'N' => 'n',
        'O' => 'o', 'P' => 'p', 'Q' => 'q', 'R' => 'r', 'S' => 's', 'T' => 't', 'U' => 'u',
        'V' => 'v', 'W' => 'w', 'X' => 'x', 'Y' => 'y', 'Z' => 'z',
        _ => c,
    }
}

/// Every ASCII letter in lower case.
pub open spec fn lower_all(s: Seq<char>) -> Seq<char> {
    Seq::new(s.len(), |i: int| lower(s[i]))
}

pub fn to_ascii_lower(v: &[char]) -> (r: Vec<char>)
    ensures
        r@ == lower_all(v@),
{
    let mut out: Vec<char> = Vec::new();
    let mut i: usize = 0;
    while i < v.len()
        invariant
            i <= v@.len(),
            out@ == lower_all(v@).take(i as int),
        decreases v@.len() - i,
    {
        out.push(ascii_lower(v[i]));
        i += 1;
        assert(out@ =~= lower_all(v@).take(i as int));
    }
    assert(out@ =~= lower_all(v@));
    out
}

/// What `char::is_alphanumeric` says of a character past ASCII: Unicode's
/// `Alphabetic` property or a numeric general category.
pub uninterp spec fn unicode_alphanumeric(c: char) -> bool;

/// `char::is_alphanumeric` depends on the character alone. The Unicode tables
/// behind it are not restated here.
pub assume_specification[ char::is_alphanumeric ](c: char) -> (r: bool)
    ensures
        r == unicode_alphanumeric(c),
;

/// A letter or a digit: by ASCII's own ranges, and by Unicode past them.
pub open spec fn is_alnum(c: char) -> bool {
    if (c as u32) < 0x80 {
        is_ascii_alnum(c)
    } else {
        unicode_alphanumeric(c)
    }
}

pub fn letter_or_digit(c: char) -> (r: bool)
    ensures
        r == is_alnum(c),
{
    if (c as u32) < 0x80 {
        is_ascii_alphanumeric(c)
    } else {
        c.is_alphanumeric()
    }
}

/// What `str::to_lowercase` makes of a text that is not all ASCII.
pub uninterp spec fn unicode_lowercase(s: Seq<char>) -> Seq<char>;

/// `str::to_lowercase` depends on the text alone. Unicode's case mapping behind
/// it is not restated here.
pub assume_specification[ str::to_lowercase ](s: &str) -> (r: std::string::String)
    ensures
        r@ == unicode_lowercase(s@),
;

/// A Unicode scalar value.
pub open spec fn is_scalar_value(n: u32) -> bool {
    n <= 0x10FFFF && !(0xD800 <= n <= 0xDFFF)
}

/// `char::from_u32` gives the character of a scalar value, and nothing for any
/// other number.
pub assume_specification[ char::from_u32 ](n: u32) -> (r: Option<char>)
    ensures
        r == (if is_scalar_value(n) {
            Some(n as char)
        } else {
            None
        }),
;

/// Nothing but ASCII.
pub open spec fn all_ascii(s: Seq<char>) -> bool {
    forall|i: int| 0 <= i < s.len() ==> (#[trigger] s[i] as u32) < 0x80
}

/// The text in lower case: letter by letter while it is ASCII, and by Unicode's
/// case mapping otherwise.
pub open spec fn lowercase(s: Seq<char>) -> Seq<char> {
    if all_ascii(s) {
        lower_all(s)
    } else {
        unicode_lowercase(s)
    }
}

/// The text in lower case.
pub fn to_lower(s: &str) -> (r: String)
    ensures
        r@ == lowercase(s@),
{
    let v = to_chars(s);
    if is_all_ascii(&v) {
        let w = to_ascii_lower(&v);
        from_chars(&w)
    } else {
        s.to_lowercase()
    }
}

pub fn is_all_ascii(v: &[char]) -> (r: bool)
    ensures
        r == all_ascii(v@),
{
    let mut i: usize = 0;
    while i < v.len()
        invariant
            i <= v@.len(),
            forall|k: int| 0 <= k < i ==> (#[trigger] v@[k] as u32) < 0x80,
        decreases v@.len() - i,
    {
        if (v[i] as u32) >= 0x80 {
            return false;
        }
        i += 1;
    }
    true
}

/// The texts of a list of string slices.
pub open spec fn str_views(v: Seq<&'static str>) -> Seq<Seq<char>> {
    Seq::new(v.len(), |i: int| v[i]@)
}

/// How many bytes a character takes in UTF-8.
pub open spec fn width(c: char) -> nat {
    if (c as u32) < 0x80 {
        1
    } else if (c as u32) < 0x800 {
        2
    } else if (c as u32) < 0x10000 {
        3
    } else {
        4
    }
}

pub fn char_width(c: char) -> (r: usize)
    ensures
        r == width(c),
        1 <= r <= 4,
{
    let n: u32 = c as u32;
    if n < 0x80 {
        1
    } else if n < 0x800 {
        2
    } else if n < 0x10000 {
        3
    } else {
        4
    }
}

/// How many bytes a text takes in UTF-8.
pub open spec fn byte_len(s: Seq<char>) -> nat
    decreases s.len(),
{
    if s.len() == 0 {
        0
    } else {
        byte_len(s.drop_last()) + width(s.last())
    }
}

/// How many bytes a string takes in UTF-8.
pub fn byte_length(s: &str) -> (r: u128)
    ensures
        r == byte_len(s@),
        r <= 4 * usize::MAX,
{
    let v = to_chars(s);
    let n: usize = v.len();
    let r = chars_byte_length(&v);
    assert(r <= 4 * n);
    assert(v@.take(v@.len() as int) =~= v@);
    r
}

/// How many bytes these characters take in UTF-8.
pub fn chars_byte_length(v: &[char]) -> (r: u128)
    ensures
        r == byte_len(v@),
        r <= 4 * v@.len(),
{
    let n: usize = v.len();
    let mut i: usize = 0;
    let mut total: u128 = 0;
    while i < n
        invariant
            i <= n,
            n == v@.len(),
            total == byte_len(v@.take(i as int)),
            total <= 4 * i,
        decreases n - i,
    {
        total = total + char_width(v[i]) as u128;
        i += 1;
        assert(v@.take(i as int).drop_last() =~= v@.take(i - 1));
    }
    assert(v@.take(n as int) =~= v@);
    total
}

/// The byte length of two texts in a row is the sum of theirs.
pub proof fn lemma_byte_len_add(a: Seq<char>, b: Seq<char>)
    ensures
        byte_len(a + b) == byte_len(a) + byte_len(b),
    decreases b.len(),
{
    if b.len() == 0 {
        assert(a + b =~= a);
    } else {
        lemma_byte_len_add(a, b.drop_last());
        assert((a + b).drop_last() =~= a + b.drop_last());
    }
}

/// A text has at least as many bytes as characters.
pub proof fn lemma_byte_len_min(s: Seq<char>)
    ensures
        byte_len(s) >= s.len(),
    decreases s.len(),
{
    if s.len() > 0 {
        lemma_byte_len_min(s.drop_last());
    }
}

/// `byte_len` counts the bytes of the UTF-8 encoding.
pub proof fn law_byte_len_is_the_utf8_length(s: Seq<char>)
    ensures
        byte_len(s) == vstd::utf8::encode_utf8(s).len(),
    decreases s.len(),
{
    if s.len() > 0 {
        let head = seq![s[0]];
        law_byte_len_is_the_utf8_length(s.drop_first());
        assert(s =~= head + s.drop_first());
        lemma_byte_len_add(head, s.drop_first());
        assert(head.drop_last() =~= Seq::empty());
        assert(byte_len(head) == byte_len(head.drop_last()) + width(s[0]));
        lemma_scalar_width(s[0]);
    }
}

proof fn lemma_scalar_width(c: char)
    ensures
        vstd::utf8::encode_scalar(c as u32).len() == width(c),
{
}

/// A copy of a list of strings.
pub fn copy_strings(v: &Vec<String>) -> (r: Vec<String>)
    ensures
        views(r@) == views(v@),
{
    let mut out: Vec<String> = Vec::new();
    let mut i: usize = 0;
    while i < v.len()
        invariant
            i <= v@.len(),
            views(out@) == views(v@).take(i as int),
        decreases v@.len() - i,
    {
        let ghost before = views(out@);
        let s = v[i].clone();
        assert(s@ == views(v@)[i as int]);
        out.push(s);
        i += 1;
        assert(views(out@) =~= before.push(views(v@)[i - 1]));
        assert(views(out@) =~= views(v@).take(i as int));
    }
    assert(views(out@) =~= views(v@));
    out
}

/// Is this text one of the list's?
pub fn has_text(v: &Vec<String>, s: &str) -> (r: bool)
    ensures
        r == views(v@).contains(s@),
{
    let mut i: usize = 0;
    while i < v.len()
        invariant
            i <= v@.len(),
            forall|k: int| 0 <= k < i ==> views(v@)[k] != s@,
        decreases v@.len() - i,
    {
        if str_eq(v[i].as_str(), s) {
            assert(views(v@)[i as int] == s@);
            return true;
        }
        i += 1;
    }
    false
}

/// Where the text from index `i` on is cut so that it takes at most `n` bytes.
pub open spec fn cut_from(s: Seq<char>, i: int, n: nat) -> int
    decreases s.len() - i,
{
    if 0 <= i < s.len() && width(s[i]) <= n {
        cut_from(s, i + 1, (n - width(s[i])) as nat)
    } else {
        i
    }
}

/// A cut keeps as many whole characters as fit, and no fewer.
pub proof fn lemma_cut_from(s: Seq<char>, i: int, n: nat)
    requires
        0 <= i <= s.len(),
    ensures
        i <= cut_from(s, i, n) <= s.len(),
        byte_len(s.subrange(i, cut_from(s, i, n))) <= n,
        cut_from(s, i, n) < s.len() ==> byte_len(s.subrange(i, cut_from(s, i, n) + 1)) > n,
    decreases s.len() - i,
{
    let e = cut_from(s, i, n);
    if i < s.len() && width(s[i]) <= n {
        let m = (n - width(s[i])) as nat;
        lemma_cut_from(s, i + 1, m);
        let head = seq![s[i]];
        assert(byte_len(head) == width(s[i])) by {
            assert(head.drop_last() =~= Seq::empty());
            assert(byte_len(head.drop_last()) == 0);
        }
        assert(s.subrange(i, e) =~= head + s.subrange(i + 1, e));
        lemma_byte_len_add(head, s.subrange(i + 1, e));
        if e < s.len() {
            assert(s.subrange(i, e + 1) =~= head + s.subrange(i + 1, e + 1));
            lemma_byte_len_add(head, s.subrange(i + 1, e + 1));
        }
    } else {
        assert(s.subrange(i, i) =~= Seq::empty());
        if i < s.len() {
            let head = s.subrange(i, i + 1);
            assert(head.drop_last() =~= Seq::empty());
            assert(byte_len(head) == byte_len(head.drop_last()) + width(head.last()));
        }
    }
}

/// Where the text from index `i` on is cut so that it takes at most `n` bytes.
pub fn cut_at(v: &[char], i: usize, n: usize) -> (r: usize)
    requires
        i <= v@.len(),
    ensures
        r == cut_from(v@, i as int, n as nat),
        i <= r <= v@.len(),
{
    let mut k: usize = i;
    let mut left: usize = n;
    while k < v.len() && char_width(v[k]) <= left
        invariant
            i <= k <= v@.len(),
            cut_from(v@, k as int, left as nat) == cut_from(v@, i as int, n as nat),
        decreases v@.len() - k,
    {
        left = left - char_width(v[k]);
        k += 1;
    }
    k
}

/// The first `n` characters, or all of them when there are fewer.
pub open spec fn first(s: Seq<char>, n: nat) -> Seq<char> {
    if s.len() > n {
        s.take(n as int)
    } else {
        s
    }
}

pub fn first_chars(v: &[char], n: usize) -> (r: Vec<char>)
    ensures
        r@ == first(v@, n as nat),
{
    let end: usize = if v.len() > n {
        n
    } else {
        v.len()
    };
    let r = sub_chars(v, 0, end);
    assert(r@ =~= first(v@, n as nat));
    r
}

/// Lowering turns each of the capital letters into its small one and leaves every other
/// character as it is, one for one.
pub proof fn law_lowering_changes_only_capitals(s: Seq<char>, i: int, k: int)
    requires
        0 <= i < s.len(),
    ensures
        lower_all(s).len() == s.len(),
        0 <= k < 26 && s[i] == "ABCDEFGHIJKLMNOPQRSTUVWXYZ"@[k] ==> lower_all(s)[i]
            == "abcdefghijklmnopqrstuvwxyz"@[k],
        !"ABCDEFGHIJKLMNOPQRSTUVWXYZ"@.contains(s[i]) ==> lower_all(s)[i] == s[i],
{
    reveal_strlit("ABCDEFGHIJKLMNOPQRSTUVWXYZ");
    reveal_strlit("abcdefghijklmnopqrstuvwxyz");
    let capitals = "ABCDEFGHIJKLMNOPQRSTUVWXYZ"@;
    assert(forall|j: int| 0 <= j < 26 ==> (#[trigger] capitals[j]) as u32 == 65 + j);
    if 'A' <= s[i] <= 'Z' {
        let j = s[i] as u32 - 65;
        assert(capitals[j] == s[i]);
    }
}

} // verus!
