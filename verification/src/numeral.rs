//! Numbers as text.
use vstd::prelude::*;
use crate::text::{from_chars, is_digit};

verus! {

/// The digit of value `d`, in lower case past nine.
pub open spec fn digit(d: nat) -> char {
    if d < 10 {
        (0x30 + d) as char
    } else {
        (0x57 + d) as char
    }
}

/// `n` in base ten, without leading zeros.
pub open spec fn decimal(n: nat) -> Seq<char>
    decreases n,
{
    if n < 10 {
        seq![digit(n)]
    } else {
        decimal(n / 10).push(digit(n % 10))
    }
}

/// `n` in base sixteen, in lower case and without leading zeros.
pub open spec fn hex(n: nat) -> Seq<char>
    decreases n,
{
    if n < 16 {
        seq![digit(n)]
    } else {
        hex(n / 16).push(digit(n % 16))
    }
}

/// `n` in base ten, with a minus sign when it is negative.
pub open spec fn signed(n: int) -> Seq<char> {
    if n < 0 {
        seq!['-'] + decimal((-n) as nat)
    } else {
        decimal(n as nat)
    }
}

/// `n` copies of `c`.
pub open spec fn repeat(c: char, n: nat) -> Seq<char> {
    Seq::new(n, |i: int| c)
}

/// `s` with as many `c` in front as it takes to be `n` characters long.
pub open spec fn pad_left(s: Seq<char>, n: nat, c: char) -> Seq<char> {
    if s.len() < n {
        repeat(c, (n - s.len()) as nat) + s
    } else {
        s
    }
}

/// `s` with as many `c` behind it as it takes to be `n` characters long.
pub open spec fn pad_right(s: Seq<char>, n: nat, c: char) -> Seq<char> {
    if s.len() < n {
        s + repeat(c, (n - s.len()) as nat)
    } else {
        s
    }
}

/// `n` in base ten with a comma before every third digit from the right.
pub open spec fn grouped(s: Seq<char>) -> Seq<char>
    decreases s.len(),
{
    if s.len() <= 3 {
        s
    } else {
        grouped(s.take(s.len() - 3)) + seq![','] + s.subrange(s.len() - 3, s.len() as int)
    }
}

pub fn digit_char(d: u32) -> (r: char)
    requires
        d < 16,
    ensures
        r == digit(d as nat),
{
    match d {
        0 => '0', 1 => '1', 2 => '2', 3 => '3', 4 => '4', 5 => '5', 6 => '6', 7 => '7',
        8 => '8', 9 => '9', 10 => 'a', 11 => 'b', 12 => 'c', 13 => 'd', 14 => 'e', _ => 'f',
    }
}

pub fn decimal_chars(n: u128) -> (r: Vec<char>)
    ensures
        r@ == decimal(n as nat),
    decreases n,
{
    let mut out: Vec<char> = if n < 10 {
        Vec::new()
    } else {
        decimal_chars(n / 10)
    };
    out.push(digit_char((n % 10) as u32));
    assert(out@ =~= decimal(n as nat));
    out
}

pub fn hex_chars(n: u128) -> (r: Vec<char>)
    ensures
        r@ == hex(n as nat),
    decreases n,
{
    let mut out: Vec<char> = if n < 16 {
        Vec::new()
    } else {
        hex_chars(n / 16)
    };
    out.push(digit_char((n % 16) as u32));
    assert(out@ =~= hex(n as nat));
    out
}

/// `n` in base ten.
pub fn show(n: u128) -> (r: String)
    ensures
        r@ == decimal(n as nat),
{
    let v = decimal_chars(n);
    from_chars(&v)
}

/// `n` in base ten, for a count.
pub fn show_usize(n: usize) -> (r: String)
    ensures
        r@ == decimal(n as nat),
{
    show(n as u128)
}

/// Append `n` copies of `c`.
pub fn push_repeat(out: &mut Vec<char>, c: char, n: usize)
    ensures
        final(out)@ == old(out)@ + repeat(c, n as nat),
{
    let mut i: usize = 0;
    while i < n
        invariant
            i <= n,
            out@ == old(out)@ + repeat(c, i as nat),
        decreases n - i,
    {
        out.push(c);
        i += 1;
        assert(out@ =~= old(out)@ + repeat(c, i as nat));
    }
    assert(out@ =~= old(out)@ + repeat(c, n as nat));
}

pub fn left_padded(s: &[char], n: usize, c: char) -> (r: Vec<char>)
    ensures
        r@ == pad_left(s@, n as nat, c),
{
    let mut out: Vec<char> = Vec::new();
    if s.len() < n {
        push_repeat(&mut out, c, n - s.len());
    }
    crate::text::push_range(&mut out, s, 0, s.len());
    assert(out@ =~= pad_left(s@, n as nat, c));
    out
}

pub fn right_padded(s: &[char], n: usize, c: char) -> (r: Vec<char>)
    ensures
        r@ == pad_right(s@, n as nat, c),
{
    let mut out: Vec<char> = Vec::new();
    crate::text::push_range(&mut out, s, 0, s.len());
    if s.len() < n {
        push_repeat(&mut out, c, n - s.len());
    }
    assert(out@ =~= pad_right(s@, n as nat, c));
    out
}

/// The value of a run of digits.
pub open spec fn value_of(s: Seq<char>) -> nat
    decreases s.len(),
{
    if s.len() == 0 {
        0
    } else {
        value_of(s.drop_last()) * 10 + (s.last() as u32 - 0x30) as nat
    }
}

/// One or more digits and nothing else.
pub open spec fn all_digits(s: Seq<char>) -> bool {
    s.len() > 0 && forall|i: int| 0 <= i < s.len() ==> is_digit(#[trigger] s[i])
}

/// The digits of a numeral: what is left of it without one leading plus sign.
pub open spec fn unsigned_part(s: Seq<char>) -> Seq<char> {
    if s.len() > 1 && s[0] == '+' {
        s.drop_first()
    } else {
        s
    }
}

/// The whole number that `s` writes, when it writes one no greater than `max`:
/// digits, with at most one plus sign in front.
pub open spec fn parsed(s: Seq<char>, max: nat) -> Option<nat> {
    let d = unsigned_part(s);
    if all_digits(d) && value_of(d) <= max {
        Some(value_of(d))
    } else {
        None
    }
}

/// More digits never make a smaller number.
pub proof fn lemma_value_grows(s: Seq<char>, i: int)
    requires
        0 <= i <= s.len(),
    ensures
        value_of(s.take(i)) <= value_of(s),
    decreases s.len() - i,
{
    if i < s.len() {
        lemma_value_grows(s, i + 1);
        assert(s.take(i + 1).drop_last() =~= s.take(i));
    } else {
        assert(s.take(i) =~= s);
    }
}

/// The whole number that `v` writes, as `str::parse::<u64>` reads it.
pub fn parse_u64(v: &[char]) -> (r: Option<u64>)
    ensures
        match r {
            Some(n) => parsed(v@, u64::MAX as nat) == Some(n as nat),
            None => parsed(v@, u64::MAX as nat) is None,
        },
{
    let start: usize = if v.len() > 1 && v[0] == '+' {
        1
    } else {
        0
    };
    let ghost d = unsigned_part(v@);
    assert(d =~= v@.subrange(start as int, v@.len() as int));
    if v.len() == start {
        return None;
    }
    let mut n: u64 = 0;
    let mut i: usize = start;
    assert(d.take(0) =~= Seq::<char>::empty());
    while i < v.len()
        invariant
            start <= i <= v@.len(),
            start <= 1,
            d == unsigned_part(v@),
            d == v@.subrange(start as int, v@.len() as int),
            n == value_of(d.take(i - start)),
            forall|k: int| 0 <= k < i - start ==> is_digit(#[trigger] d[k]),
        decreases v@.len() - i,
    {
        let c = v[i];
        if !('0' <= c && c <= '9') {
            assert(!is_digit(d[i - start]));
            return None;
        }
        let x: u64 = (c as u32 - 0x30) as u64;
        proof {
            assert(d.take(i + 1 - start).drop_last() =~= d.take(i - start));
            assert(value_of(d.take(i + 1 - start)) == value_of(d.take(i - start)) * 10 + x);
            lemma_value_grows(d, i + 1 - start);
            assert(d[i - start] == c);
        }
        match n.checked_mul(10) {
            Some(m) => match m.checked_add(x) {
                Some(t) => {
                    n = t;
                },
                None => {
                    return None;
                },
            },
            None => {
                return None;
            },
        }
        i += 1;
    }
    assert(d.take(d.len() as int) =~= d);
    Some(n)
}

/// A hexadecimal digit, in either case.
pub open spec fn is_hex_digit(c: char) -> bool {
    is_digit(c) || ('a' <= c <= 'f') || ('A' <= c <= 'F')
}

pub open spec fn hex_digit_value(c: char) -> nat {
    if is_digit(c) {
        (c as u32 - 0x30) as nat
    } else if 'a' <= c <= 'f' {
        (c as u32 - 0x57) as nat
    } else {
        (c as u32 - 0x37) as nat
    }
}

/// The value of a run of hexadecimal digits.
pub open spec fn hex_value_of(s: Seq<char>) -> nat
    decreases s.len(),
{
    if s.len() == 0 {
        0
    } else {
        hex_value_of(s.drop_last()) * 16 + hex_digit_value(s.last())
    }
}

/// One or more hexadecimal digits and nothing else.
pub open spec fn all_hex_digits(s: Seq<char>) -> bool {
    s.len() > 0 && forall|i: int| 0 <= i < s.len() ==> is_hex_digit(#[trigger] s[i])
}

/// The whole number that `s` writes in base sixteen, when it writes one no
/// greater than `max`: digits, with at most one plus sign in front.
pub open spec fn hex_parsed(s: Seq<char>, max: nat) -> Option<nat> {
    let d = unsigned_part(s);
    if all_hex_digits(d) && hex_value_of(d) <= max {
        Some(hex_value_of(d))
    } else {
        None
    }
}

pub proof fn lemma_hex_value_grows(s: Seq<char>, i: int)
    requires
        0 <= i <= s.len(),
    ensures
        hex_value_of(s.take(i)) <= hex_value_of(s),
    decreases s.len() - i,
{
    if i < s.len() {
        lemma_hex_value_grows(s, i + 1);
        assert(s.take(i + 1).drop_last() =~= s.take(i));
    } else {
        assert(s.take(i) =~= s);
    }
}

/// The value of a hexadecimal digit.
pub fn hex_digit(c: char) -> (r: Option<u32>)
    ensures
        match r {
            Some(d) => is_hex_digit(c) && d == hex_digit_value(c) && d < 16,
            None => !is_hex_digit(c),
        },
{
    if '0' <= c && c <= '9' {
        Some(c as u32 - 0x30)
    } else if 'a' <= c && c <= 'f' {
        Some(c as u32 - 0x57)
    } else if 'A' <= c && c <= 'F' {
        Some(c as u32 - 0x37)
    } else {
        None
    }
}

/// The whole number that `v` writes in base sixteen, as `u32::from_str_radix`
/// reads it.
pub fn parse_hex_u32(v: &[char]) -> (r: Option<u32>)
    ensures
        match r {
            Some(n) => hex_parsed(v@, u32::MAX as nat) == Some(n as nat),
            None => hex_parsed(v@, u32::MAX as nat) is None,
        },
{
    let start: usize = if v.len() > 1 && v[0] == '+' {
        1
    } else {
        0
    };
    let ghost d = unsigned_part(v@);
    assert(d =~= v@.subrange(start as int, v@.len() as int));
    if v.len() == start {
        return None;
    }
    let mut n: u32 = 0;
    let mut i: usize = start;
    assert(d.take(0) =~= Seq::<char>::empty());
    while i < v.len()
        invariant
            start <= i <= v@.len(),
            start <= 1,
            d == unsigned_part(v@),
            d == v@.subrange(start as int, v@.len() as int),
            n == hex_value_of(d.take(i - start)),
            forall|k: int| 0 <= k < i - start ==> is_hex_digit(#[trigger] d[k]),
        decreases v@.len() - i,
    {
        let c = v[i];
        match hex_digit(c) {
            None => {
                assert(!is_hex_digit(d[i - start]));
                return None;
            },
            Some(x) => {
                proof {
                    assert(d.take(i + 1 - start).drop_last() =~= d.take(i - start));
                    assert(hex_value_of(d.take(i + 1 - start)) == hex_value_of(d.take(i - start))
                        * 16 + x);
                    lemma_hex_value_grows(d, i + 1 - start);
                    assert(d[i - start] == c);
                }
                let t: u64 = n as u64 * 16 + x as u64;
                if t > 0xFFFF_FFFF {
                    return None;
                }
                n = t as u32;
            },
        }
        i += 1;
    }
    assert(d.take(d.len() as int) =~= d);
    Some(n)
}

// -------------------------------------------------------------------- laws --

/// A number below ten is its digit, and a digit behind a number writes ten times the number
/// and the digit.
pub proof fn law_numbers_are_written_in_tens(n: nat, d: nat)
    requires
        d < 10,
    ensures
        decimal(d) == seq!["0123456789"@[d as int]],
        n > 0 ==> decimal(10 * n + d) == decimal(n).push("0123456789"@[d as int]),
{
    reveal_strlit("0123456789");
    assert(digit(d) == "0123456789"@[d as int]);
    if n > 0 {
        assert((10 * n + d) / 10 == n);
        assert((10 * n + d) % 10 == d);
    }
}

/// A written number has only digits, starts with a zero only where it is zero, and reads
/// back as the number it was, unless that is greater than what is allowed.
pub proof fn law_written_numbers_read_back(n: nat, max: nat)
    ensures
        all_digits(decimal(n)),
        decimal(n)[0] == '0' ==> n == 0,
        parsed(decimal(n), max) == (if n <= max {
            Some(n)
        } else {
            None
        }),
    decreases n,
{
    if n >= 10 {
        law_written_numbers_read_back(n / 10, n);
        let s = decimal(n);
        assert(s.drop_last() =~= decimal(n / 10));
        assert(decimal(n / 10)[0] != '+') by {
            assert(is_digit(decimal(n / 10)[0]));
        }
        assert(value_of(decimal(n / 10)) == n / 10);
        assert(s.last() as u32 - 0x30 == n % 10);
        assert(value_of(s) == n);
        assert forall|i: int| 0 <= i < s.len() implies is_digit(#[trigger] s[i]) by {
            if i < s.len() - 1 {
                assert(s[i] == decimal(n / 10)[i]);
            }
        }
        assert(s[0] == decimal(n / 10)[0]);
    } else {
        let s = decimal(n);
        assert(s.drop_last() =~= Seq::<char>::empty());
        assert(value_of(Seq::<char>::empty()) == 0);
        assert(value_of(s) == n);
        assert(is_digit(s[0]));
    }
}

/// A number written in base sixteen reads back as the number it was.
pub proof fn law_hexadecimal_reads_back(n: nat, max: nat)
    ensures
        all_hex_digits(hex(n)),
        hex_parsed(hex(n), max) == (if n <= max {
            Some(n)
        } else {
            None
        }),
    decreases n,
{
    let s = hex(n);
    let d = n % 16;
    assert(is_hex_digit(digit(d)) && hex_digit_value(digit(d)) == d);
    if n >= 16 {
        law_hexadecimal_reads_back(n / 16, n);
        assert(s.drop_last() =~= hex(n / 16));
        assert(hex(n / 16)[0] != '+') by {
            assert(is_hex_digit(hex(n / 16)[0]));
        }
        assert(hex_value_of(hex(n / 16)) == n / 16);
        assert(hex_value_of(s) == n);
        assert forall|i: int| 0 <= i < s.len() implies is_hex_digit(#[trigger] s[i]) by {
            if i < s.len() - 1 {
                assert(s[i] == hex(n / 16)[i]);
            }
        }
        assert(s[0] == hex(n / 16)[0]);
    } else {
        assert(s.drop_last() =~= Seq::<char>::empty());
        assert(hex_value_of(Seq::<char>::empty()) == 0);
        assert(hex_value_of(s) == n);
        assert(is_hex_digit(s[0]));
    }
}

/// Grouping puts a comma before every third character from the end and nothing else: the
/// character with `k` behind it keeps its place among those that are left.
pub proof fn law_grouping_only_puts_commas(s: Seq<char>, k: int)
    requires
        s.len() > 0,
        0 <= k < grouped(s).len(),
    ensures
        grouped(s).len() == s.len() + (s.len() - 1) / 3,
        grouped(s)[grouped(s).len() - 1 - k] == (if k % 4 == 3 {
            ','
        } else {
            s[s.len() - 1 - (k - k / 4)]
        }),
    decreases s.len(),
{
    if s.len() > 3 {
        let front = s.take(s.len() - 3);
        if k >= 4 {
            law_grouping_only_puts_commas(front, k - 4);
            assert((k - 4) / 4 == k / 4 - 1);
        } else {
            lemma_grouped_is_longer(front);
            law_grouping_only_puts_commas(front, 0);
        }
    }
}

proof fn lemma_grouped_is_longer(s: Seq<char>)
    ensures
        grouped(s).len() >= s.len(),
    decreases s.len(),
{
    if s.len() > 3 {
        lemma_grouped_is_longer(s.take(s.len() - 3));
    }
}

/// Padding makes a short text as long as is asked, with the text whole at its end or at its
/// start, and leaves a long one alone.
pub proof fn law_padding_only_fills(s: Seq<char>, n: nat, c: char)
    ensures
        pad_left(s, n, c).len() == (if s.len() < n {
            n
        } else {
            s.len()
        }),
        pad_right(s, n, c).len() == pad_left(s, n, c).len(),
        pad_left(s, n, c).skip(pad_left(s, n, c).len() - s.len()) == s,
        pad_right(s, n, c).take(s.len() as int) == s,
        forall|i: int| 0 <= i < n - s.len() ==> #[trigger] pad_left(s, n, c)[i] == c,
        forall|i: int| s.len() <= i < n ==> #[trigger] pad_right(s, n, c)[i] == c,
{
    assert(pad_left(s, n, c).skip(pad_left(s, n, c).len() - s.len()) =~= s);
    assert(pad_right(s, n, c).take(s.len() as int) =~= s);
}

} // verus!
