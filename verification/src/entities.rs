//! Character references in markup.
use vstd::prelude::*;
use vstd::string::*;
use crate::numeral::{
    decimal, digit, hex_parsed, law_written_numbers_read_back, parse_hex_u32, parse_u64, parsed,
};
use crate::scan::{
    contains, holds, lemma_replace_absent, lemma_replace_run, match_at, matches_at, replace,
    replace_all,
};
use crate::text::{is_digit, is_scalar_value, sub_chars};

verus! {

/// The named references that appear in body text, with what they stand for.
///
/// `&amp;` is not among them. It comes last: decoding it before the letters would turn
/// the literal text `&eacute;`, written `&amp;eacute;`, into an accented letter.
pub open spec fn named() -> Seq<(Seq<char>, Seq<char>)> {
    seq![
        ("&nbsp;"@, " "@),
        ("&lt;"@, "<"@),
        ("&gt;"@, ">"@),
        ("&quot;"@, "\""@),
        ("&#39;"@, "'"@),
        ("&apos;"@, "'"@),
        ("&mdash;"@, "—"@),
        ("&ndash;"@, "–"@),
        ("&hellip;"@, "…"@),
        ("&laquo;"@, "«"@),
        ("&raquo;"@, "»"@),
        ("&middot;"@, "·"@),
        ("&iexcl;"@, "¡"@),
        ("&iquest;"@, "¿"@),
        ("&deg;"@, "°"@),
        ("&sect;"@, "§"@),
        ("&para;"@, "¶"@),
        ("&euro;"@, "€"@),
        ("&pound;"@, "£"@),
        ("&copy;"@, "©"@),
        ("&reg;"@, "®"@),
        ("&trade;"@, "™"@),
        ("&bull;"@, "•"@),
        ("&dagger;"@, "†"@),
        ("&szlig;"@, "ß"@),
        ("&times;"@, "×"@),
        ("&divide;"@, "÷"@),
        ("&plusmn;"@, "±"@),
        ("&agrave;"@, "à"@),
        ("&aacute;"@, "á"@),
        ("&acirc;"@, "â"@),
        ("&atilde;"@, "ã"@),
        ("&auml;"@, "ä"@),
        ("&aring;"@, "å"@),
        ("&ccedil;"@, "ç"@),
        ("&egrave;"@, "è"@),
        ("&eacute;"@, "é"@),
        ("&ecirc;"@, "ê"@),
        ("&euml;"@, "ë"@),
        ("&igrave;"@, "ì"@),
        ("&iacute;"@, "í"@),
        ("&icirc;"@, "î"@),
        ("&iuml;"@, "ï"@),
        ("&ntilde;"@, "ñ"@),
        ("&ograve;"@, "ò"@),
        ("&oacute;"@, "ó"@),
        ("&ocirc;"@, "ô"@),
        ("&otilde;"@, "õ"@),
        ("&ouml;"@, "ö"@),
        ("&ugrave;"@, "ù"@),
        ("&uacute;"@, "ú"@),
        ("&ucirc;"@, "û"@),
        ("&uuml;"@, "ü"@),
        ("&yacute;"@, "ý"@),
        ("&yuml;"@, "ÿ"@),
        ("&Agrave;"@, "À"@),
        ("&Aacute;"@, "Á"@),
        ("&Acirc;"@, "Â"@),
        ("&Atilde;"@, "Ã"@),
        ("&Auml;"@, "Ä"@),
        ("&Aring;"@, "Å"@),
        ("&Ccedil;"@, "Ç"@),
        ("&Egrave;"@, "È"@),
        ("&Eacute;"@, "É"@),
        ("&Ecirc;"@, "Ê"@),
        ("&Euml;"@, "Ë"@),
        ("&Igrave;"@, "Ì"@),
        ("&Iacute;"@, "Í"@),
        ("&Icirc;"@, "Î"@),
        ("&Iuml;"@, "Ï"@),
        ("&Ntilde;"@, "Ñ"@),
        ("&Ograve;"@, "Ò"@),
        ("&Oacute;"@, "Ó"@),
        ("&Ocirc;"@, "Ô"@),
        ("&Otilde;"@, "Õ"@),
        ("&Ouml;"@, "Ö"@),
        ("&Ugrave;"@, "Ù"@),
        ("&Uacute;"@, "Ú"@),
        ("&Ucirc;"@, "Û"@),
        ("&Uuml;"@, "Ü"@),
        ("&Yacute;"@, "Ý"@),
    ]
}

/// The texts of a list of pairs.
pub open spec fn pair_views(v: Seq<(&'static str, &'static str)>) -> Seq<(Seq<char>, Seq<char>)> {
    Seq::new(v.len(), |i: int| (v[i].0@, v[i].1@))
}

fn named_entities() -> (r: Vec<(&'static str, &'static str)>)
    ensures
        pair_views(r@) == named(),
{
    let r = vec![
        ("&nbsp;", " "),
        ("&lt;", "<"),
        ("&gt;", ">"),
        ("&quot;", "\""),
        ("&#39;", "'"),
        ("&apos;", "'"),
        ("&mdash;", "—"),
        ("&ndash;", "–"),
        ("&hellip;", "…"),
        ("&laquo;", "«"),
        ("&raquo;", "»"),
        ("&middot;", "·"),
        ("&iexcl;", "¡"),
        ("&iquest;", "¿"),
        ("&deg;", "°"),
        ("&sect;", "§"),
        ("&para;", "¶"),
        ("&euro;", "€"),
        ("&pound;", "£"),
        ("&copy;", "©"),
        ("&reg;", "®"),
        ("&trade;", "™"),
        ("&bull;", "•"),
        ("&dagger;", "†"),
        ("&szlig;", "ß"),
        ("&times;", "×"),
        ("&divide;", "÷"),
        ("&plusmn;", "±"),
        ("&agrave;", "à"),
        ("&aacute;", "á"),
        ("&acirc;", "â"),
        ("&atilde;", "ã"),
        ("&auml;", "ä"),
        ("&aring;", "å"),
        ("&ccedil;", "ç"),
        ("&egrave;", "è"),
        ("&eacute;", "é"),
        ("&ecirc;", "ê"),
        ("&euml;", "ë"),
        ("&igrave;", "ì"),
        ("&iacute;", "í"),
        ("&icirc;", "î"),
        ("&iuml;", "ï"),
        ("&ntilde;", "ñ"),
        ("&ograve;", "ò"),
        ("&oacute;", "ó"),
        ("&ocirc;", "ô"),
        ("&otilde;", "õ"),
        ("&ouml;", "ö"),
        ("&ugrave;", "ù"),
        ("&uacute;", "ú"),
        ("&ucirc;", "û"),
        ("&uuml;", "ü"),
        ("&yacute;", "ý"),
        ("&yuml;", "ÿ"),
        ("&Agrave;", "À"),
        ("&Aacute;", "Á"),
        ("&Acirc;", "Â"),
        ("&Atilde;", "Ã"),
        ("&Auml;", "Ä"),
        ("&Aring;", "Å"),
        ("&Ccedil;", "Ç"),
        ("&Egrave;", "È"),
        ("&Eacute;", "É"),
        ("&Ecirc;", "Ê"),
        ("&Euml;", "Ë"),
        ("&Igrave;", "Ì"),
        ("&Iacute;", "Í"),
        ("&Icirc;", "Î"),
        ("&Iuml;", "Ï"),
        ("&Ntilde;", "Ñ"),
        ("&Ograve;", "Ò"),
        ("&Oacute;", "Ó"),
        ("&Ocirc;", "Ô"),
        ("&Otilde;", "Õ"),
        ("&Ouml;", "Ö"),
        ("&Ugrave;", "Ù"),
        ("&Uacute;", "Ú"),
        ("&Ucirc;", "Û"),
        ("&Uuml;", "Ü"),
        ("&Yacute;", "Ý"),
    ];
    assert(pair_views(r@) =~= named());
    r
}

/// The text with the named references from the `k`-th on decoded, one name after
/// the other.
pub open spec fn decode_named(s: Seq<char>, k: int) -> Seq<char>
    decreases named().len() - k,
{
    if k < 0 || k >= named().len() {
        s
    } else {
        decode_named(replace(s, named()[k].0, named()[k].1), k + 1)
    }
}

/// The character that the body of a numeric reference writes: hexadecimal after
/// an `x`, else decimal. A body that writes no character gives nothing.
pub open spec fn referenced(body: Seq<char>) -> Option<char> {
    let hex = if body.len() > 0 && body[0] == 'x' {
        hex_parsed(body.drop_first(), u32::MAX as nat)
    } else {
        None
    };
    let n = match hex {
        Some(n) => Some(n),
        None => parsed(body, u32::MAX as nat),
    };
    match n {
        Some(n) => if is_scalar_value(n as u32) {
            Some((n as u32) as char)
        } else {
            None
        },
        None => None,
    }
}

/// So many ampersands.
pub open spec fn ampersands(n: nat) -> Seq<char> {
    Seq::new(n, |i: int| '&')
}

/// The first semicolon from `i` on that does not end an escaped ampersand.
pub open spec fn reference_end(s: Seq<char>, i: int) -> Option<int>
    decreases s.len() - i,
{
    if i < 0 || i >= s.len() {
        None
    } else if s[i] == ';' && !match_at(s, i - 4, "&amp;"@) {
        Some(i)
    } else {
        reference_end(s, i + 1)
    }
}

/// The text from index `i` on, behind `amps` plain ampersands, with its numeric references
/// and its escaped ampersands decoded from left to right. What was decoded is not looked at
/// again. A reference to no character is dropped, and an unfinished one stays.
pub open spec fn references_from(s: Seq<char>, i: int, amps: nat) -> Seq<char>
    decreases s.len() - i,
    when 0 <= i
    via references_from_moves
{
    if i >= s.len() {
        ampersands(amps)
    } else if match_at(s, i, "&amp;"@) {
        ampersands(amps) + seq!['&'] + references_from(s, i + 5, 0)
    } else if s[i] == '&' {
        references_from(s, i + 1, amps + 1)
    } else if s[i] == '#' && amps > 0 && reference_end(s, i + 1) is Some {
        let end = reference_end(s, i + 1)->0;
        match referenced(s.subrange(i + 1, end)) {
            Some(c) => ampersands((amps - 1) as nat) + seq![c] + references_from(s, end + 1, 0),
            None => references_from(s, end + 1, (amps - 1) as nat),
        }
    } else {
        ampersands(amps) + seq![s[i]] + references_from(s, i + 1, 0)
    }
}

proof fn lemma_reference_end(s: Seq<char>, i: int)
    ensures
        reference_end(s, i) matches Some(end) ==> i <= end < s.len(),
    decreases s.len() - i,
{
    if 0 <= i < s.len() {
        lemma_reference_end(s, i + 1);
    }
}

/// Where no reference ends from some place on, none ends later.
proof fn lemma_no_end(s: Seq<char>, i: int, j: int)
    requires
        0 <= i <= j,
        reference_end(s, i) is None,
    ensures
        reference_end(s, j) is None,
    decreases j - i,
{
    if i < j && i < s.len() {
        lemma_no_end(s, i + 1, j);
    }
}

#[via_fn]
proof fn references_from_moves(s: Seq<char>, i: int, amps: nat) {
    reveal_strlit("&amp;");
    lemma_reference_end(s, i + 1);
}

/// Where the reference ends whose body starts at `from`.
fn find_end(v: &[char], from: usize) -> (r: Option<usize>)
    requires
        from <= v@.len(),
    ensures
        match r {
            Some(end) => reference_end(v@, from as int) == Some(end as int) && from <= end
                < v@.len(),
            None => reference_end(v@, from as int) is None,
        },
{
    let mut i: usize = from;
    while i < v.len()
        invariant
            from <= i <= v@.len(),
            reference_end(v@, i as int) == reference_end(v@, from as int),
        decreases v@.len() - i,
    {
        if v[i] == ';' && !(i >= 4 && matches_at(v, i - 4, "&amp;")) {
            return Some(i);
        }
        i += 1;
    }
    None
}

fn push_ampersands(out: &mut Vec<char>, n: usize)
    ensures
        final(out)@ == old(out)@ + ampersands(n as nat),
{
    let ghost before = out@;
    let mut i: usize = 0;
    assert(before + ampersands(0) =~= before);
    while i < n
        invariant
            i <= n,
            out@ == before + ampersands(i as nat),
        decreases n - i,
    {
        out.push('&');
        i += 1;
        assert(out@ =~= before + ampersands(i as nat));
    }
}

/// The text with its character references decoded, each once: the names first, then the
/// numbers and the ampersands.
pub open spec fn decoded(s: Seq<char>) -> Seq<char> {
    references_from(decode_named(s, 0), 0, 0)
}

fn reference(body: &[char]) -> (r: Option<char>)
    ensures
        r == referenced(body@),
{
    let mut n: Option<u32> = None;
    if body.len() > 0 && body[0] == 'x' {
        let digits = sub_chars(body, 1, body.len());
        assert(digits@ =~= body@.drop_first());
        n = parse_hex_u32(&digits);
    }
    if n.is_none() {
        n = match parse_u64(body) {
            Some(m) => if m <= 0xFFFF_FFFF {
                Some(m as u32)
            } else {
                None
            },
            None => None,
        };
    }
    match n {
        Some(m) => char::from_u32(m),
        None => None,
    }
}

/// Decode the character references that appear in body text.
pub fn decode_entities(v: &[char]) -> (r: Vec<char>)
    ensures
        r@ == decoded(v@),
{
    let table = named_entities();
    let mut out = sub_chars(v, 0, v.len());
    assert(out@ =~= v@);
    let mut k: usize = 0;
    while k < table.len()
        invariant
            k <= table@.len(),
            pair_views(table@) == named(),
            decode_named(out@, k as int) == decode_named(v@, 0),
        decreases table@.len() - k,
    {
        assert(named()[k as int] == (table@[k as int].0@, table@[k as int].1@));
        if contains(&out, table[k].0) {
            out = replace_all(&out, table[k].0, table[k].1);
        } else {
            proof {
                lemma_replace_absent(out@, 0, named()[k as int].0, named()[k as int].1);
                assert(out@.subrange(0, out@.len() as int) =~= out@);
            }
        }
        k += 1;
    }
    let text = out;
    let mut out: Vec<char> = Vec::new();
    let mut pos: usize = 0;
    let mut amps: usize = 0;
    let mut ends: bool = true;
    proof {
        reveal_strlit("&amp;");
        assert(out@ + references_from(text@, 0, 0) =~= decoded(v@));
    }
    while pos < text.len()
        invariant
            pos <= text@.len(),
            amps <= pos,
            "&amp;"@.len() == 5,
            out@ + references_from(text@, pos as int, amps as nat) == decoded(v@),
            !ends ==> reference_end(text@, pos as int) is None,
        decreases text@.len() - pos,
    {
        let ghost before = out@;
        let ghost at = pos as int;
        proof {
            if !ends {
                lemma_no_end(text@, at, at + 1);
            }
        }
        if matches_at(&text, pos, "&amp;") {
            push_ampersands(&mut out, amps);
            out.push('&');
            proof {
                if !ends {
                    lemma_no_end(text@, at, at + 5);
                }
                let rest = references_from(text@, at + 5, 0);
                assert(before + (ampersands(amps as nat) + seq!['&'] + rest) =~= out@ + rest);
            }
            amps = 0;
            pos += 5;
        } else if text[pos] == '&' {
            amps += 1;
            pos += 1;
        } else {
            let end = if text[pos] == '#' && amps > 0 && ends {
                find_end(&text, pos + 1)
            } else {
                None
            };
            match end {
                Some(end) => {
                    let body = sub_chars(&text, pos + 1, end);
                    amps -= 1;
                    match reference(&body) {
                        Some(c) => {
                            push_ampersands(&mut out, amps);
                            out.push(c);
                            proof {
                                let rest = references_from(text@, end + 1, 0);
                                assert(before + (ampersands(amps as nat) + seq![c] + rest) =~= out@
                                    + rest);
                            }
                            amps = 0;
                        },
                        None => {},
                    }
                    pos = end + 1;
                },
                None => {
                    let c = text[pos];
                    if c == '#' && amps > 0 {
                        ends = false;
                    }
                    push_ampersands(&mut out, amps);
                    out.push(c);
                    proof {
                        let rest = references_from(text@, at + 1, 0);
                        assert(before + (ampersands(amps as nat) + seq![c] + rest) =~= out@ + rest);
                    }
                    amps = 0;
                    pos += 1;
                },
            }
        }
    }
    push_ampersands(&mut out, amps);
    out
}

// ------------------------------------------------------------------- laws --

/// Every name opens with an ampersand, and none goes on as `&am`.
proof fn lemma_names(k: int)
    requires
        0 <= k < named().len(),
    ensures
        named()[k].0.len() >= 4,
        named()[k].0[0] == '&',
        !(named()[k].0[1] == 'a' && named()[k].0[2] == 'm'),
{
    reveal_strlit("&nbsp;");
    reveal_strlit("&lt;");
    reveal_strlit("&gt;");
    reveal_strlit("&quot;");
    reveal_strlit("&#39;");
    reveal_strlit("&apos;");
    reveal_strlit("&mdash;");
    reveal_strlit("&ndash;");
    reveal_strlit("&hellip;");
    reveal_strlit("&laquo;");
    reveal_strlit("&raquo;");
    reveal_strlit("&middot;");
    reveal_strlit("&iexcl;");
    reveal_strlit("&iquest;");
    reveal_strlit("&deg;");
    reveal_strlit("&sect;");
    reveal_strlit("&para;");
    reveal_strlit("&euro;");
    reveal_strlit("&pound;");
    reveal_strlit("&copy;");
    reveal_strlit("&reg;");
    reveal_strlit("&trade;");
    reveal_strlit("&bull;");
    reveal_strlit("&dagger;");
    reveal_strlit("&szlig;");
    reveal_strlit("&times;");
    reveal_strlit("&divide;");
    reveal_strlit("&plusmn;");
    reveal_strlit("&agrave;");
    reveal_strlit("&aacute;");
    reveal_strlit("&acirc;");
    reveal_strlit("&atilde;");
    reveal_strlit("&auml;");
    reveal_strlit("&aring;");
    reveal_strlit("&ccedil;");
    reveal_strlit("&egrave;");
    reveal_strlit("&eacute;");
    reveal_strlit("&ecirc;");
    reveal_strlit("&euml;");
    reveal_strlit("&igrave;");
    reveal_strlit("&iacute;");
    reveal_strlit("&icirc;");
    reveal_strlit("&iuml;");
    reveal_strlit("&ntilde;");
    reveal_strlit("&ograve;");
    reveal_strlit("&oacute;");
    reveal_strlit("&ocirc;");
    reveal_strlit("&otilde;");
    reveal_strlit("&ouml;");
    reveal_strlit("&ugrave;");
    reveal_strlit("&uacute;");
    reveal_strlit("&ucirc;");
    reveal_strlit("&uuml;");
    reveal_strlit("&yacute;");
    reveal_strlit("&yuml;");
    reveal_strlit("&Agrave;");
    reveal_strlit("&Aacute;");
    reveal_strlit("&Acirc;");
    reveal_strlit("&Atilde;");
    reveal_strlit("&Auml;");
    reveal_strlit("&Aring;");
    reveal_strlit("&Ccedil;");
    reveal_strlit("&Egrave;");
    reveal_strlit("&Eacute;");
    reveal_strlit("&Ecirc;");
    reveal_strlit("&Euml;");
    reveal_strlit("&Igrave;");
    reveal_strlit("&Iacute;");
    reveal_strlit("&Icirc;");
    reveal_strlit("&Iuml;");
    reveal_strlit("&Ntilde;");
    reveal_strlit("&Ograve;");
    reveal_strlit("&Oacute;");
    reveal_strlit("&Ocirc;");
    reveal_strlit("&Otilde;");
    reveal_strlit("&Ouml;");
    reveal_strlit("&Ugrave;");
    reveal_strlit("&Uacute;");
    reveal_strlit("&Ucirc;");
    reveal_strlit("&Uuml;");
    reveal_strlit("&Yacute;");
}

/// Nothing is decoded of a text without ampersands.
proof fn lemma_no_names(s: Seq<char>, k: int)
    requires
        !s.contains('&'),
        0 <= k <= named().len(),
    ensures
        decode_named(s, k) == s,
    decreases named().len() - k,
{
    if k < named().len() {
        lemma_names(k);
        let p = named()[k].0;
        if holds(s, p) {
            let i = choose|i: int| match_at(s, i, p);
            assert(s.subrange(i, i + p.len())[0] == s[i]);
        }
        lemma_replace_absent(s, 0, p, named()[k].1);
        assert(s.subrange(0, s.len() as int) =~= s);
        lemma_no_names(s, k + 1);
    }
}

/// From a place behind its last ampersand a text stays as it is.
proof fn lemma_no_references(s: Seq<char>, i: int)
    requires
        0 <= i <= s.len(),
        forall|k: int| i <= k < s.len() ==> #[trigger] s[k] != '&',
    ensures
        references_from(s, i, 0) == s.subrange(i, s.len() as int),
    decreases s.len() - i,
{
    if i < s.len() {
        reveal_strlit("&amp;");
        if match_at(s, i, "&amp;"@) {
            assert(s.subrange(i, i + 5)[0] == s[i]);
        }
        lemma_no_references(s, i + 1);
        assert(ampersands(0) + seq![s[i]] + s.subrange(i + 1, s.len() as int) =~= s.subrange(
            i,
            s.len() as int,
        ));
    } else {
        assert(references_from(s, i, 0) =~= s.subrange(i, s.len() as int));
    }
}

/// A text without ampersands has no references: it stays as it is.
pub proof fn law_plain_text_is_unchanged(s: Seq<char>)
    requires
        !s.contains('&'),
    ensures
        decoded(s) == s,
{
    lemma_no_names(s, 0);
    lemma_no_references(s, 0);
    assert(s.subrange(0, s.len() as int) =~= s);
}

/// Where the only ampersand of `a + "&amp;" + t` stands.
proof fn lemma_one_ampersand(a: Seq<char>, t: Seq<char>, i: int)
    requires
        !a.contains('&'),
        !t.contains('&'),
        0 <= i < (a + "&amp;"@ + t).len(),
        (a + "&amp;"@ + t)[i] == '&',
    ensures
        i == a.len(),
{
    reveal_strlit("&amp;");
    if i < a.len() {
        assert(a[i] == '&');
    } else if i >= a.len() + 5 {
        assert(t[i - a.len() - 5] == '&');
    }
}

proof fn lemma_names_pass(a: Seq<char>, t: Seq<char>, k: int)
    requires
        !a.contains('&'),
        !t.contains('&'),
        0 <= k <= named().len(),
    ensures
        decode_named(a + "&amp;"@ + t, k) == a + "&amp;"@ + t,
    decreases named().len() - k,
{
    let s = a + "&amp;"@ + t;
    if k < named().len() {
        lemma_names(k);
        let p = named()[k].0;
        if holds(s, p) {
            let i = choose|i: int| match_at(s, i, p);
            let m = s.subrange(i, i + p.len());
            assert(m[0] == s[i] && m[1] == s[i + 1] && m[2] == s[i + 2]);
            lemma_one_ampersand(a, t, i);
            reveal_strlit("&amp;");
            assert(s[i + 1] == 'a' && s[i + 2] == 'm');
        }
        lemma_replace_absent(s, 0, p, named()[k].1);
        assert(s.subrange(0, s.len() as int) =~= s);
        lemma_names_pass(a, t, k + 1);
    }
}

proof fn lemma_ampersand_decodes(a: Seq<char>, t: Seq<char>, i: int)
    requires
        !a.contains('&'),
        !t.contains('&'),
        0 <= i <= a.len(),
    ensures
        references_from(a + "&amp;"@ + t, i, 0) == a.subrange(i, a.len() as int) + "&"@ + t,
    decreases a.len() - i,
{
    let s = a + "&amp;"@ + t;
    reveal_strlit("&amp;");
    reveal_strlit("&");
    if i < a.len() {
        assert(s[i] == a[i] && a[i] != '&');
        if match_at(s, i, "&amp;"@) {
            assert(s.subrange(i, i + 5)[0] == s[i]);
        }
        lemma_ampersand_decodes(a, t, i + 1);
        assert(references_from(s, i, 0) =~= a.subrange(i, a.len() as int) + "&"@ + t);
    } else {
        assert(s.subrange(i, i + 5) =~= "&amp;"@);
        assert forall|k: int| i + 5 <= k < s.len() implies #[trigger] s[k] != '&' by {
            assert(s[k] == t[k - i - 5]);
        }
        lemma_no_references(s, i + 5);
        assert(s.subrange(i + 5, s.len() as int) =~= t);
        assert(a.subrange(i, a.len() as int) + "&"@ + t =~= ampersands(0) + seq!['&'] + t);
    }
}

/// What is escaped twice is decoded once: an escaped ampersand comes out as one, and
/// what follows it is read neither as a name nor as a number.
pub proof fn law_an_escaped_ampersand_decodes_once(a: Seq<char>, t: Seq<char>)
    requires
        !a.contains('&'),
        !t.contains('&'),
    ensures
        decoded(a + "&amp;"@ + t) == a + "&"@ + t,
{
    lemma_names_pass(a, t, 0);
    lemma_ampersand_decodes(a, t, 0);
    assert(a.subrange(0, a.len() as int) =~= a);
}

/// Every name ends in its only semicolon, and holds one ampersand, the first character.
proof fn lemma_name_shape(k: int, i: int)
    requires
        0 <= k < named().len(),
        0 < i < named()[k].0.len(),
    ensures
        named()[k].0[i] == ';' <==> i == named()[k].0.len() - 1,
        named()[k].0[i] != '&',
{
    reveal_strlit("&nbsp;");
    reveal_strlit("&lt;");
    reveal_strlit("&gt;");
    reveal_strlit("&quot;");
    reveal_strlit("&#39;");
    reveal_strlit("&apos;");
    reveal_strlit("&mdash;");
    reveal_strlit("&ndash;");
    reveal_strlit("&hellip;");
    reveal_strlit("&laquo;");
    reveal_strlit("&raquo;");
    reveal_strlit("&middot;");
    reveal_strlit("&iexcl;");
    reveal_strlit("&iquest;");
    reveal_strlit("&deg;");
    reveal_strlit("&sect;");
    reveal_strlit("&para;");
    reveal_strlit("&euro;");
    reveal_strlit("&pound;");
    reveal_strlit("&copy;");
    reveal_strlit("&reg;");
    reveal_strlit("&trade;");
    reveal_strlit("&bull;");
    reveal_strlit("&dagger;");
    reveal_strlit("&szlig;");
    reveal_strlit("&times;");
    reveal_strlit("&divide;");
    reveal_strlit("&plusmn;");
    reveal_strlit("&agrave;");
    reveal_strlit("&aacute;");
    reveal_strlit("&acirc;");
    reveal_strlit("&atilde;");
    reveal_strlit("&auml;");
    reveal_strlit("&aring;");
    reveal_strlit("&ccedil;");
    reveal_strlit("&egrave;");
    reveal_strlit("&eacute;");
    reveal_strlit("&ecirc;");
    reveal_strlit("&euml;");
    reveal_strlit("&igrave;");
    reveal_strlit("&iacute;");
    reveal_strlit("&icirc;");
    reveal_strlit("&iuml;");
    reveal_strlit("&ntilde;");
    reveal_strlit("&ograve;");
    reveal_strlit("&oacute;");
    reveal_strlit("&ocirc;");
    reveal_strlit("&otilde;");
    reveal_strlit("&ouml;");
    reveal_strlit("&ugrave;");
    reveal_strlit("&uacute;");
    reveal_strlit("&ucirc;");
    reveal_strlit("&uuml;");
    reveal_strlit("&yacute;");
    reveal_strlit("&yuml;");
    reveal_strlit("&Agrave;");
    reveal_strlit("&Aacute;");
    reveal_strlit("&Acirc;");
    reveal_strlit("&Atilde;");
    reveal_strlit("&Auml;");
    reveal_strlit("&Aring;");
    reveal_strlit("&Ccedil;");
    reveal_strlit("&Egrave;");
    reveal_strlit("&Eacute;");
    reveal_strlit("&Ecirc;");
    reveal_strlit("&Euml;");
    reveal_strlit("&Igrave;");
    reveal_strlit("&Iacute;");
    reveal_strlit("&Icirc;");
    reveal_strlit("&Iuml;");
    reveal_strlit("&Ntilde;");
    reveal_strlit("&Ograve;");
    reveal_strlit("&Oacute;");
    reveal_strlit("&Ocirc;");
    reveal_strlit("&Otilde;");
    reveal_strlit("&Ouml;");
    reveal_strlit("&Ugrave;");
    reveal_strlit("&Uacute;");
    reveal_strlit("&Ucirc;");
    reveal_strlit("&Uuml;");
    reveal_strlit("&Yacute;");
}

/// No name stands for an ampersand.
proof fn lemma_meanings(k: int)
    requires
        0 <= k < named().len(),
    ensures
        named()[k].1.len() == 1,
        named()[k].1[0] != '&',
{
    reveal_strlit(" ");
    reveal_strlit("<");
    reveal_strlit(">");
    reveal_strlit("\"");
    reveal_strlit("'");
    reveal_strlit("—");
    reveal_strlit("–");
    reveal_strlit("…");
    reveal_strlit("«");
    reveal_strlit("»");
    reveal_strlit("·");
    reveal_strlit("¡");
    reveal_strlit("¿");
    reveal_strlit("°");
    reveal_strlit("§");
    reveal_strlit("¶");
    reveal_strlit("€");
    reveal_strlit("£");
    reveal_strlit("©");
    reveal_strlit("®");
    reveal_strlit("™");
    reveal_strlit("•");
    reveal_strlit("†");
    reveal_strlit("ß");
    reveal_strlit("×");
    reveal_strlit("÷");
    reveal_strlit("±");
    reveal_strlit("à");
    reveal_strlit("á");
    reveal_strlit("â");
    reveal_strlit("ã");
    reveal_strlit("ä");
    reveal_strlit("å");
    reveal_strlit("ç");
    reveal_strlit("è");
    reveal_strlit("é");
    reveal_strlit("ê");
    reveal_strlit("ë");
    reveal_strlit("ì");
    reveal_strlit("í");
    reveal_strlit("î");
    reveal_strlit("ï");
    reveal_strlit("ñ");
    reveal_strlit("ò");
    reveal_strlit("ó");
    reveal_strlit("ô");
    reveal_strlit("õ");
    reveal_strlit("ö");
    reveal_strlit("ù");
    reveal_strlit("ú");
    reveal_strlit("û");
    reveal_strlit("ü");
    reveal_strlit("ý");
    reveal_strlit("ÿ");
    reveal_strlit("À");
    reveal_strlit("Á");
    reveal_strlit("Â");
    reveal_strlit("Ã");
    reveal_strlit("Ä");
    reveal_strlit("Å");
    reveal_strlit("Ç");
    reveal_strlit("È");
    reveal_strlit("É");
    reveal_strlit("Ê");
    reveal_strlit("Ë");
    reveal_strlit("Ì");
    reveal_strlit("Í");
    reveal_strlit("Î");
    reveal_strlit("Ï");
    reveal_strlit("Ñ");
    reveal_strlit("Ò");
    reveal_strlit("Ó");
    reveal_strlit("Ô");
    reveal_strlit("Õ");
    reveal_strlit("Ö");
    reveal_strlit("Ù");
    reveal_strlit("Ú");
    reveal_strlit("Û");
    reveal_strlit("Ü");
    reveal_strlit("Ý");
}

/// Two names that fit at one place are the same.
proof fn lemma_one_name_fits(a: Seq<char>, t: Seq<char>, j: int, k: int, i: int)
    requires
        !a.contains('&'),
        !t.contains('&'),
        0 <= j < named().len(),
        0 <= k < named().len(),
        match_at(a + named()[k].0 + t, i, named()[j].0),
    ensures
        i == a.len(),
        named()[j].0 == named()[k].0,
{
    let n = named()[k].0;
    let p = named()[j].0;
    let s = a + n + t;
    lemma_names(j);
    lemma_names(k);
    let m = s.subrange(i, i + p.len());
    assert(m[0] == s[i]);
    if i < a.len() {
        assert(a[i] == '&');
    } else if i >= a.len() + n.len() {
        assert(t[i - a.len() - n.len()] == '&');
    } else if i > a.len() {
        lemma_name_shape(k, i - a.len());
        assert(s[i] == n[i - a.len()]);
    }
    assert(i == a.len());
    if p.len() > n.len() {
        lemma_name_shape(k, n.len() - 1);
        lemma_name_shape(j, n.len() - 1);
        assert(m[n.len() - 1] == s[i + n.len() - 1]);
        assert(s[i + n.len() - 1] == n[n.len() - 1]);
    } else if p.len() < n.len() {
        lemma_name_shape(j, p.len() - 1);
        lemma_name_shape(k, p.len() - 1);
        assert(m[p.len() - 1] == s[i + p.len() - 1]);
        assert(s[i + p.len() - 1] == n[p.len() - 1]);
    } else {
        assert(m =~= n);
    }
}

/// The names before the `k`-th leave a text alone that holds no reference but that one.
proof fn lemma_earlier_names_pass(a: Seq<char>, t: Seq<char>, j: int, k: int)
    requires
        !a.contains('&'),
        !t.contains('&'),
        0 <= j <= k < named().len(),
        forall|i: int| 0 <= i < k ==> (#[trigger] named()[i]).0 != named()[k].0,
    ensures
        decode_named(a + named()[k].0 + t, j) == decode_named(a + named()[k].0 + t, k),
    decreases k - j,
{
    let s = a + named()[k].0 + t;
    if j < k {
        let p = named()[j].0;
        assert(p != named()[k].0);
        if holds(s, p) {
            let i = choose|i: int| match_at(s, i, p);
            lemma_one_name_fits(a, t, j, k, i);
        }
        lemma_replace_absent(s, 0, p, named()[j].1);
        assert(s.subrange(0, s.len() as int) =~= s);
        lemma_earlier_names_pass(a, t, j + 1, k);
    }
}

proof fn lemma_name_decodes(a: Seq<char>, t: Seq<char>, k: int)
    requires
        !a.contains('&'),
        !t.contains('&'),
        0 <= k < named().len(),
        forall|i: int| 0 <= i < k ==> (#[trigger] named()[i]).0 != named()[k].0,
    ensures
        decoded(a + named()[k].0 + t) == a + named()[k].1 + t,
{
    let n = named()[k].0;
    let q = named()[k].1;
    let s = a + n + t;
    lemma_earlier_names_pass(a, t, 0, k);
    lemma_names(k);
    lemma_meanings(k);
    let e: int = a.len() as int;
    assert forall|j: int| 0 <= j < e implies !#[trigger] match_at(s, j, n) by {
        if match_at(s, j, n) {
            lemma_one_name_fits(a, t, k, k, j);
        }
    }
    lemma_replace_run(s, 0, e, n, q);
    assert(s.subrange(0, e) =~= a);
    assert(s.subrange(e, e + n.len()) =~= n);
    assert(match_at(s, e, n));
    assert forall|j: int| e + n.len() <= j < s.len() implies !#[trigger] match_at(s, j, n) by {
        if match_at(s, j, n) {
            lemma_one_name_fits(a, t, k, k, j);
        }
    }
    lemma_replace_run(s, e + n.len(), s.len() as int, n, q);
    assert(s.subrange(e + n.len(), s.len() as int) =~= t);
    let r = a + q + t;
    assert(replace(s, n, q) =~= r);
    assert(!r.contains('&')) by {
        if r.contains('&') {
            let i = choose|i: int| 0 <= i < r.len() && r[i] == '&';
            if i < e {
                assert(a[i] == '&');
            } else if i >= e + 1 {
                assert(t[i - e - 1] == '&');
            }
        }
    }
    lemma_no_names(r, k + 1);
    lemma_no_references(r, 0);
    assert(r.subrange(0, r.len() as int) =~= r);
}

/// A name of that length that opens with these characters.
spec fn spelt(name: Seq<char>, len: nat, x: char, y: char, z: char) -> bool {
    name.len() == len && name[1] == x && name[2] == y && name[3] == z
}

/// Where the names in daily use stand in the table, each once.
proof fn lemma_places(k: int)
    requires
        0 <= k < named().len(),
    ensures
        spelt(named()[k].0, 6, 'n', 'b', 's') ==> k == 0,
        spelt(named()[k].0, 4, 'l', 't', ';') ==> k == 1,
        spelt(named()[k].0, 4, 'g', 't', ';') ==> k == 2,
        spelt(named()[k].0, 6, 'q', 'u', 'o') ==> k == 3,
        spelt(named()[k].0, 5, '#', '3', '9') ==> k == 4,
        spelt(named()[k].0, 6, 'a', 'p', 'o') ==> k == 5,
        spelt(named()[k].0, 7, 'm', 'd', 'a') ==> k == 6,
        spelt(named()[k].0, 7, 'n', 'd', 'a') ==> k == 7,
        spelt(named()[k].0, 8, 'h', 'e', 'l') ==> k == 8,
        spelt(named()[k].0, 6, 'e', 'u', 'r') ==> k == 17,
        spelt(named()[k].0, 7, 'p', 'o', 'u') ==> k == 18,
        spelt(named()[k].0, 6, 'c', 'o', 'p') ==> k == 19,
        spelt(named()[k].0, 5, 'r', 'e', 'g') ==> k == 20,
        spelt(named()[k].0, 5, 'd', 'e', 'g') ==> k == 14,
        spelt(named()[k].0, 7, 'i', 'e', 'x') ==> k == 12,
        spelt(named()[k].0, 8, 'i', 'q', 'u') ==> k == 13,
        spelt(named()[k].0, 8, 'a', 'a', 'c') ==> k == 29,
        spelt(named()[k].0, 8, 'e', 'a', 'c') ==> k == 36,
        spelt(named()[k].0, 8, 'i', 'a', 'c') ==> k == 40,
        spelt(named()[k].0, 8, 'o', 'a', 'c') ==> k == 45,
        spelt(named()[k].0, 8, 'u', 'a', 'c') ==> k == 50,
        spelt(named()[k].0, 8, 'n', 't', 'i') ==> k == 43,
        spelt(named()[k].0, 6, 'u', 'u', 'm') ==> k == 52,
        spelt(named()[k].0, 8, 'c', 'c', 'e') ==> k == 34,
{
    reveal_strlit("&nbsp;");
    reveal_strlit("&lt;");
    reveal_strlit("&gt;");
    reveal_strlit("&quot;");
    reveal_strlit("&#39;");
    reveal_strlit("&apos;");
    reveal_strlit("&mdash;");
    reveal_strlit("&ndash;");
    reveal_strlit("&hellip;");
    reveal_strlit("&laquo;");
    reveal_strlit("&raquo;");
    reveal_strlit("&middot;");
    reveal_strlit("&iexcl;");
    reveal_strlit("&iquest;");
    reveal_strlit("&deg;");
    reveal_strlit("&sect;");
    reveal_strlit("&para;");
    reveal_strlit("&euro;");
    reveal_strlit("&pound;");
    reveal_strlit("&copy;");
    reveal_strlit("&reg;");
    reveal_strlit("&trade;");
    reveal_strlit("&bull;");
    reveal_strlit("&dagger;");
    reveal_strlit("&szlig;");
    reveal_strlit("&times;");
    reveal_strlit("&divide;");
    reveal_strlit("&plusmn;");
    reveal_strlit("&agrave;");
    reveal_strlit("&aacute;");
    reveal_strlit("&acirc;");
    reveal_strlit("&atilde;");
    reveal_strlit("&auml;");
    reveal_strlit("&aring;");
    reveal_strlit("&ccedil;");
    reveal_strlit("&egrave;");
    reveal_strlit("&eacute;");
    reveal_strlit("&ecirc;");
    reveal_strlit("&euml;");
    reveal_strlit("&igrave;");
    reveal_strlit("&iacute;");
    reveal_strlit("&icirc;");
    reveal_strlit("&iuml;");
    reveal_strlit("&ntilde;");
    reveal_strlit("&ograve;");
    reveal_strlit("&oacute;");
    reveal_strlit("&ocirc;");
    reveal_strlit("&otilde;");
    reveal_strlit("&ouml;");
    reveal_strlit("&ugrave;");
    reveal_strlit("&uacute;");
    reveal_strlit("&ucirc;");
    reveal_strlit("&uuml;");
    reveal_strlit("&yacute;");
    reveal_strlit("&yuml;");
    reveal_strlit("&Agrave;");
    reveal_strlit("&Aacute;");
    reveal_strlit("&Acirc;");
    reveal_strlit("&Atilde;");
    reveal_strlit("&Auml;");
    reveal_strlit("&Aring;");
    reveal_strlit("&Ccedil;");
    reveal_strlit("&Egrave;");
    reveal_strlit("&Eacute;");
    reveal_strlit("&Ecirc;");
    reveal_strlit("&Euml;");
    reveal_strlit("&Igrave;");
    reveal_strlit("&Iacute;");
    reveal_strlit("&Icirc;");
    reveal_strlit("&Iuml;");
    reveal_strlit("&Ntilde;");
    reveal_strlit("&Ograve;");
    reveal_strlit("&Oacute;");
    reveal_strlit("&Ocirc;");
    reveal_strlit("&Otilde;");
    reveal_strlit("&Ouml;");
    reveal_strlit("&Ugrave;");
    reveal_strlit("&Uacute;");
    reveal_strlit("&Ucirc;");
    reveal_strlit("&Uuml;");
    reveal_strlit("&Yacute;");
}

proof fn lemma_gives(a: Seq<char>, t: Seq<char>, k: int, name: Seq<char>, meaning: Seq<char>)
    requires
        !a.contains('&'),
        !t.contains('&'),
        0 <= k < named().len(),
        named()[k] == (name, meaning),
        forall|i: int| 0 <= i < k ==> (#[trigger] named()[i]).0 != name,
    ensures
        decoded(a + name + t) == a + meaning + t,
{
    lemma_name_decodes(a, t, k);
}

/// A reference to a character by its name gives that character, with the text on both sides
/// of it left as it is.
pub proof fn law_names_give_their_characters(a: Seq<char>, t: Seq<char>)
    requires
        !a.contains('&'),
        !t.contains('&'),
    ensures
        decoded(a + "&nbsp;"@ + t) == a + " "@ + t,
        decoded(a + "&lt;"@ + t) == a + "<"@ + t,
        decoded(a + "&gt;"@ + t) == a + ">"@ + t,
        decoded(a + "&quot;"@ + t) == a + "\""@ + t,
        decoded(a + "&#39;"@ + t) == a + "'"@ + t,
        decoded(a + "&apos;"@ + t) == a + "'"@ + t,
        decoded(a + "&mdash;"@ + t) == a + "—"@ + t,
        decoded(a + "&ndash;"@ + t) == a + "–"@ + t,
        decoded(a + "&hellip;"@ + t) == a + "…"@ + t,
        decoded(a + "&euro;"@ + t) == a + "€"@ + t,
        decoded(a + "&pound;"@ + t) == a + "£"@ + t,
        decoded(a + "&copy;"@ + t) == a + "©"@ + t,
        decoded(a + "&reg;"@ + t) == a + "®"@ + t,
        decoded(a + "&deg;"@ + t) == a + "°"@ + t,
        decoded(a + "&iexcl;"@ + t) == a + "¡"@ + t,
        decoded(a + "&iquest;"@ + t) == a + "¿"@ + t,
        decoded(a + "&aacute;"@ + t) == a + "á"@ + t,
        decoded(a + "&eacute;"@ + t) == a + "é"@ + t,
        decoded(a + "&iacute;"@ + t) == a + "í"@ + t,
        decoded(a + "&oacute;"@ + t) == a + "ó"@ + t,
        decoded(a + "&uacute;"@ + t) == a + "ú"@ + t,
        decoded(a + "&ntilde;"@ + t) == a + "ñ"@ + t,
        decoded(a + "&uuml;"@ + t) == a + "ü"@ + t,
        decoded(a + "&ccedil;"@ + t) == a + "ç"@ + t,
{
    assert forall|i: int| 0 <= i < 0 implies (#[trigger] named()[i]).0 != "&nbsp;"@ by {
        reveal_strlit("&nbsp;");
        lemma_places(i);
    }
    lemma_gives(a, t, 0, "&nbsp;"@, " "@);
    assert forall|i: int| 0 <= i < 1 implies (#[trigger] named()[i]).0 != "&lt;"@ by {
        reveal_strlit("&lt;");
        lemma_places(i);
    }
    lemma_gives(a, t, 1, "&lt;"@, "<"@);
    assert forall|i: int| 0 <= i < 2 implies (#[trigger] named()[i]).0 != "&gt;"@ by {
        reveal_strlit("&gt;");
        lemma_places(i);
    }
    lemma_gives(a, t, 2, "&gt;"@, ">"@);
    assert forall|i: int| 0 <= i < 3 implies (#[trigger] named()[i]).0 != "&quot;"@ by {
        reveal_strlit("&quot;");
        lemma_places(i);
    }
    lemma_gives(a, t, 3, "&quot;"@, "\""@);
    assert forall|i: int| 0 <= i < 4 implies (#[trigger] named()[i]).0 != "&#39;"@ by {
        reveal_strlit("&#39;");
        lemma_places(i);
    }
    lemma_gives(a, t, 4, "&#39;"@, "'"@);
    assert forall|i: int| 0 <= i < 5 implies (#[trigger] named()[i]).0 != "&apos;"@ by {
        reveal_strlit("&apos;");
        lemma_places(i);
    }
    lemma_gives(a, t, 5, "&apos;"@, "'"@);
    assert forall|i: int| 0 <= i < 6 implies (#[trigger] named()[i]).0 != "&mdash;"@ by {
        reveal_strlit("&mdash;");
        lemma_places(i);
    }
    lemma_gives(a, t, 6, "&mdash;"@, "—"@);
    assert forall|i: int| 0 <= i < 7 implies (#[trigger] named()[i]).0 != "&ndash;"@ by {
        reveal_strlit("&ndash;");
        lemma_places(i);
    }
    lemma_gives(a, t, 7, "&ndash;"@, "–"@);
    assert forall|i: int| 0 <= i < 8 implies (#[trigger] named()[i]).0 != "&hellip;"@ by {
        reveal_strlit("&hellip;");
        lemma_places(i);
    }
    lemma_gives(a, t, 8, "&hellip;"@, "…"@);
    assert forall|i: int| 0 <= i < 17 implies (#[trigger] named()[i]).0 != "&euro;"@ by {
        reveal_strlit("&euro;");
        lemma_places(i);
    }
    lemma_gives(a, t, 17, "&euro;"@, "€"@);
    assert forall|i: int| 0 <= i < 18 implies (#[trigger] named()[i]).0 != "&pound;"@ by {
        reveal_strlit("&pound;");
        lemma_places(i);
    }
    lemma_gives(a, t, 18, "&pound;"@, "£"@);
    assert forall|i: int| 0 <= i < 19 implies (#[trigger] named()[i]).0 != "&copy;"@ by {
        reveal_strlit("&copy;");
        lemma_places(i);
    }
    lemma_gives(a, t, 19, "&copy;"@, "©"@);
    assert forall|i: int| 0 <= i < 20 implies (#[trigger] named()[i]).0 != "&reg;"@ by {
        reveal_strlit("&reg;");
        lemma_places(i);
    }
    lemma_gives(a, t, 20, "&reg;"@, "®"@);
    assert forall|i: int| 0 <= i < 14 implies (#[trigger] named()[i]).0 != "&deg;"@ by {
        reveal_strlit("&deg;");
        lemma_places(i);
    }
    lemma_gives(a, t, 14, "&deg;"@, "°"@);
    assert forall|i: int| 0 <= i < 12 implies (#[trigger] named()[i]).0 != "&iexcl;"@ by {
        reveal_strlit("&iexcl;");
        lemma_places(i);
    }
    lemma_gives(a, t, 12, "&iexcl;"@, "¡"@);
    assert forall|i: int| 0 <= i < 13 implies (#[trigger] named()[i]).0 != "&iquest;"@ by {
        reveal_strlit("&iquest;");
        lemma_places(i);
    }
    lemma_gives(a, t, 13, "&iquest;"@, "¿"@);
    assert forall|i: int| 0 <= i < 29 implies (#[trigger] named()[i]).0 != "&aacute;"@ by {
        reveal_strlit("&aacute;");
        lemma_places(i);
    }
    lemma_gives(a, t, 29, "&aacute;"@, "á"@);
    assert forall|i: int| 0 <= i < 36 implies (#[trigger] named()[i]).0 != "&eacute;"@ by {
        reveal_strlit("&eacute;");
        lemma_places(i);
    }
    lemma_gives(a, t, 36, "&eacute;"@, "é"@);
    assert forall|i: int| 0 <= i < 40 implies (#[trigger] named()[i]).0 != "&iacute;"@ by {
        reveal_strlit("&iacute;");
        lemma_places(i);
    }
    lemma_gives(a, t, 40, "&iacute;"@, "í"@);
    assert forall|i: int| 0 <= i < 45 implies (#[trigger] named()[i]).0 != "&oacute;"@ by {
        reveal_strlit("&oacute;");
        lemma_places(i);
    }
    lemma_gives(a, t, 45, "&oacute;"@, "ó"@);
    assert forall|i: int| 0 <= i < 50 implies (#[trigger] named()[i]).0 != "&uacute;"@ by {
        reveal_strlit("&uacute;");
        lemma_places(i);
    }
    lemma_gives(a, t, 50, "&uacute;"@, "ú"@);
    assert forall|i: int| 0 <= i < 43 implies (#[trigger] named()[i]).0 != "&ntilde;"@ by {
        reveal_strlit("&ntilde;");
        lemma_places(i);
    }
    lemma_gives(a, t, 43, "&ntilde;"@, "ñ"@);
    assert forall|i: int| 0 <= i < 52 implies (#[trigger] named()[i]).0 != "&uuml;"@ by {
        reveal_strlit("&uuml;");
        lemma_places(i);
    }
    lemma_gives(a, t, 52, "&uuml;"@, "ü"@);
    assert forall|i: int| 0 <= i < 34 implies (#[trigger] named()[i]).0 != "&ccedil;"@ by {
        reveal_strlit("&ccedil;");
        lemma_places(i);
    }
    lemma_gives(a, t, 34, "&ccedil;"@, "ç"@);
}

/// Only one name is a number.
proof fn lemma_one_numbered_name(k: int)
    requires
        0 <= k < named().len(),
        named()[k].0[1] == '#',
    ensures
        named()[k].0.len() == 5,
        named()[k].0[2] == '3',
        named()[k].0[3] == '9',
        named()[k].0[4] == ';',
{
    reveal_strlit("&nbsp;");
    reveal_strlit("&lt;");
    reveal_strlit("&gt;");
    reveal_strlit("&quot;");
    reveal_strlit("&#39;");
    reveal_strlit("&apos;");
    reveal_strlit("&mdash;");
    reveal_strlit("&ndash;");
    reveal_strlit("&hellip;");
    reveal_strlit("&laquo;");
    reveal_strlit("&raquo;");
    reveal_strlit("&middot;");
    reveal_strlit("&iexcl;");
    reveal_strlit("&iquest;");
    reveal_strlit("&deg;");
    reveal_strlit("&sect;");
    reveal_strlit("&para;");
    reveal_strlit("&euro;");
    reveal_strlit("&pound;");
    reveal_strlit("&copy;");
    reveal_strlit("&reg;");
    reveal_strlit("&trade;");
    reveal_strlit("&bull;");
    reveal_strlit("&dagger;");
    reveal_strlit("&szlig;");
    reveal_strlit("&times;");
    reveal_strlit("&divide;");
    reveal_strlit("&plusmn;");
    reveal_strlit("&agrave;");
    reveal_strlit("&aacute;");
    reveal_strlit("&acirc;");
    reveal_strlit("&atilde;");
    reveal_strlit("&auml;");
    reveal_strlit("&aring;");
    reveal_strlit("&ccedil;");
    reveal_strlit("&egrave;");
    reveal_strlit("&eacute;");
    reveal_strlit("&ecirc;");
    reveal_strlit("&euml;");
    reveal_strlit("&igrave;");
    reveal_strlit("&iacute;");
    reveal_strlit("&icirc;");
    reveal_strlit("&iuml;");
    reveal_strlit("&ntilde;");
    reveal_strlit("&ograve;");
    reveal_strlit("&oacute;");
    reveal_strlit("&ocirc;");
    reveal_strlit("&otilde;");
    reveal_strlit("&ouml;");
    reveal_strlit("&ugrave;");
    reveal_strlit("&uacute;");
    reveal_strlit("&ucirc;");
    reveal_strlit("&uuml;");
    reveal_strlit("&yacute;");
    reveal_strlit("&yuml;");
    reveal_strlit("&Agrave;");
    reveal_strlit("&Aacute;");
    reveal_strlit("&Acirc;");
    reveal_strlit("&Atilde;");
    reveal_strlit("&Auml;");
    reveal_strlit("&Aring;");
    reveal_strlit("&Ccedil;");
    reveal_strlit("&Egrave;");
    reveal_strlit("&Eacute;");
    reveal_strlit("&Ecirc;");
    reveal_strlit("&Euml;");
    reveal_strlit("&Igrave;");
    reveal_strlit("&Iacute;");
    reveal_strlit("&Icirc;");
    reveal_strlit("&Iuml;");
    reveal_strlit("&Ntilde;");
    reveal_strlit("&Ograve;");
    reveal_strlit("&Oacute;");
    reveal_strlit("&Ocirc;");
    reveal_strlit("&Otilde;");
    reveal_strlit("&Ouml;");
    reveal_strlit("&Ugrave;");
    reveal_strlit("&Uacute;");
    reveal_strlit("&Ucirc;");
    reveal_strlit("&Uuml;");
    reveal_strlit("&Yacute;");
}

/// A number of its own is no name.
proof fn lemma_number_is_no_name(a: Seq<char>, n: nat, t: Seq<char>, k: int)
    requires
        !a.contains('&'),
        !t.contains('&'),
        n != 39,
        0 <= k < named().len(),
    ensures
        !holds(a + "&#"@ + decimal(n) + ";"@ + t, named()[k].0),
{
    let d = decimal(n);
    let s = a + "&#"@ + d + ";"@ + t;
    let p = named()[k].0;
    reveal_strlit("&#");
    reveal_strlit(";");
    law_written_numbers_read_back(n, n);
    if holds(s, p) {
        let i = choose|i: int| match_at(s, i, p);
        let m = s.subrange(i, i + p.len());
        lemma_names(k);
        assert(m[0] == s[i] && m[1] == s[i + 1]);
        lemma_one_number(a, n, t, i);
        assert(s[i + 1] == '#');
        lemma_one_numbered_name(k);
        assert(m[2] == s[i + 2] && m[3] == s[i + 3] && m[4] == s[i + 4]);
        assert(s[i + 2] == d[0]);
        if d.len() == 1 {
            assert(s[i + 3] == ';');
        } else {
            assert(s[i + 3] == d[1]);
            if d.len() > 2 {
                assert(s[i + 4] == d[2]);
                assert(is_digit(d[2]));
            }
            law_written_numbers_read_back(39, n + 39);
            assert(decimal(39) =~= seq!['3', '9']) by {
                assert(decimal(3) =~= seq!['3']);
                assert(decimal(39) == decimal(3).push(digit(9)));
            }
            assert(d =~= seq!['3', '9']);
            law_written_numbers_read_back(n, n + 39);
        }
    }
}

/// Where the only ampersand of a numeric reference between two texts stands.
proof fn lemma_one_number(a: Seq<char>, n: nat, t: Seq<char>, i: int)
    requires
        !a.contains('&'),
        !t.contains('&'),
        0 <= i < (a + "&#"@ + decimal(n) + ";"@ + t).len(),
        (a + "&#"@ + decimal(n) + ";"@ + t)[i] == '&',
    ensures
        i == a.len(),
{
    reveal_strlit("&#");
    reveal_strlit(";");
    law_written_numbers_read_back(n, n);
    let d = decimal(n);
    let e = a.len() + 2 + d.len();
    if i < a.len() {
        assert(a[i] == '&');
    } else if a.len() + 2 <= i < e {
        assert(is_digit(d[i - a.len() - 2]));
    } else if i > e {
        assert(t[i - e - 1] == '&');
    }
}

proof fn lemma_number_passes(a: Seq<char>, n: nat, t: Seq<char>, k: int)
    requires
        !a.contains('&'),
        !t.contains('&'),
        n != 39,
        0 <= k <= named().len(),
    ensures
        decode_named(a + "&#"@ + decimal(n) + ";"@ + t, k) == a + "&#"@ + decimal(n) + ";"@ + t,
    decreases named().len() - k,
{
    let s = a + "&#"@ + decimal(n) + ";"@ + t;
    if k < named().len() {
        lemma_number_is_no_name(a, n, t, k);
        lemma_replace_absent(s, 0, named()[k].0, named()[k].1);
        assert(s.subrange(0, s.len() as int) =~= s);
        lemma_number_passes(a, n, t, k + 1);
    }
}

proof fn lemma_first_end(s: Seq<char>, i: int, e: int)
    requires
        0 <= i <= e < s.len(),
        forall|k: int| i <= k < e ==> #[trigger] s[k] != ';',
        s[e] == ';',
        !match_at(s, e - 4, "&amp;"@),
    ensures
        reference_end(s, i) == Some(e),
    decreases e - i,
{
    if i < e {
        lemma_first_end(s, i + 1, e);
    }
}

proof fn lemma_plain_run(s: Seq<char>, i: int, e: int)
    requires
        0 <= i <= e <= s.len(),
        forall|k: int| i <= k < e ==> #[trigger] s[k] != '&',
    ensures
        references_from(s, i, 0) == s.subrange(i, e) + references_from(s, e, 0),
    decreases e - i,
{
    if i < e {
        reveal_strlit("&amp;");
        if match_at(s, i, "&amp;"@) {
            assert(s.subrange(i, i + 5)[0] == s[i]);
        }
        lemma_plain_run(s, i + 1, e);
        assert(ampersands(0) + seq![s[i]] + (s.subrange(i + 1, e) + references_from(s, e, 0))
            =~= s.subrange(i, e) + references_from(s, e, 0));
    } else {
        assert(s.subrange(i, e) + references_from(s, e, 0) =~= references_from(s, e, 0));
    }
}

/// A reference to a character by its number gives that character, with the text on both
/// sides of it left as it is.
pub proof fn law_numbers_give_their_characters(a: Seq<char>, c: char, t: Seq<char>)
    requires
        !a.contains('&'),
        !t.contains('&'),
    ensures
        decoded(a + "&#"@ + decimal(c as nat) + ";"@ + t) == a + seq![c] + t,
{
    let n = c as nat;
    let d = decimal(n);
    let s = a + "&#"@ + d + ";"@ + t;
    reveal_strlit("&#");
    reveal_strlit(";");
    if n == 39 {
        reveal_strlit("&#39;");
        reveal_strlit("'");
        assert(d =~= seq!['3', '9']) by {
            assert(decimal(3) =~= seq!['3']);
            assert(decimal(39) == decimal(3).push(digit(9)));
        }
        assert(s =~= a + "&#39;"@ + t);
        law_names_give_their_characters(a, t);
        assert("'"@ =~= seq![c]);
    } else {
        lemma_number_passes(a, n, t, 0);
        law_written_numbers_read_back(n, u32::MAX as nat);
        let i = a.len() as int;
        let e = i + 2 + d.len();
        assert forall|k: int| 0 <= k < i implies #[trigger] s[k] != '&' by {
            assert(s[k] == a[k]);
        }
        lemma_plain_run(s, 0, i);
        assert(s.subrange(0, i) =~= a);
        reveal_strlit("&amp;");
        assert(s[i] == '&' && s[i + 1] == '#' && s[e] == ';');
        if match_at(s, i, "&amp;"@) {
            assert(s.subrange(i, i + 5)[1] == s[i + 1]);
        }
        if match_at(s, i + 1, "&amp;"@) {
            assert(s.subrange(i + 1, i + 6)[0] == s[i + 1]);
        }
        if match_at(s, e - 4, "&amp;"@) {
            let m = s.subrange(e - 4, e + 1);
            assert(m[0] == s[e - 4] && m[1] == s[e - 3]);
            lemma_one_number(a, n, t, e - 4);
        }
        assert forall|k: int| i + 2 <= k < e implies #[trigger] s[k] != ';' by {
            assert(s[k] == d[k - i - 2]);
            assert(is_digit(d[k - i - 2]));
        }
        lemma_first_end(s, i + 2, e);
        assert(s.subrange(i + 2, e) =~= d);
        assert(is_digit(d[0]));
        assert(referenced(d) == Some(c));
        assert forall|k: int| e + 1 <= k < s.len() implies #[trigger] s[k] != '&' by {
            assert(s[k] == t[k - e - 1]);
        }
        lemma_no_references(s, e + 1);
        assert(s.subrange(e + 1, s.len() as int) =~= t);
        assert(references_from(s, i, 0) == references_from(s, i + 1, 1));
        assert(references_from(s, i + 1, 1) == ampersands(0) + seq![c] + t);
        assert(a + (ampersands(0) + seq![c] + t) =~= a + seq![c] + t);
    }
}

} // verus!
