//! Entity names as keys: two spellings of one entity normalise to one text.
use vstd::prelude::*;
use vstd::string::*;
use crate::scan::{
    blank, char_views, ends, ends_with, index_from, index_of, join, lemma_join_first, lemma_rfind,
    lemma_trim_end, lemma_trim_end_add, match_at, rfind, rfind_from, starts, starts_with, trim,
    trim_chars, trim_end, trim_end_bound,
};
use crate::text::{
    all_ascii, from_chars, is_alnum, is_ascii_alnum, is_space, is_whitespace, letter_or_digit,
    lower, lower_all, lowercase, push_range, push_str, str_views, sub_chars, to_chars, to_lower,
};

verus! {

// --------------------------------------------------------------- accents --

/// The plain letters that stand for an accented or joined one.
pub open spec fn plain_letters(c: char) -> Seq<char> {
    match c {
        'à' | 'á' | 'â' | 'ã' | 'ä' | 'å' => "a"@,
        'æ' => "ae"@,
        'ç' => "c"@,
        'è' | 'é' | 'ê' | 'ë' => "e"@,
        'ì' | 'í' | 'î' | 'ï' => "i"@,
        'ñ' => "n"@,
        'ò' | 'ó' | 'ô' | 'õ' | 'ö' | 'ø' => "o"@,
        'œ' => "oe"@,
        'ù' | 'ú' | 'û' | 'ü' => "u"@,
        'ý' | 'ÿ' => "y"@,
        'ß' => "ss"@,
        'ł' => "l"@,
        _ => seq![c],
    }
}

/// The text with every accented letter as its plain form.
pub open spec fn unaccented(s: Seq<char>) -> Seq<char>
    decreases s.len(),
{
    if s.len() == 0 {
        Seq::empty()
    } else {
        unaccented(s.drop_last()) + plain_letters(s.last())
    }
}

fn push_plain(out: &mut Vec<char>, c: char)
    ensures
        final(out)@ == old(out)@ + plain_letters(c),
{
    match c {
        'à' | 'á' | 'â' | 'ã' | 'ä' | 'å' => push_str(out, "a"),
        'æ' => push_str(out, "ae"),
        'ç' => push_str(out, "c"),
        'è' | 'é' | 'ê' | 'ë' => push_str(out, "e"),
        'ì' | 'í' | 'î' | 'ï' => push_str(out, "i"),
        'ñ' => push_str(out, "n"),
        'ò' | 'ó' | 'ô' | 'õ' | 'ö' | 'ø' => push_str(out, "o"),
        'œ' => push_str(out, "oe"),
        'ù' | 'ú' | 'û' | 'ü' => push_str(out, "u"),
        'ý' | 'ÿ' => push_str(out, "y"),
        'ß' => push_str(out, "ss"),
        'ł' => push_str(out, "l"),
        _ => {
            out.push(c);
            assert(out@ =~= old(out)@ + seq![c]);
        },
    }
}

/// Replace accented and special characters with their ASCII base letters.
pub fn strip_accents(v: &[char]) -> (r: Vec<char>)
    ensures
        r@ == unaccented(v@),
{
    let mut out: Vec<char> = Vec::new();
    let mut i: usize = 0;
    while i < v.len()
        invariant
            i <= v@.len(),
            out@ == unaccented(v@.take(i as int)),
        decreases v@.len() - i,
    {
        push_plain(&mut out, v[i]);
        i += 1;
        assert(v@.take(i as int).drop_last() =~= v@.take(i - 1));
    }
    assert(v@.take(i as int) =~= v@);
    out
}

// -------------------------------------------------------------- prefixes --

/// Administrative prefixes in the order they are tried: the forms with an
/// article first, so that they win over the bare ones.
pub open spec fn prefixes() -> Seq<Seq<char>> {
    seq![
        "ayuntamiento de "@,
        "municipality of "@,
        "ajuntament de "@,
        "concello de "@,
        "concejo de "@,
        "municipio de "@,
        "udaletxea "@,
        "comune di "@,
        "mairie de "@,
        "ajuntament d'"@,
        "ville de "@,
        "town of "@,
        "city of "@,
        "udala "@,
        "ayto. de "@,
        "ayto de "@,
        "gemeinde "@,
        "stadt "@,
        "ayto. "@,
        "ayto "@,
        "ayuntamiento "@,
        "ajuntament "@,
        "concello "@,
        "concejo "@,
        "municipio "@,
        "comune "@,
        "mairie "@,
    ]
}

fn municipal_prefixes() -> (r: Vec<&'static str>)
    ensures
        str_views(r@) == prefixes(),
{
    let r = vec![
        "ayuntamiento de ",
        "municipality of ",
        "ajuntament de ",
        "concello de ",
        "concejo de ",
        "municipio de ",
        "udaletxea ",
        "comune di ",
        "mairie de ",
        "ajuntament d'",
        "ville de ",
        "town of ",
        "city of ",
        "udala ",
        "ayto. de ",
        "ayto de ",
        "gemeinde ",
        "stadt ",
        "ayto. ",
        "ayto ",
        "ayuntamiento ",
        "ajuntament ",
        "concello ",
        "concejo ",
        "municipio ",
        "comune ",
        "mairie ",
    ];
    assert(str_views(r@) =~= prefixes());
    r
}

/// How long the first prefix from the `k`-th on is that `s` starts with.
pub open spec fn prefix_len(s: Seq<char>, k: int) -> nat
    decreases prefixes().len() - k,
{
    if k < 0 || k >= prefixes().len() {
        0
    } else if starts(s, prefixes()[k]) {
        prefixes()[k].len()
    } else {
        prefix_len(s, k + 1)
    }
}

/// `s` without its leading administrative prefix.
pub open spec fn without_prefix(s: Seq<char>) -> Seq<char> {
    s.subrange(prefix_len(s, 0) as int, s.len() as int)
}

pub proof fn lemma_prefix_len(s: Seq<char>, k: int)
    requires
        0 <= k,
    ensures
        prefix_len(s, k) <= s.len(),
    decreases prefixes().len() - k,
{
    if k < prefixes().len() && !starts(s, prefixes()[k]) {
        lemma_prefix_len(s, k + 1);
    }
}

/// How long the administrative prefix is that `v` starts with; 0 without one.
fn municipal_prefix_len(v: &[char]) -> (r: usize)
    ensures
        r == prefix_len(v@, 0),
        r <= v@.len(),
{
    let table = municipal_prefixes();
    let mut k: usize = 0;
    while k < table.len()
        invariant
            k <= table@.len(),
            str_views(table@) == prefixes(),
            prefix_len(v@, k as int) == prefix_len(v@, 0),
        decreases table@.len() - k,
    {
        assert(prefixes()[k as int] == table@[k as int]@);
        if starts_with(v, table[k]) {
            return table[k].unicode_len();
        }
        k += 1;
    }
    0
}

/// Strip a single leading municipal or administrative prefix.
pub fn strip_municipal_prefix(v: &[char]) -> (r: Vec<char>)
    ensures
        r@ == without_prefix(v@),
{
    let n = municipal_prefix_len(v);
    sub_chars(v, n, v.len())
}

// -------------------------------------------------------- parentheticals --

/// The text between the last opening parenthesis and the closing one that ends
/// `t`, trimmed.
pub open spec fn gloss_of(t: Seq<char>, open: int) -> Seq<char> {
    trim(t.subrange(open + 1, t.len() - 1))
}

/// The name inside a trailing institutional gloss such as `(ayuntamiento de X)`.
pub open spec fn institution(s: Seq<char>) -> Option<Seq<char>> {
    let t = trim_end(s);
    if !ends(t, ")"@) {
        None
    } else {
        match rfind_from(t, t.len() as int, "("@) {
            None => None,
            Some(open) => {
                let inner = gloss_of(t, open);
                if prefix_len(inner, 0) > 0 && trim(without_prefix(inner)).len() > 0 {
                    Some(trim(without_prefix(inner)))
                } else {
                    None
                }
            },
        }
    }
}

/// The name that a trailing institutional gloss gives, if `v` ends in one.
pub fn institutional_parenthetical(v: &[char]) -> (r: Option<Vec<char>>)
    ensures
        match r {
            Some(name) => institution(v@) == Some(name@),
            None => institution(v@) is None,
        },
{
    let end = trim_end_bound(v, 0);
    assert(v@.subrange(0, v@.len() as int) =~= v@);
    let t = sub_chars(v, 0, end);
    if !ends_with(&t, ")") {
        return None;
    }
    let open: usize = match rfind(&t, "(") {
        None => {
            return None;
        },
        Some(k) => k,
    };
    proof {
        reveal_strlit("(");
        reveal_strlit(")");
        assert(t@.subrange(t@.len() - 1, t@.len() - 1 + 1)[0] == t@[t@.len() - 1]);
        assert(t@.subrange(open as int, open + 1)[0] == t@[open as int]);
    }
    let inside = sub_chars(&t, open + 1, t.len() - 1);
    let inner = trim_chars(&inside);
    let n = municipal_prefix_len(&inner);
    let rest = sub_chars(&inner, n, inner.len());
    let name = trim_chars(&rest);
    if n > 0 && name.len() > 0 {
        Some(name)
    } else {
        None
    }
}

/// `s` without the parenthetical it ends in.
pub open spec fn without_parenthetical(s: Seq<char>) -> Seq<char> {
    let t = trim_end(s);
    match rfind_from(t, t.len() as int, "("@) {
        Some(open) => if ends(t, ")"@) {
            trim_end(t.take(open))
        } else {
            t
        },
        None => t,
    }
}

/// Drop a trailing parenthetical, usually a region.
pub fn strip_trailing_parenthetical(v: &[char]) -> (r: Vec<char>)
    ensures
        r@ == without_parenthetical(v@),
{
    let end = trim_end_bound(v, 0);
    assert(v@.subrange(0, v@.len() as int) =~= v@);
    let t = sub_chars(v, 0, end);
    match rfind(&t, "(") {
        Some(open) => {
            if ends_with(&t, ")") {
                let head = sub_chars(&t, 0, open);
                assert(head@ =~= t@.take(open as int));
                let hi = trim_end_bound(&head, 0);
                assert(head@.subrange(0, head@.len() as int) =~= head@);
                return sub_chars(&head, 0, hi);
            }
        },
        None => {},
    }
    t
}

/// `s` without a trailing Basque `udala` or `udaletxea`.
pub open spec fn without_udala(s: Seq<char>) -> Seq<char> {
    let t = trim_end(s);
    if ends(t, " udaletxea"@) {
        trim_end(t.take(t.len() - " udaletxea"@.len()))
    } else if ends(t, " udala"@) {
        trim_end(t.take(t.len() - " udala"@.len()))
    } else {
        t
    }
}

fn trimmed_head(t: &[char], n: usize) -> (r: Vec<char>)
    requires
        n <= t@.len(),
    ensures
        r@ == trim_end(t@.take(n as int)),
{
    let head = sub_chars(t, 0, n);
    assert(head@ =~= t@.take(n as int));
    let hi = trim_end_bound(&head, 0);
    assert(head@.subrange(0, head@.len() as int) =~= head@);
    sub_chars(&head, 0, hi)
}

/// Strip a trailing Basque suffix word.
pub fn strip_basque_udala_suffix(v: &[char]) -> (r: Vec<char>)
    ensures
        r@ == without_udala(v@),
{
    let end = trim_end_bound(v, 0);
    assert(v@.subrange(0, v@.len() as int) =~= v@);
    let t = sub_chars(v, 0, end);
    let long: &'static str = " udaletxea";
    let short: &'static str = " udala";
    if ends_with(&t, long) {
        return trimmed_head(&t, t.len() - long.unicode_len());
    }
    if ends_with(&t, short) {
        return trimmed_head(&t, t.len() - short.unicode_len());
    }
    t
}

// ----------------------------------------------------------------- slugs --

/// White space somewhere in `s`.
pub open spec fn has_space(s: Seq<char>) -> bool {
    exists|i: int| 0 <= i < s.len() && is_space(#[trigger] s[i])
}

/// The repository name of an `owner/repo` slug; any other text is itself.
pub open spec fn without_owner(s: Seq<char>) -> Seq<char> {
    match index_from(s, 0, '/') {
        Some(k) => {
            let repo = s.subrange(k + 1, s.len() as int);
            if k > 0 && repo.len() > 0 && index_from(s, k + 1, '/') is None && !has_space(s) {
                repo
            } else {
                s
            }
        },
        None => s,
    }
}

fn contains_space(v: &[char]) -> (r: bool)
    ensures
        r == has_space(v@),
{
    let mut i: usize = 0;
    while i < v.len()
        invariant
            i <= v@.len(),
            forall|k: int| 0 <= k < i ==> !is_space(#[trigger] v@[k]),
        decreases v@.len() - i,
    {
        if is_whitespace(v[i]) {
            return true;
        }
        i += 1;
    }
    false
}

fn strip_owner(v: &[char]) -> (r: Vec<char>)
    ensures
        r@ == without_owner(v@),
{
    match index_of(v, 0, '/') {
        Some(k) => {
            if k > 0 && k < v.len() - 1 && index_of(v, k + 1, '/').is_none() && !contains_space(v) {
                return sub_chars(v, k + 1, v.len());
            }
        },
        None => {},
    }
    let all = sub_chars(v, 0, v.len());
    assert(all@ =~= v@);
    all
}

// -------------------------------------------------------------- collapse --

/// Where the run of letters and digits that starts at `i` ends.
pub open spec fn run_end(s: Seq<char>, i: int) -> int
    decreases s.len() - i,
{
    if 0 <= i < s.len() && is_alnum(s[i]) {
        run_end(s, i + 1)
    } else {
        i
    }
}

pub proof fn lemma_run_end(s: Seq<char>, i: int)
    requires
        0 <= i <= s.len(),
    ensures
        i <= run_end(s, i) <= s.len(),
        i < s.len() && is_alnum(s[i]) ==> i < run_end(s, i),
    decreases s.len() - i,
{
    if i < s.len() && is_alnum(s[i]) {
        lemma_run_end(s, i + 1);
    }
}

/// The runs of letters and digits of `s` from index `i` on.
pub open spec fn runs_from(s: Seq<char>, i: int) -> Seq<Seq<char>>
    decreases s.len() - i,
{
    if i < 0 || i >= s.len() {
        Seq::empty()
    } else if !is_alnum(s[i]) {
        runs_from(s, i + 1)
    } else {
        proof {
            lemma_run_end(s, i);
        }
        seq![s.subrange(i, run_end(s, i))] + runs_from(s, run_end(s, i))
    }
}

/// The letters and digits of `s`, each run parted from the next by one space.
pub open spec fn collapsed(s: Seq<char>) -> Seq<char> {
    join(runs_from(s, 0), seq![' '])
}

pub fn split_runs(v: &[char]) -> (r: Vec<Vec<char>>)
    ensures
        char_views(r@) == runs_from(v@, 0),
{
    let mut out: Vec<Vec<char>> = Vec::new();
    let mut i: usize = 0;
    assert(char_views(out@) + runs_from(v@, 0) =~= runs_from(v@, 0));
    while i < v.len()
        invariant
            i <= v@.len(),
            char_views(out@) + runs_from(v@, i as int) == runs_from(v@, 0),
        decreases v@.len() - i,
    {
        if !letter_or_digit(v[i]) {
            i += 1;
        } else {
            let lo: usize = i;
            proof {
                lemma_run_end(v@, lo as int);
            }
            while i < v.len() && letter_or_digit(v[i])
                invariant
                    lo <= i <= v@.len(),
                    run_end(v@, i as int) == run_end(v@, lo as int),
                decreases v@.len() - i,
            {
                i += 1;
            }
            let w = sub_chars(v, lo, i);
            let ghost before = char_views(out@);
            out.push(w);
            proof {
                assert(char_views(out@) =~= before.push(v@.subrange(lo as int, i as int)));
                assert(before + (seq![v@.subrange(lo as int, i as int)] + runs_from(v@, i as int))
                    =~= char_views(out@) + runs_from(v@, i as int));
            }
        }
    }
    assert(char_views(out@) + runs_from(v@, i as int) =~= char_views(out@));
    out
}

fn collapse(v: &[char]) -> (r: Vec<char>)
    ensures
        r@ == collapsed(v@),
{
    let parts = split_runs(v);
    let mut out: Vec<char> = Vec::new();
    let mut i: usize = 0;
    while i < parts.len()
        invariant
            i <= parts@.len(),
            out@ == join(char_views(parts@).take(i as int), seq![' ']),
        decreases parts@.len() - i,
    {
        let ghost before = out@;
        if i > 0 {
            out.push(' ');
            assert(out@ =~= before + seq![' ']);
        }
        let part = &parts[i];
        push_range(&mut out, part, 0, part.len());
        assert(parts@[i as int]@.subrange(0, parts@[i as int]@.len() as int) =~= parts@[i as int]@);
        i += 1;
        assert(char_views(parts@).take(i as int).drop_last() =~= char_views(parts@).take(i - 1));
    }
    assert(char_views(parts@).take(parts@.len() as int) =~= char_views(parts@));
    out
}

// --------------------------------------------------------- normalization --

/// The key of a name that is already in lower case.
pub open spec fn key_of_lower(lower: Seq<char>) -> Seq<char> {
    let plain = unaccented(lower);
    let bare = match institution(plain) {
        Some(name) => name,
        None => without_parenthetical(plain),
    };
    collapsed(without_owner(without_prefix(without_udala(bare))))
}

/// The key under which an entity's name is deduplicated.
pub open spec fn entity_key(s: Seq<char>) -> Seq<char> {
    key_of_lower(lowercase(s))
}

/// The key of a name that is already in lower case.
pub fn normalize_lower(lower: &str) -> (r: String)
    ensures
        r@ == key_of_lower(lower@),
{
    let v = to_chars(lower);
    let plain = strip_accents(&v);
    let bare = match institutional_parenthetical(&plain) {
        Some(name) => name,
        None => strip_trailing_parenthetical(&plain),
    };
    let no_basque = strip_basque_udala_suffix(&bare);
    let stripped = strip_municipal_prefix(&no_basque);
    let name = strip_owner(&stripped);
    let out = collapse(&name);
    from_chars(&out)
}

/// Normalise an entity name for deduplication.
///
/// Lower case, no accents, the name inside an institutional gloss or without a
/// trailing parenthetical, without a Basque suffix word, without one leading
/// administrative prefix, without the owner of a repository slug, and with
/// every run of other characters as one space.
pub fn normalize_entity(s: &str) -> (r: String)
    ensures
        r@ == entity_key(s@),
{
    let lower = to_lower(s);
    normalize_lower(lower.as_str())
}

// ------------------------------------------------------------------- laws --

/// A part of a repository slug: ASCII letters, digits, dashes, underscores and dots.
pub open spec fn is_slug_part(s: Seq<char>) -> bool {
    s.len() > 0 && forall|i: int|
        0 <= i < s.len() ==> (is_ascii_alnum(#[trigger] s[i]) || s[i] == '-' || s[i] == '_' || s[i]
            == '.')
}

proof fn lemma_prefix_ends(k: int)
    requires
        0 <= k < prefixes().len(),
    ensures
        prefixes()[k].len() > 0,
        prefixes()[k].last() == ' ' || prefixes()[k].last() == '\'',
{
    reveal_strlit("ayuntamiento de ");
    reveal_strlit("municipality of ");
    reveal_strlit("ajuntament de ");
    reveal_strlit("concello de ");
    reveal_strlit("concejo de ");
    reveal_strlit("municipio de ");
    reveal_strlit("udaletxea ");
    reveal_strlit("comune di ");
    reveal_strlit("mairie de ");
    reveal_strlit("ajuntament d'");
    reveal_strlit("ville de ");
    reveal_strlit("town of ");
    reveal_strlit("city of ");
    reveal_strlit("udala ");
    reveal_strlit("ayto. de ");
    reveal_strlit("ayto de ");
    reveal_strlit("gemeinde ");
    reveal_strlit("stadt ");
    reveal_strlit("ayto. ");
    reveal_strlit("ayto ");
    reveal_strlit("ayuntamiento ");
    reveal_strlit("ajuntament ");
    reveal_strlit("concello ");
    reveal_strlit("concejo ");
    reveal_strlit("municipio ");
    reveal_strlit("comune ");
    reveal_strlit("mairie ");
}

/// Nothing but what a slug is written with: its parts and the slash between them.
spec fn slug_chars(s: Seq<char>) -> bool {
    forall|i: int|
        0 <= i < s.len() ==> (is_ascii_alnum(#[trigger] s[i]) || s[i] == '-' || s[i] == '_' || s[i]
            == '.' || s[i] == '/')
}

proof fn lemma_no_prefix(s: Seq<char>, k: int)
    requires
        slug_chars(s),
        0 <= k <= prefixes().len(),
    ensures
        prefix_len(s, k) == 0,
    decreases prefixes().len() - k,
{
    if k < prefixes().len() {
        lemma_prefix_ends(k);
        let p = prefixes()[k];
        if starts(s, p) {
            assert(s.subrange(0, p.len() as int)[p.len() - 1] == s[p.len() - 1]);
        }
        lemma_no_prefix(s, k + 1);
    }
}

proof fn lemma_plain(s: Seq<char>)
    requires
        all_ascii(s),
    ensures
        unaccented(s) == s,
    decreases s.len(),
{
    if s.len() > 0 {
        assert forall|i: int| 0 <= i < s.len() - 1 implies (#[trigger] s.drop_last()[i] as u32)
            < 0x80 by {
            assert(s.drop_last()[i] == s[i]);
        }
        lemma_plain(s.drop_last());
        assert((s[s.len() - 1] as u32) < 0x80);
        assert(s.last() == s[s.len() - 1]);
        assert(plain_letters(s.last()) == seq![s.last()]);
        assert(unaccented(s) =~= s);
    }
}

/// A name that is written like a slug has no gloss, no suffix and no prefix.
proof fn lemma_slug_key(s: Seq<char>)
    requires
        slug_chars(s),
    ensures
        key_of_lower(s) == collapsed(without_owner(s)),
{
    assert forall|i: int| 0 <= i < s.len() implies (#[trigger] s[i] as u32) < 0x80 by {
        assert(is_ascii_alnum(s[i]) || s[i] == '-' || s[i] == '_' || s[i] == '.' || s[i] == '/');
    }
    lemma_plain(s);
    reveal_strlit(")");
    reveal_strlit(" udaletxea");
    reveal_strlit(" udala");
    assert(trim_end(s) == s) by {
        if s.len() > 0 {
            assert(s.last() == s[s.len() - 1]);
        }
    }
    if ends(s, ")"@) {
        assert(s.subrange(s.len() - 1, s.len() as int)[0] == s[s.len() - 1]);
    }
    assert(institution(s) is None);
    assert(without_parenthetical(s) == s);
    if ends(s, " udaletxea"@) {
        assert(s.subrange(s.len() - 10, s.len() as int)[0] == s[s.len() - 10]);
    }
    if ends(s, " udala"@) {
        assert(s.subrange(s.len() - 6, s.len() as int)[0] == s[s.len() - 6]);
    }
    assert(without_udala(s) == s);
    lemma_no_prefix(s, 0);
    assert(without_prefix(s) =~= s);
}

proof fn lemma_no_slash(s: Seq<char>, i: int, n: int)
    requires
        0 <= i <= n <= s.len(),
        forall|k: int| i <= k < n ==> #[trigger] s[k] != '/',
    ensures
        index_from(s, i, '/') == index_from(s, n, '/'),
    decreases n - i,
{
    if i < n {
        assert(s[i] != '/');
        lemma_no_slash(s, i + 1, n);
    }
}

/// The owner of a repository does not matter: a slug has the key of the repository's
/// name alone.
pub proof fn law_owners_do_not_matter(owner: Seq<char>, repo: Seq<char>)
    requires
        is_slug_part(owner),
        is_slug_part(repo),
    ensures
        entity_key(owner + seq!['/'] + repo) == entity_key(repo),
{
    let s = owner + seq!['/'] + repo;
    assert forall|i: int| 0 <= i < s.len() implies (#[trigger] s[i] as u32) < 0x80 by {
        if i < owner.len() {
            assert(s[i] == owner[i]);
        } else if i > owner.len() {
            assert(s[i] == repo[i - owner.len() - 1]);
        }
    }
    assert(all_ascii(s));
    assert(all_ascii(repo));
    let a = lower_all(owner);
    let b = lower_all(repo);
    let t = lower_all(s);
    assert(t =~= a + seq!['/'] + b);
    assert forall|i: int| 0 <= i < b.len() implies (is_ascii_alnum(#[trigger] b[i]) || b[i] == '-'
        || b[i] == '_' || b[i] == '.') by {
        assert(is_ascii_alnum(repo[i]) || repo[i] == '-' || repo[i] == '_' || repo[i] == '.');
    }
    assert forall|i: int| 0 <= i < a.len() implies (is_ascii_alnum(#[trigger] a[i]) || a[i] == '-'
        || a[i] == '_' || a[i] == '.') by {
        assert(is_ascii_alnum(owner[i]) || owner[i] == '-' || owner[i] == '_' || owner[i] == '.');
    }
    assert forall|i: int| 0 <= i < t.len() implies (is_ascii_alnum(#[trigger] t[i]) || t[i] == '-'
        || t[i] == '_' || t[i] == '.' || t[i] == '/') by {
        if i < a.len() {
            assert(t[i] == a[i]);
        } else if i > a.len() {
            assert(t[i] == b[i - a.len() - 1]);
        }
    }
    assert(slug_chars(t) && slug_chars(b));
    lemma_slug_key(t);
    lemma_slug_key(b);
    let n = a.len() as int;
    assert forall|k: int| 0 <= k < n implies #[trigger] t[k] != '/' by {
        assert(t[k] == a[k]);
    }
    lemma_no_slash(t, 0, n);
    assert forall|k: int| n + 1 <= k < t.len() implies #[trigger] t[k] != '/' by {
        assert(t[k] == b[k - n - 1]);
    }
    lemma_no_slash(t, n + 1, t.len() as int);
    assert(t.subrange(n + 1, t.len() as int) =~= b);
    assert(without_owner(t) == b);
    assert forall|k: int| 0 <= k < b.len() implies #[trigger] b[k] != '/' by {
    }
    lemma_no_slash(b, 0, b.len() as int);
    assert(without_owner(b) == b);
}

/// A run of letters and digits.
pub open spec fn is_run(w: Seq<char>) -> bool {
    w.len() > 0 && forall|i: int| 0 <= i < w.len() ==> is_alnum(#[trigger] w[i])
}

proof fn lemma_in_run(s: Seq<char>, i: int, k: int)
    requires
        0 <= i <= k < run_end(s, i),
        i <= s.len(),
    ensures
        k < s.len(),
        is_alnum(s[k]),
    decreases s.len() - i,
{
    lemma_run_end(s, i);
    if i < s.len() && is_alnum(s[i]) && i < k {
        lemma_in_run(s, i + 1, k);
    }
}

/// What the runs of a text are.
pub proof fn lemma_runs(s: Seq<char>, i: int, k: int)
    requires
        0 <= i <= s.len(),
        0 <= k < runs_from(s, i).len(),
    ensures
        is_run(runs_from(s, i)[k]),
        forall|j: int|
            0 <= j < runs_from(s, i)[k].len() ==> s.contains(#[trigger] runs_from(s, i)[k][j]),
    decreases s.len() - i,
{
    if i < s.len() {
        if !is_alnum(s[i]) {
            lemma_runs(s, i + 1, k);
        } else {
            lemma_run_end(s, i);
            let e = run_end(s, i);
            let w = s.subrange(i, e);
            if k == 0 {
                assert(runs_from(s, i)[0] == w);
                assert forall|j: int| 0 <= j < w.len() implies is_alnum(#[trigger] w[j])
                    && s.contains(w[j]) by {
                    lemma_in_run(s, i, i + j);
                    assert(w[j] == s[i + j]);
                }
            } else {
                lemma_runs(s, e, k - 1);
                assert(runs_from(s, i)[k] == runs_from(s, e)[k - 1]);
            }
        }
    }
}

/// The key of an entity is words of letters and digits with one space between each two.
pub proof fn law_keys_are_words(name: Seq<char>)
    ensures
        exists|parts: Seq<Seq<char>>| #[trigger]
            join(parts, seq![' ']) == entity_key(name) && forall|i: int|
                0 <= i < parts.len() ==> is_run(#[trigger] parts[i]),
{
    let plain = unaccented(lowercase(name));
    let bare = match institution(plain) {
        Some(n) => n,
        None => without_parenthetical(plain),
    };
    let s = without_owner(without_prefix(without_udala(bare)));
    let parts = runs_from(s, 0);
    assert forall|i: int| 0 <= i < parts.len() implies is_run(#[trigger] parts[i]) by {
        lemma_runs(s, 0, i);
    }
    assert(join(parts, seq![' ']) == entity_key(name));
}

/// Nothing but ASCII, and no parenthesis.
spec fn prefix_chars(p: Seq<char>) -> bool {
    forall|i: int|
        0 <= i < p.len() ==> (#[trigger] p[i] as u32) < 0x80 && p[i] != '(' && p[i] != ')'
}

proof fn lemma_prefix_chars(k: int)
    requires
        0 <= k < prefixes().len(),
    ensures
        prefix_chars(prefixes()[k]),
{
    reveal_strlit("ayuntamiento de ");
    reveal_strlit("municipality of ");
    reveal_strlit("ajuntament de ");
    reveal_strlit("concello de ");
    reveal_strlit("concejo de ");
    reveal_strlit("municipio de ");
    reveal_strlit("udaletxea ");
    reveal_strlit("comune di ");
    reveal_strlit("mairie de ");
    reveal_strlit("ajuntament d'");
    reveal_strlit("ville de ");
    reveal_strlit("town of ");
    reveal_strlit("city of ");
    reveal_strlit("udala ");
    reveal_strlit("ayto. de ");
    reveal_strlit("ayto de ");
    reveal_strlit("gemeinde ");
    reveal_strlit("stadt ");
    reveal_strlit("ayto. ");
    reveal_strlit("ayto ");
    reveal_strlit("ayuntamiento ");
    reveal_strlit("ajuntament ");
    reveal_strlit("concello ");
    reveal_strlit("concejo ");
    reveal_strlit("municipio ");
    reveal_strlit("comune ");
    reveal_strlit("mairie ");
    assert(prefix_chars("ayuntamiento de "@));
    assert(prefix_chars("municipality of "@));
    assert(prefix_chars("ajuntament de "@));
    assert(prefix_chars("concello de "@));
    assert(prefix_chars("concejo de "@));
    assert(prefix_chars("municipio de "@));
    assert(prefix_chars("udaletxea "@));
    assert(prefix_chars("comune di "@));
    assert(prefix_chars("mairie de "@));
    assert(prefix_chars("ajuntament d'"@));
    assert(prefix_chars("ville de "@));
    assert(prefix_chars("town of "@));
    assert(prefix_chars("city of "@));
    assert(prefix_chars("udala "@));
    assert(prefix_chars("ayto. de "@));
    assert(prefix_chars("ayto de "@));
    assert(prefix_chars("gemeinde "@));
    assert(prefix_chars("stadt "@));
    assert(prefix_chars("ayto. "@));
    assert(prefix_chars("ayto "@));
    assert(prefix_chars("ayuntamiento "@));
    assert(prefix_chars("ajuntament "@));
    assert(prefix_chars("concello "@));
    assert(prefix_chars("concejo "@));
    assert(prefix_chars("municipio "@));
    assert(prefix_chars("comune "@));
    assert(prefix_chars("mairie "@));
}

proof fn lemma_unaccented_add(a: Seq<char>, b: Seq<char>)
    ensures
        unaccented(a + b) == unaccented(a) + unaccented(b),
    decreases b.len(),
{
    if b.len() == 0 {
        assert(a + b =~= a);
        assert(unaccented(a) + unaccented(b) =~= unaccented(a));
    } else {
        assert((a + b).drop_last() =~= a + b.drop_last());
        assert((a + b).last() == b.last());
        lemma_unaccented_add(a, b.drop_last());
        assert(unaccented(a + b) =~= unaccented(a) + unaccented(b));
    }
}

/// Where a parenthesis opens last does not depend on a start that has none.
proof fn lemma_last_open(p: Seq<char>, t: Seq<char>, i: int)
    requires
        prefix_chars(p),
        -p.len() <= i + 1,
        i <= t.len(),
    ensures
        rfind_from(p + t, p.len() + i, "("@) == match rfind_from(t, i, "("@) {
            Some(k) => Some(p.len() + k),
            None => None,
        },
    decreases i + p.len() + 1,
{
    reveal_strlit("(");
    let s = p + t;
    let j = p.len() + i;
    if j >= 0 {
        if 0 <= i < t.len() {
            assert(s.subrange(j, j + 1) =~= t.subrange(i, i + 1));
        } else if i < 0 {
            if match_at(s, j, "("@) {
                assert(s.subrange(j, j + 1)[0] == p[j]);
            }
        }
        assert(match_at(s, j, "("@) == match_at(t, i, "("@));
        if !match_at(s, j, "("@) {
            lemma_last_open(p, t, i - 1);
            if i <= 0 {
                assert(rfind_from(t, i - 1, "("@) is None);
            }
        }
    }
}

/// A text that a Basque suffix word ends behind a prefix, though not without it, is that
/// word.
proof fn lemma_suffix_word(p: Seq<char>, b: Seq<char>, suffix: Seq<char>)
    requires
        p.len() > 0,
        p.last() == ' ' || p.last() == '\'',
        b.len() > 0,
        suffix.len() > 1,
        forall|i: int|
            1 <= i < suffix.len() ==> #[trigger] suffix[i] != ' ' && suffix[i] != '\'',
        suffix[0] == ' ',
        b != suffix.drop_first(),
    ensures
        ends(p + b, suffix) == ends(b, suffix),
{
    let s = p + b;
    let n = suffix.len() as int;
    if b.len() >= n {
        assert(s.subrange(s.len() - n, s.len() as int) =~= b.subrange(b.len() - n, b.len() as int));
    } else if ends(s, suffix) {
        let m = s.subrange(s.len() - n, s.len() as int);
        let i = n - b.len() - 1;
        assert(m[i] == p.last());
        assert(suffix[i] == p.last());
        assert(i == 0);
        assert(b =~= suffix.drop_first()) by {
            assert forall|j: int| 0 <= j < b.len() implies b[j] == suffix.drop_first()[j] by {
                assert(m[j + 1] == b[j]);
            }
        }
    }
}

/// The name that is left of a lower-case text behind its accents, its parenthetical and
/// its Basque suffix word.
pub open spec fn bare_name(lower: Seq<char>) -> Seq<char> {
    without_udala(without_parenthetical(unaccented(lower)))
}

/// A prefix stays in front of what is trimmed behind it.
proof fn lemma_prefixed(p: Seq<char>, x: Seq<char>)
    requires
        trim_end(x).len() > 0,
    ensures
        trim_end(p + x) == p + trim_end(x),
{
    lemma_trim_end(x);
    let t = trim_end(x);
    assert(x[t.len() - 1] == t.last());
    assert(!blank(x));
    lemma_trim_end_add(p, x);
}

/// A lower-case name in front of which the `k`-th prefix is read as just that: the name
/// has none itself, is not blank and is not a Basque suffix word. A name that an
/// institution's gloss settles needs nothing.
pub open spec fn takes_prefix(lower: Seq<char>, k: int) -> bool {
    institution(unaccented(lower)) is None ==> {
        let b = without_parenthetical(unaccented(lower));
        let c = bare_name(lower);
        &&& b != "udala"@ && b != "udaletxea"@
        &&& c.len() > 0
        &&& prefix_len(c, 0) == 0
        &&& prefix_len(prefixes()[k] + c, 0) == prefixes()[k].len()
    }
}

/// A prefix changes neither an institution's gloss nor how a parenthetical is dropped.
proof fn lemma_prefix_parenthetical(p: Seq<char>, m: Seq<char>)
    requires
        prefix_chars(p),
        trim_end(m).len() > 0,
    ensures
        institution(p + m) == institution(m),
        institution(m) is None && without_parenthetical(m).len() > 0 ==> without_parenthetical(
            p + m,
        ) == p + without_parenthetical(m),
{
    let t = trim_end(m);
    reveal_strlit(")");
    reveal_strlit("(");
    lemma_trim_end(m);
    lemma_prefixed(p, m);
    let u = p + t;
    assert(trim_end(p + m) == u);
    assert(u.subrange(u.len() - 1, u.len() as int) =~= t.subrange(t.len() - 1, t.len() as int));
    assert(ends(u, ")"@) == ends(t, ")"@));
    lemma_last_open(p, t, t.len() as int);
    lemma_rfind(t, t.len() as int, "("@);
    match rfind_from(t, t.len() as int, "("@) {
        Some(open) => {
            assert(u.take(p.len() + open) =~= p + t.take(open));
            if ends(t, ")"@) {
                assert(t.subrange(t.len() - 1, t.len() as int)[0] == t[t.len() - 1]);
                assert(t.subrange(open, open + 1)[0] == t[open]);
                assert(u.subrange(p.len() + open + 1, u.len() - 1) =~= t.subrange(
                    open + 1,
                    t.len() - 1,
                ));
                if trim_end(t.take(open)).len() > 0 {
                    lemma_prefixed(p, t.take(open));
                }
            }
        },
        None => {},
    }
}

/// A prefix does not change how a Basque suffix word is dropped.
proof fn lemma_prefix_udala(p: Seq<char>, b: Seq<char>)
    requires
        p.len() > 0,
        p.last() == ' ' || p.last() == '\'',
        b.len() > 0,
        trim_end(b) == b,
        b != "udala"@,
        b != "udaletxea"@,
        without_udala(b).len() > 0,
    ensures
        without_udala(p + b) == p + without_udala(b),
{
    lemma_prefixed(p, b);
    reveal_strlit(" udala");
    reveal_strlit(" udaletxea");
    reveal_strlit("udala");
    reveal_strlit("udaletxea");
    assert(" udala"@.drop_first() =~= "udala"@);
    assert(" udaletxea"@.drop_first() =~= "udaletxea"@);
    lemma_suffix_word(p, b, " udala"@);
    lemma_suffix_word(p, b, " udaletxea"@);
    if ends(b, " udaletxea"@) {
        assert((p + b).take((p + b).len() - 10) =~= p + b.take(b.len() - 10));
        lemma_prefixed(p, b.take(b.len() - 10));
    } else if ends(b, " udala"@) {
        assert((p + b).take((p + b).len() - 6) =~= p + b.take(b.len() - 6));
        lemma_prefixed(p, b.take(b.len() - 6));
    }
}

/// A blank text names nothing.
proof fn lemma_blank_name(m: Seq<char>)
    requires
        trim_end(m).len() == 0,
    ensures
        institution(m) is None,
        without_udala(without_parenthetical(m)).len() == 0,
{
    let t = trim_end(m);
    assert(t =~= Seq::<char>::empty());
    reveal_strlit(")");
    reveal_strlit(" udala");
    reveal_strlit(" udaletxea");
    lemma_trim_end(t);
    assert(without_parenthetical(m) =~= t);
}

/// One administrative prefix does not change the key of a lower-case name.
pub proof fn law_a_prefix_does_not_matter(lower: Seq<char>, k: int)
    requires
        0 <= k < prefixes().len(),
        takes_prefix(lower, k),
    ensures
        key_of_lower(prefixes()[k] + lower) == key_of_lower(lower),
{
    let p = prefixes()[k];
    let m = unaccented(lower);
    lemma_prefix_ends(k);
    lemma_prefix_chars(k);
    assert(all_ascii(p));
    lemma_plain(p);
    lemma_unaccented_add(p, lower);
    if trim_end(m).len() == 0 {
        lemma_blank_name(m);
    }
    lemma_prefix_parenthetical(p, m);
    if institution(m) is None {
        let b = without_parenthetical(m);
        let c = without_udala(b);
        lemma_trim_end_twice(b, m);
        if b.len() == 0 {
            reveal_strlit(" udala");
            reveal_strlit(" udaletxea");
            assert(c.len() == 0);
        }
        lemma_prefix_udala(p, b);
        assert(without_prefix(p + c) =~= c);
        assert(without_prefix(c) =~= c);
    }
}

/// One administrative prefix, in any case, does not change the key of an ASCII name.
pub proof fn law_a_written_prefix_does_not_matter(written: Seq<char>, name: Seq<char>, k: int)
    requires
        0 <= k < prefixes().len(),
        all_ascii(written),
        lower_all(written) == prefixes()[k],
        all_ascii(name),
        takes_prefix(lower_all(name), k),
    ensures
        entity_key(written + name) == entity_key(name),
{
    let whole = written + name;
    assert forall|i: int| 0 <= i < whole.len() implies (#[trigger] whole[i] as u32) < 0x80 by {
        if i < written.len() {
            assert(whole[i] == written[i]);
        } else {
            assert(whole[i] == name[i - written.len()]);
        }
    }
    assert(lower_all(whole) =~= prefixes()[k] + lower_all(name)) by {
        assert(lower_all(whole) =~= lower_all(written) + lower_all(name));
    }
    law_a_prefix_does_not_matter(lower_all(name), k);
}

/// Words of ASCII letters and digits with one space between each two.
pub open spec fn plain_words(s: Seq<char>) -> bool {
    &&& s.len() > 0
    &&& forall|i: int| 0 <= i < s.len() ==> is_ascii_alnum(#[trigger] s[i]) || s[i] == ' '
    &&& s[0] != ' '
    &&& s.last() != ' '
    &&& forall|i: int, j: int|
        0 <= i && j == i + 1 && j < s.len() && #[trigger] s[i] == ' ' ==> #[trigger] s[j] != ' '
}

/// Of a lower-case name nothing is dropped: it starts with no administrative prefix, and
/// its last word is no Basque suffix word.
pub open spec fn drops_nothing(lower: Seq<char>) -> bool {
    &&& prefix_len(lower, 0) == 0
    &&& lower != "udala"@ && !ends(lower, " udala"@)
    &&& lower != "udaletxea"@ && !ends(lower, " udaletxea"@)
}

proof fn lemma_run_stops(s: Seq<char>, i: int)
    requires
        0 <= i <= s.len(),
    ensures
        run_end(s, i) < s.len() ==> !is_alnum(s[run_end(s, i)]),
    decreases s.len() - i,
{
    if i < s.len() && is_alnum(s[i]) {
        lemma_run_stops(s, i + 1);
    }
}

/// From the start of a word on, plain words are their own runs.
proof fn lemma_plain_runs(s: Seq<char>, i: int)
    requires
        plain_words(s),
        0 <= i < s.len(),
        s[i] != ' ',
    ensures
        join(runs_from(s, i), seq![' ']) == s.subrange(i, s.len() as int),
    decreases s.len() - i,
{
    assert(is_alnum(s[i])) by {
        assert(is_ascii_alnum(s[i]));
    }
    lemma_run_end(s, i);
    lemma_run_stops(s, i);
    let e = run_end(s, i);
    let w = s.subrange(i, e);
    let rest = runs_from(s, e);
    lemma_join_first(w, rest, seq![' ']);
    if e == s.len() {
        assert(rest =~= Seq::<Seq<char>>::empty());
    } else {
        assert(!is_alnum(s[e]));
        assert(s[e] == ' ') by {
            if is_ascii_alnum(s[e]) {
                assert(is_alnum(s[e]));
            }
        }
        assert(s.last() == s[s.len() - 1]);
        assert(s[e + 1] != ' ');
        lemma_plain_runs(s, e + 1);
        assert(rest == runs_from(s, e + 1));
        assert(is_ascii_alnum(s[e + 1]));
        assert(rest.len() > 0);
        assert(w + seq![' '] + s.subrange(e + 1, s.len() as int) =~= s.subrange(
            i,
            s.len() as int,
        ));
    }
}

/// Plain words in lower case, of which nothing is dropped, are their own key.
proof fn lemma_plain_key(s: Seq<char>)
    requires
        plain_words(s),
        drops_nothing(s),
    ensures
        key_of_lower(s) == s,
        institution(s) is None,
        without_parenthetical(s) == s,
        without_udala(s) == s,
        unaccented(s) == s,
{
    assert forall|i: int| 0 <= i < s.len() implies (#[trigger] s[i] as u32) < 0x80 by {
        assert(is_ascii_alnum(s[i]) || s[i] == ' ');
    }
    lemma_plain(s);
    reveal_strlit(")");
    assert(s.last() == s[s.len() - 1]);
    assert(is_ascii_alnum(s[s.len() - 1]));
    assert(trim_end(s) == s);
    if ends(s, ")"@) {
        assert(s.subrange(s.len() - 1, s.len() as int)[0] == s[s.len() - 1]);
    }
    assert(without_prefix(s) =~= s);
    assert(index_from(s, 0, '/') is None) by {
        assert forall|k: int| 0 <= k < s.len() implies #[trigger] s[k] != '/' by {
            assert(is_ascii_alnum(s[k]) || s[k] == ' ');
        }
        lemma_no_slash(s, 0, s.len() as int);
    }
    assert(s[0] != ' ');
    lemma_plain_runs(s, 0);
    assert(s.subrange(0, s.len() as int) =~= s);
}

proof fn lemma_lower_plain(s: Seq<char>)
    requires
        plain_words(s),
    ensures
        plain_words(lower_all(s)),
        all_ascii(s),
{
    let low = lower_all(s);
    assert forall|i: int| 0 <= i < s.len() implies (#[trigger] s[i] as u32) < 0x80 by {
        assert(is_ascii_alnum(s[i]) || s[i] == ' ');
    }
    assert forall|i: int| 0 <= i < low.len() implies is_ascii_alnum(#[trigger] low[i]) || low[i]
        == ' ' by {
        assert(is_ascii_alnum(s[i]) || s[i] == ' ');
    }
    assert(low[0] == lower(s[0]) && low.last() == lower(s.last()));
    assert forall|i: int, j: int|
        0 <= i && j == i + 1 && j < low.len() && #[trigger] low[i] == ' ' implies #[trigger] low[j]
        != ' ' by {
        assert(is_ascii_alnum(s[i]) || s[i] == ' ');
        assert(s[i] == ' ' && s[j] != ' ');
        assert(is_ascii_alnum(s[j]));
    }
}

/// A name of plain words, of which nothing is dropped, is its own key in lower case, and
/// so it is behind a prefix.
pub proof fn law_plain_names_are_their_own_keys(name: Seq<char>)
    requires
        plain_words(name),
        drops_nothing(lower_all(name)),
    ensures
        entity_key(name) == lower_all(name),
        entity_key("Ayuntamiento de "@ + name) == lower_all(name),
{
    let low = lower_all(name);
    lemma_lower_plain(name);
    lemma_plain_key(low);
    reveal_strlit("Ayuntamiento de ");
    reveal_strlit("ayuntamiento de ");
    let p = "ayuntamiento de "@;
    assert(lower_all("Ayuntamiento de "@) =~= p);
    assert((p + low).subrange(0, p.len() as int) =~= p);
    assert(starts(p + low, prefixes()[0]));
    law_a_written_prefix_does_not_matter("Ayuntamiento de "@, name, 0);
}

/// What a parenthetical was dropped from ends in no white space.
proof fn lemma_trim_end_twice(b: Seq<char>, m: Seq<char>)
    requires
        b == without_parenthetical(m),
    ensures
        trim_end(b) == b,
{
    let t = trim_end(m);
    lemma_trim_end(m);
    match rfind_from(t, t.len() as int, "("@) {
        Some(open) => {
            lemma_trim_end(t.take(open));
        },
        None => {},
    }
}

} // verus!
