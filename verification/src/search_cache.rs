//! A cache of search responses: how an entry is named, when it is written and when
//! it is served.
//!
//! Only responses with something in them are kept. An empty one is how a block or a
//! markup change looks, and keeping it would freeze the failure in.
use vstd::prelude::*;
use vstd::string::*;
use vstd::arithmetic::div_mod::{lemma_mul_mod_noop_left, lemma_mul_mod_noop_right};
use vstd::arithmetic::mul::lemma_mul_is_associative;
use vstd::arithmetic::power::{lemma_pow1, lemma_pow_adds, pow};
use vstd::utf8::encode_utf8;
use crate::hits::hits_view;
use crate::numeral::{
    decimal, decimal_chars, digit, hex, hex_chars, hex_digit_value, hex_value_of, is_hex_digit,
    left_padded, pad_left, repeat,
};
use crate::scan::{
    join, lemma_lower_words, lemma_squeeze_words, lemma_word_end, squeeze, squeeze_spaces, word_end,
    words, words_from,
};
use crate::text::{
    all_ascii, from_chars, is_space, lower_all, lowercase, push_range, push_str, str_eq, to_chars,
    to_lower,
};
use crate::types::Hit;

verus! {

/// Seconds a cached search stays usable by default: six hours.
pub const DEFAULT_TTL: u64 = 21_600;

/// One entry: the answer and the identity of the question, so that two questions
/// of one name cannot get each other's answer.
#[derive(Debug)]
pub struct Entry {
    pub lane: String,
    pub query: String,
    pub limit: usize,
    /// Unix seconds when this was written.
    pub stored_at: u64,
    pub hits: Vec<Hit>,
}

// -------------------------------------------------------------------- keys --

/// A query as the cache knows it.
pub open spec fn normalized(q: Seq<char>) -> Seq<char> {
    lowercase(squeeze(q))
}

/// Queries that differ only in case or spacing are the same search.
pub fn normalize_query(q: &str) -> (r: String)
    ensures
        r@ == normalized(q@),
{
    let v = to_chars(q);
    let s = squeeze_spaces(&v);
    let t = from_chars(&s);
    to_lower(t.as_str())
}

/// One step of the 64-bit FNV-1a hash.
pub open spec fn fnv_step(h: u64, b: u8) -> u64 {
    (h ^ (b as u64)).wrapping_mul(0x100_0000_01b3)
}

/// The 64-bit FNV-1a hash.
pub open spec fn fnv(b: Seq<u8>) -> u64
    decreases b.len(),
{
    if b.len() == 0 {
        0xcbf2_9ce4_8422_2325
    } else {
        fnv_step(fnv(b.drop_last()), b.last())
    }
}

/// What is hashed: the lane, the query as the cache knows it, and the limit.
pub open spec fn key_material(lane: Seq<char>, query: Seq<char>, limit: nat) -> Seq<char> {
    lane + seq!['\u{1}'] + query + seq!['\u{1}'] + decimal(limit)
}

/// The name of a search: sixteen hexadecimal digits.
pub open spec fn key(lane: Seq<char>, query: Seq<char>, limit: nat) -> Seq<char> {
    pad_left(
        hex(fnv(encode_utf8(key_material(lane, normalized(query), limit))) as nat),
        16,
        '0',
    )
}

fn hash(b: &[u8]) -> (h: u64)
    ensures
        h == fnv(b@),
{
    let mut h: u64 = 0xcbf2_9ce4_8422_2325;
    let mut i: usize = 0;
    assert(b@.take(0) =~= Seq::<u8>::empty());
    while i < b.len()
        invariant
            i <= b@.len(),
            h == fnv(b@.take(i as int)),
        decreases b@.len() - i,
    {
        let ghost part = b@.take(i + 1);
        assert(part.drop_last() =~= b@.take(i as int));
        assert(part.last() == b@[i as int]);
        h = (h ^ (b[i] as u64)).wrapping_mul(0x100_0000_01b3);
        i += 1;
    }
    assert(b@.take(i as int) =~= b@);
    h
}

/// The name of a search by its lane, query and limit. It names a file and
/// authenticates nothing: the entry carries the question itself.
pub fn cache_key(lane: &str, query: &str, limit: usize) -> (r: String)
    ensures
        r@ == key(lane@, query@, limit as nat),
{
    let q = normalize_query(query);
    let mut m = to_chars(lane);
    m.push('\u{1}');
    push_str(&mut m, q.as_str());
    m.push('\u{1}');
    let d = decimal_chars(limit as u128);
    push_range(&mut m, &d, 0, d.len());
    assert(d@.subrange(0, d@.len() as int) =~= d@);
    assert(m@ =~= key_material(lane@, q@, limit as nat));
    let text = from_chars(&m);
    let h: u64 = hash(text.as_str().as_bytes());
    let digits = hex_chars(h as u128);
    let padded = left_padded(&digits, 16, '0');
    from_chars(&padded)
}

/// Queries that differ only in spacing have the same name.
pub proof fn law_spacing_does_not_matter(lane: Seq<char>, a: Seq<char>, b: Seq<char>, limit: nat)
    requires
        words(a) == words(b),
    ensures
        key(lane, a, limit) == key(lane, b, limit),
{
}

proof fn lemma_lower_join(parts: Seq<Seq<char>>, sep: Seq<char>)
    requires
        lower_all(sep) == sep,
    ensures
        join(parts.map_values(|w: Seq<char>| lower_all(w)), sep) == lower_all(join(parts, sep)),
    decreases parts.len(),
{
    let low = |w: Seq<char>| lower_all(w);
    let lows = parts.map_values(low);
    if parts.len() >= 2 {
        lemma_lower_join(parts.drop_last(), sep);
        assert(lows.drop_last() =~= parts.drop_last().map_values(low));
        let a = join(parts.drop_last(), sep);
        assert(lower_all(a + sep + parts.last()) =~= lower_all(a) + lower_all(sep) + lower_all(
            parts.last(),
        ));
    }
    assert(join(lows, sep) =~= lower_all(join(parts, sep)));
}

proof fn lemma_ascii_words(s: Seq<char>, i: int, k: int)
    requires
        0 <= i <= s.len(),
        all_ascii(s),
        0 <= k < words_from(s, i).len(),
    ensures
        all_ascii(words_from(s, i)[k]),
    decreases s.len() - i,
{
    if i < s.len() {
        if is_space(s[i]) {
            lemma_ascii_words(s, i + 1, k);
        } else {
            lemma_word_end(s, i);
            if k > 0 {
                lemma_ascii_words(s, word_end(s, i), k - 1);
            }
        }
    }
}

proof fn lemma_ascii_join(parts: Seq<Seq<char>>, sep: Seq<char>)
    requires
        all_ascii(sep),
        forall|k: int| 0 <= k < parts.len() ==> all_ascii(#[trigger] parts[k]),
    ensures
        all_ascii(join(parts, sep)),
    decreases parts.len(),
{
    if parts.len() >= 2 {
        assert forall|k: int| 0 <= k < parts.len() - 1 implies all_ascii(
            #[trigger] parts.drop_last()[k],
        ) by {
            assert(all_ascii(parts[k]));
        }
        lemma_ascii_join(parts.drop_last(), sep);
        assert(all_ascii(parts[parts.len() - 1]));
    }
}

/// Queries of ASCII letters that differ only in case or spacing have the same name.
pub proof fn law_case_does_not_matter(lane: Seq<char>, a: Seq<char>, b: Seq<char>, limit: nat)
    requires
        all_ascii(a),
        all_ascii(b),
        words(lower_all(a)) == words(lower_all(b)),
    ensures
        key(lane, a, limit) == key(lane, b, limit),
{
    let gap = seq![' '];
    assert(lower_all(gap) =~= gap);
    lemma_lower_words(a, 0);
    lemma_lower_words(b, 0);
    lemma_lower_join(words(a), gap);
    lemma_lower_join(words(b), gap);
    assert forall|k: int| 0 <= k < words(a).len() implies all_ascii(#[trigger] words(a)[k]) by {
        lemma_ascii_words(a, 0, k);
    }
    assert forall|k: int| 0 <= k < words(b).len() implies all_ascii(#[trigger] words(b)[k]) by {
        lemma_ascii_words(b, 0, k);
    }
    lemma_ascii_join(words(a), gap);
    lemma_ascii_join(words(b), gap);
    assert(normalized(a) == normalized(b));
}

/// What the cache knows an ASCII query by.
proof fn lemma_normalized_ascii(q: Seq<char>)
    requires
        all_ascii(q),
    ensures
        all_ascii(squeeze(q)),
        normalized(q) == lower_all(squeeze(q)),
        normalized(q) == squeeze(lower_all(q)),
        all_ascii(normalized(q)),
{
    let gap = seq![' '];
    assert(lower_all(gap) =~= gap);
    lemma_lower_words(q, 0);
    lemma_lower_join(words(q), gap);
    assert forall|k: int| 0 <= k < words(q).len() implies all_ascii(#[trigger] words(q)[k]) by {
        lemma_ascii_words(q, 0, k);
    }
    lemma_ascii_join(words(q), gap);
    let s = squeeze(q);
    assert forall|i: int| 0 <= i < s.len() implies (#[trigger] lower_all(s)[i] as u32) < 0x80 by {
        assert((s[i] as u32) < 0x80);
    }
}

/// A query that is known by its words: normalising it again changes nothing, its words
/// are parted by single spaces with none around them, it has no capitals, and queries
/// of the same words but for case are the same. Of ASCII queries.
pub proof fn law_queries_are_normalised_once(q: Seq<char>, other: Seq<char>)
    requires
        all_ascii(q),
        all_ascii(other),
    ensures
        normalized(normalized(q)) == normalized(q),
        normalized(q) == join(words(normalized(q)), seq![' ']),
        forall|i: int| 0 <= i < normalized(q).len() ==> !('A' <= #[trigger] normalized(q)[i] <= 'Z'),
        words(lower_all(q)) == words(lower_all(other)) ==> normalized(q) == normalized(other),
{
    let n = normalized(q);
    lemma_normalized_ascii(q);
    lemma_normalized_ascii(other);
    lemma_normalized_ascii(n);
    lemma_squeeze_words(lower_all(q));
    assert(lower_all(n) =~= n);
}

proof fn lemma_hex_digits(n: nat, width: nat)
    requires
        width > 0,
        n < pow(16, width),
    ensures
        0 < hex(n).len() <= width,
        forall|i: int| 0 <= i < hex(n).len() ==> is_hex_digit(#[trigger] hex(n)[i]) && !('A'
            <= hex(n)[i] <= 'F'),
        hex_value_of(hex(n)) == n,
    decreases n,
{
    let d = digit(n % 16);
    assert(is_hex_digit(d) && !('A' <= d <= 'F') && hex_digit_value(d) == n % 16);
    if n < 16 {
        assert(hex(n) =~= seq![d]);
        assert(seq![d].drop_last() =~= Seq::<char>::empty());
        assert(hex_value_of(seq![d].drop_last()) == 0);
    } else {
        lemma_pow1(16);
        if width == 1 {
            assert(pow(16, 1) == 16);
        }
        lemma_pow_adds(16, 1, (width - 1) as nat);
        assert(pow(16, width) == 16 * pow(16, (width - 1) as nat));
        lemma_hex_digits(n / 16, (width - 1) as nat);
        assert(hex(n) == hex(n / 16).push(d));
        assert(hex(n).drop_last() =~= hex(n / 16));
    }
}

proof fn lemma_hex_zeros(s: Seq<char>, z: nat)
    ensures
        hex_value_of(repeat('0', z) + s) == hex_value_of(s),
    decreases s.len(),
{
    let t = repeat('0', z) + s;
    if s.len() == 0 {
        assert(t =~= repeat('0', z));
        lemma_zeros(z);
    } else {
        assert(t.drop_last() =~= repeat('0', z) + s.drop_last());
        lemma_hex_zeros(s.drop_last(), z);
    }
}

proof fn lemma_zeros(z: nat)
    ensures
        hex_value_of(repeat('0', z)) == 0,
    decreases z,
{
    if z > 0 {
        assert(repeat('0', z).drop_last() =~= repeat('0', (z - 1) as nat));
        lemma_zeros((z - 1) as nat);
    }
}

/// A hash as sixteen digits, and back.
proof fn lemma_key_digits(h: u64)
    ensures
        ({
            let k = pad_left(hex(h as nat), 16, '0');
            &&& k.len() == 16
            &&& forall|i: int| 0 <= i < 16 ==> is_hex_digit(#[trigger] k[i]) && !('A' <= k[i] <= 'F')
            &&& hex_value_of(k) == h
        }),
{
    assert(pow(16, 16) == 0x1_0000_0000_0000_0000) by {
        reveal(pow);
        reveal_with_fuel(pow, 17);
    }
    lemma_hex_digits(h as nat, 16);
    let d = hex(h as nat);
    lemma_hex_zeros(d, (16 - d.len()) as nat);
    if d.len() == 16 {
        assert(pad_left(d, 16, '0') == d);
    }
}

/// The prime has an inverse: what it was multiplied with is known again.
proof fn lemma_prime_parts(x: u64, y: u64)
    requires
        x.wrapping_mul(0x100_0000_01b3) == y.wrapping_mul(0x100_0000_01b3),
    ensures
        x == y,
{
    let p: int = 0x100_0000_01b3;
    let v: int = 0xce96_5057_aff6_957b;
    let m: int = 0x1_0000_0000_0000_0000;
    assert((p * v) % m == 1);
    assert((x * p) % m == (y * p) % m);
    lemma_mul_mod_noop_left(x * p, v, m);
    lemma_mul_mod_noop_left(y * p, v, m);
    assert(((x * p) * v) % m == ((y * p) * v) % m);
    lemma_mul_is_associative(x as int, p, v);
    lemma_mul_is_associative(y as int, p, v);
    lemma_mul_mod_noop_right(x as int, p * v, m);
    lemma_mul_mod_noop_right(y as int, p * v, m);
    assert((x * 1) % m == (y * 1) % m);
}

proof fn lemma_step_parts(h: u64, a: u8, b: u8)
    requires
        a != b,
    ensures
        fnv_step(h, a) != fnv_step(h, b),
{
    if fnv_step(h, a) == fnv_step(h, b) {
        lemma_prime_parts(h ^ (a as u64), h ^ (b as u64));
        assert(h ^ (a as u64) == h ^ (b as u64) ==> a == b) by (bit_vector);
    }
}

/// A search's name is sixteen hexadecimal digits in lower case. Queries that normalise
/// alike share it, and limits that differ in their last digit alone never do.
pub proof fn law_names_part_limits(
    lane: Seq<char>,
    q: Seq<char>,
    same: Seq<char>,
    limit: nat,
    other: nat,
)
    requires
        normalized(q) == normalized(same),
    ensures
        key(lane, q, limit).len() == 16,
        forall|i: int|
            0 <= i < 16 ==> is_hex_digit(#[trigger] key(lane, q, limit)[i]) && !('A' <= key(
                lane,
                q,
                limit,
            )[i] <= 'F'),
        key(lane, q, limit) == key(lane, same, limit),
        limit != other && limit / 10 == other / 10 ==> key(lane, q, limit) != key(lane, q, other),
{
    let n = normalized(q);
    let a = key_material(lane, n, limit);
    let b = key_material(lane, n, other);
    lemma_key_digits(fnv(encode_utf8(a)));
    lemma_key_digits(fnv(encode_utf8(b)));
    if limit != other && limit / 10 == other / 10 {
        let da = digit(limit % 10);
        let db = digit(other % 10);
        let head = lane + seq!['\u{1}'] + n + seq!['\u{1}'];
        let common = if limit < 10 {
            head
        } else {
            head + decimal(limit / 10)
        };
        assert(a =~= common + seq![da]);
        assert(b =~= common + seq![db]);
        lemma_bytes_add(common, seq![da]);
        lemma_bytes_add(common, seq![db]);
        lemma_digit_byte(limit % 10);
        lemma_digit_byte(other % 10);
        let bytes = encode_utf8(common);
        let x = (0x30 + limit % 10) as u8;
        let y = (0x30 + other % 10) as u8;
        assert(encode_utf8(a).drop_last() =~= bytes && encode_utf8(a).last() == x);
        assert(encode_utf8(b).drop_last() =~= bytes && encode_utf8(b).last() == y);
        assert(x != y);
        lemma_step_parts(fnv(bytes), x, y);
    }
}

proof fn lemma_bytes_add(a: Seq<char>, b: Seq<char>)
    ensures
        encode_utf8(a + b) == encode_utf8(a) + encode_utf8(b),
    decreases a.len(),
{
    if a.len() == 0 {
        assert(a + b =~= b);
        assert(encode_utf8(a) + encode_utf8(b) =~= encode_utf8(b));
    } else {
        assert((a + b).drop_first() =~= a.drop_first() + b);
        lemma_bytes_add(a.drop_first(), b);
        assert(encode_utf8(a + b) =~= encode_utf8(a) + encode_utf8(b));
    }
}

/// A decimal digit takes one byte.
proof fn lemma_digit_byte(d: nat)
    requires
        d < 10,
    ensures
        encode_utf8(seq![digit(d)]) == seq![(0x30 + d) as u8],
{
    let c = digit(d) as u32;
    assert(c == 0x30 + d);
    assert(c < 0x80 ==> (c & 0x7F) as u8 == c as u8) by (bit_vector);
    assert(seq![digit(d)].drop_first() =~= Seq::<char>::empty());
    assert(encode_utf8(seq![digit(d)].drop_first()) =~= Seq::<u8>::empty());
    assert(encode_utf8(seq![digit(d)]) =~= seq![(0x30 + d) as u8]);
}

// ----------------------------------------------------------------- entries --

/// What an entry says about a question asked of it.
#[derive(Debug, Clone, Copy, PartialEq, Eq, Structural)]
pub enum Lookup {
    /// It answers the question.
    Hit,
    /// It answers another question of the same name.
    Collision,
    Expired,
    /// It holds nothing.
    Empty,
}

/// Seconds since an entry was written. A clock that went backwards makes it fresh
/// rather than very old.
pub open spec fn age(stored_at: u64, now: u64) -> int {
    if now > stored_at {
        now - stored_at
    } else {
        0
    }
}

pub fn age_secs(stored_at: u64, now: u64) -> (r: u64)
    ensures
        r == age(stored_at, now),
{
    if now > stored_at {
        now - stored_at
    } else {
        0
    }
}

/// What an entry says about a question.
pub open spec fn looked_up(
    e: Entry,
    lane: Seq<char>,
    query: Seq<char>,
    limit: usize,
    ttl: u64,
    now: u64,
) -> Lookup {
    if e.lane@ != lane || e.limit != limit || e.query@ != normalized(query) {
        Lookup::Collision
    } else if age(e.stored_at, now) > ttl {
        Lookup::Expired
    } else if e.hits@.len() == 0 {
        Lookup::Empty
    } else {
        Lookup::Hit
    }
}

fn copy_hits(hits: &Vec<Hit>) -> (r: Vec<Hit>)
    ensures
        hits_view(r@) == hits_view(hits@),
{
    let mut kept: Vec<Hit> = Vec::new();
    let mut i: usize = 0;
    let ghost all = hits_view(hits@);
    assert(hits_view(kept@) =~= all.take(0));
    while i < hits.len()
        invariant
            i <= hits@.len(),
            all == hits_view(hits@),
            hits_view(kept@) == all.take(i as int),
        decreases hits@.len() - i,
    {
        let h = hits[i].duplicate();
        let ghost before = kept@;
        kept.push(h);
        assert(hits_view(kept@) =~= hits_view(before).push(h@));
        assert(all.take(i + 1) =~= all.take(i as int).push(h@));
        i += 1;
    }
    assert(all.take(i as int) =~= all);
    kept
}

impl Entry {
    /// What the entry says about a question at time `now`. Only a hit is served.
    pub fn lookup(&self, lane: &str, query: &str, limit: usize, ttl: u64, now: u64) -> (r: Lookup)
        ensures
            r == looked_up(*self, lane@, query@, limit, ttl, now),
    {
        let q = normalize_query(query);
        if !str_eq(self.lane.as_str(), lane) || self.limit != limit || !str_eq(
            self.query.as_str(),
            q.as_str(),
        ) {
            return Lookup::Collision;
        }
        if age_secs(self.stored_at, now) > ttl {
            return Lookup::Expired;
        }
        if self.hits.len() == 0 {
            return Lookup::Empty;
        }
        Lookup::Hit
    }

    /// The entry that a response is kept as. An empty response is not kept.
    pub fn of_response(
        lane: &str,
        query: &str,
        limit: usize,
        hits: &Vec<Hit>,
        now: u64,
    ) -> (r: Option<Entry>)
        ensures
            match r {
                Some(e) => {
                    &&& hits@.len() > 0
                    &&& e.lane@ == lane@
                    &&& e.query@ == normalized(query@)
                    &&& e.limit == limit
                    &&& e.stored_at == now
                    &&& hits_view(e.hits@) == hits_view(hits@)
                },
                None => hits@.len() == 0,
            },
    {
        if hits.len() == 0 {
            return None;
        }
        Some(
            Entry {
                lane: lane.to_owned(),
                query: normalize_query(query),
                limit,
                stored_at: now,
                hits: copy_hits(hits),
            },
        )
    }
}

/// An entry made of a response answers the same question until it is too old, also
/// when that is asked with other spacing, and answers no other lane, query or limit.
pub proof fn law_a_kept_response_is_served(
    e: Entry,
    lane: Seq<char>,
    query: Seq<char>,
    asked: Seq<char>,
    limit: usize,
    ttl: u64,
    now: u64,
)
    requires
        e.lane@ == lane,
        e.query@ == normalized(query),
        e.limit == limit,
        e.hits@.len() > 0,
        normalized(asked) == normalized(query),
    ensures
        age(e.stored_at, now) <= ttl ==> looked_up(e, lane, asked, limit, ttl, now) == Lookup::Hit,
        age(e.stored_at, now) > ttl ==> looked_up(e, lane, asked, limit, ttl, now)
            == Lookup::Expired,
        forall|other: Seq<char>|
            other != lane ==> #[trigger] looked_up(e, other, asked, limit, ttl, now)
                == Lookup::Collision,
        forall|other: Seq<char>|
            normalized(other) != normalized(query) ==> #[trigger] looked_up(
                e,
                lane,
                other,
                limit,
                ttl,
                now,
            ) == Lookup::Collision,
        forall|other: usize|
            other != limit ==> #[trigger] looked_up(e, lane, asked, other, ttl, now)
                == Lookup::Collision,
{
}

// ------------------------------------------------------------------- stats --

/// How the cache did. The counters wrap around.
#[derive(Debug, Clone, Copy, PartialEq, Eq, Structural)]
pub struct CacheStats {
    pub hits: usize,
    pub misses: usize,
    /// Bytes served.
    pub bytes: u64,
}

impl Default for CacheStats {
    fn default() -> (r: Self)
        ensures
            r == (CacheStats { hits: 0, misses: 0, bytes: 0 }),
    {
        CacheStats { hits: 0, misses: 0, bytes: 0 }
    }
}

impl CacheStats {
    /// The counters after one more question: a hit with the bytes it served, or a
    /// miss.
    pub open spec fn with(self, served: Option<u64>) -> CacheStats {
        match served {
            Some(n) => CacheStats {
                hits: self.hits.wrapping_add(1),
                misses: self.misses,
                bytes: self.bytes.wrapping_add(n),
            },
            None => CacheStats {
                hits: self.hits,
                misses: self.misses.wrapping_add(1),
                bytes: self.bytes,
            },
        }
    }

    /// Count one question: a hit with the bytes it served, or a miss.
    pub fn count(&mut self, served: Option<u64>)
        ensures
            *final(self) == old(self).with(served),
    {
        match served {
            Some(n) => {
                self.hits = self.hits.wrapping_add(1);
                self.bytes = self.bytes.wrapping_add(n);
            },
            None => {
                self.misses = self.misses.wrapping_add(1);
            },
        }
    }
}

// ------------------------------------------------------------------- cache --

/// A path below a directory.
pub open spec fn below(dir: Seq<char>, name: Seq<char>) -> Seq<char> {
    if dir.len() > 0 && dir.last() == '/' {
        dir + name
    } else {
        dir + seq!['/'] + name
    }
}

fn path_below(dir: &str, name: &str) -> (r: String)
    ensures
        r@ == below(dir@, name@),
{
    let n: usize = dir.unicode_len();
    let mut s = dir.to_owned();
    if n > 0 && dir.get_char(n - 1) == '/' {
    } else {
        s.push('/');
    }
    s.append(name);
    assert(s@ =~= below(dir@, name@));
    s
}

/// A variable that is set to something.
pub open spec fn set_to(v: Option<&str>) -> Option<Seq<char>> {
    match v {
        Some(s) => if s@.len() > 0 {
            Some(s@)
        } else {
            None
        },
        None => None,
    }
}

/// Where the cache lives when nobody says otherwise.
pub open spec fn default_dir(
    xdg: Option<Seq<char>>,
    home: Option<Seq<char>>,
    temp: Seq<char>,
) -> Seq<char> {
    match xdg {
        Some(x) => below(x, "webscout/search"@),
        None => match home {
            Some(h) => below(h, ".cache/webscout/search"@),
            None => below(temp, "webscout/search"@),
        },
    }
}

/// Where the cache lives when nobody says otherwise: below `$XDG_CACHE_HOME`, else
/// below `$HOME`, else below the directory for temporary files, so that it works
/// without a home too.
pub fn default_cache_dir(xdg: Option<&str>, home: Option<&str>, temp: &str) -> (r: String)
    ensures
        r@ == default_dir(set_to(xdg), set_to(home), temp@),
{
    match xdg {
        Some(x) => if x.unicode_len() > 0 {
            return path_below(x, "webscout/search");
        },
        None => {},
    }
    match home {
        Some(h) => if h.unicode_len() > 0 {
            return path_below(h, ".cache/webscout/search");
        },
        None => {},
    }
    path_below(temp, "webscout/search")
}

/// A directory of search responses, each under the name of its search.
#[derive(Debug)]
pub struct SearchCache {
    pub dir: String,
    /// Seconds a response stays usable.
    pub ttl: u64,
    pub stats: CacheStats,
}

impl SearchCache {
    /// A cache in a directory.
    pub fn new(dir: &str, ttl: u64) -> (r: Self)
        ensures
            r.dir@ == dir@,
            r.ttl == ttl,
            r.stats == (CacheStats { hits: 0, misses: 0, bytes: 0 }),
    {
        SearchCache { dir: dir.to_owned(), ttl, stats: CacheStats::default() }
    }

    /// The cache where it lives when nobody says otherwise.
    pub fn discover(xdg: Option<&str>, home: Option<&str>, temp: &str, ttl: u64) -> (r: Self)
        ensures
            r.dir@ == default_dir(set_to(xdg), set_to(home), temp@),
            r.ttl == ttl,
            r.stats == (CacheStats { hits: 0, misses: 0, bytes: 0 }),
    {
        let dir = default_cache_dir(xdg, home, temp);
        SearchCache { dir, ttl, stats: CacheStats::default() }
    }

    pub fn dir(&self) -> (r: &str)
        ensures
            r@ == self.dir@,
    {
        self.dir.as_str()
    }

    pub fn ttl(&self) -> (r: u64)
        ensures
            r == self.ttl,
    {
        self.ttl
    }

    /// The file of a search.
    pub fn path_for(&self, lane: &str, query: &str, limit: usize) -> (r: String)
        ensures
            r@ == below(self.dir@, key(lane@, query@, limit as nat) + ".json"@),
    {
        let mut name = cache_key(lane, query, limit);
        name.append(".json");
        path_below(self.dir.as_str(), name.as_str())
    }

    /// Serve what was read for a search: the entry and its size in bytes, or
    /// nothing where no entry could be read. What is expired, empty or the answer to
    /// another question is a miss.
    pub fn serve(
        &mut self,
        read: Option<(&Entry, u64)>,
        lane: &str,
        query: &str,
        limit: usize,
        now: u64,
    ) -> (r: Option<Vec<Hit>>)
        ensures
            ({
                let served = match read {
                    Some((e, n)) => if looked_up(*e, lane@, query@, limit, old(self).ttl, now)
                        == Lookup::Hit {
                        Some(n)
                    } else {
                        None
                    },
                    None => None,
                };
                &&& r is Some <==> served is Some
                &&& r matches Some(hits) ==> read matches Some((e, _)) && hits_view(hits@)
                    == hits_view(e.hits@)
                &&& final(self).stats == old(self).stats.with(served)
                &&& final(self).dir == old(self).dir
                &&& final(self).ttl == old(self).ttl
            }),
    {
        match read {
            Some((e, n)) => {
                if e.lookup(lane, query, limit, self.ttl, now) == Lookup::Hit {
                    self.stats.count(Some(n));
                    return Some(copy_hits(&e.hits));
                }
            },
            None => {},
        }
        self.stats.count(None);
        None
    }

    /// Hits, misses and bytes served.
    pub fn summary(&self) -> (r: (usize, usize, u64))
        ensures
            r == (self.stats.hits, self.stats.misses, self.stats.bytes),
    {
        (self.stats.hits, self.stats.misses, self.stats.bytes)
    }
}

} // verus!
