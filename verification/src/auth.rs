//! The login: one shared password, sessions in memory, a cookie.
//!
//! Guessing is bounded: once enough wrong passwords have come in a minute, counted
//! over all callers, every further attempt is turned away, a right one too, until
//! the window slides.
use vstd::prelude::*;
use vstd::string::*;
use vstd::utf8::encode_utf8_decode_utf8;
use crate::config::{opt_string, unquote, unquoted};
use crate::numeral::{decimal, digit, digit_char, show};
use crate::scan::{char_views, index_from, index_of, split_chars, split_from, trim, trim_chars};
use crate::text::{from_chars, lower_all, str_eq, sub_chars, to_ascii_lower, to_chars, views};

verus! {

/// The session cookie's name.
pub const COOKIE_NAME: &'static str = "webscout_session";

/// How long a session lasts, in seconds: thirty days.
pub const SESSION_TTL: u64 = 2_592_000;

/// The same in milliseconds.
pub const SESSION_TTL_MS: u64 = 2_592_000_000;

/// Wrong passwords tolerated inside the window, over all callers.
pub const MAX_FAILURES: usize = 10;

/// The sliding window that failures are counted over, in milliseconds.
pub const FAILURE_WINDOW: u64 = 60_000;

/// What a wrong password costs the caller, in milliseconds.
pub const FAILURE_DELAY: u64 = 700;

/// Random bytes in a session token.
pub const TOKEN_BYTES: usize = 32;

// ----------------------------------------------------------------- secrets --

/// Compare a guess with the secret without an early exit: the loop runs over the
/// secret's length whatever was sent.
pub fn secret_eq(given: &[u8], secret: &[u8]) -> (r: bool)
    ensures
        r == (given@ == secret@),
{
    let n: usize = secret.len();
    let m: usize = given.len();
    let mut acc: u8 = if m != n {
        1
    } else {
        0
    };
    let mut i: usize = 0;
    while i < n
        invariant
            i <= n == secret@.len(),
            m == given@.len(),
            acc == 0 <==> m == n && forall|k: int| 0 <= k < i ==> secret@[k] == given@[k],
        decreases n - i,
    {
        let s: u8 = secret[i];
        let g: u8 = if i < m {
            given[i]
        } else {
            0
        };
        let ghost before = acc;
        acc = acc | (s ^ g);
        assert(acc == 0 <==> before == 0 && s == g) by (bit_vector)
            requires
                acc == before | (s ^ g),
        ;
        i += 1;
    }
    proof {
        if acc == 0 {
            assert(given@ =~= secret@);
        }
    }
    acc == 0
}

/// Two lower-case hexadecimal digits for each byte.
pub open spec fn hex_of_bytes(b: Seq<u8>) -> Seq<char>
    decreases b.len(),
{
    if b.len() == 0 {
        Seq::empty()
    } else {
        hex_of_bytes(b.drop_last()) + seq![
            digit((b.last() / 16) as nat),
            digit((b.last() % 16) as nat),
        ]
    }
}

/// A session token from random bytes: their hexadecimal form.
pub fn token_text(bytes: &[u8]) -> (r: String)
    ensures
        r@ == hex_of_bytes(bytes@),
        r@.len() == 2 * bytes@.len(),
{
    let mut out: Vec<char> = Vec::new();
    let mut i: usize = 0;
    assert(bytes@.take(0) =~= Seq::<u8>::empty());
    assert(out@ =~= Seq::<char>::empty());
    while i < bytes.len()
        invariant
            i <= bytes@.len(),
            out@ == hex_of_bytes(bytes@.take(i as int)),
            out@.len() == 2 * i,
        decreases bytes@.len() - i,
    {
        let ghost part = bytes@.take(i + 1);
        assert(part.drop_last() =~= bytes@.take(i as int));
        assert(part.last() == bytes@[i as int]);
        let ghost before = out@;
        out.push(digit_char((bytes[i] / 16) as u32));
        out.push(digit_char((bytes[i] % 16) as u32));
        assert(out@ =~= before + seq![
            digit((bytes@[i as int] / 16) as nat),
            digit((bytes@[i as int] % 16) as nat),
        ]);
        i += 1;
    }
    assert(bytes@.take(i as int) =~= bytes@);
    from_chars(&out)
}

// ---------------------------------------------------------------- sessions --

/// Outcome of a login attempt.
#[derive(Debug, PartialEq, Eq)]
pub enum Login {
    /// Right password: here is the new session's token.
    Granted(String),
    /// No password is set: nothing to do.
    Open,
    Wrong,
    /// Too many wrong passwords in the last minute.
    Throttled,
}

/// The password, the live sessions and the recent failures.
#[derive(Debug)]
pub struct Auth {
    pub password: Option<String>,
    /// Tokens and when they run out, in milliseconds.
    pub sessions: Vec<(String, u64)>,
    /// When wrong passwords came in, oldest first, in milliseconds.
    pub failures: Vec<u64>,
}

/// A password that says something.
pub open spec fn set_password(p: Option<Seq<char>>) -> Option<Seq<char>> {
    match p {
        Some(s) => if unquoted(s).len() > 0 {
            Some(unquoted(s))
        } else {
            None
        },
        None => None,
    }
}

/// What is left of the failures once those at the front that are a window old are
/// forgotten.
pub open spec fn recent(failures: Seq<u64>, now: u64) -> Seq<u64>
    decreases failures.len(),
{
    if failures.len() > 0 && now >= failures[0] && now - failures[0] >= FAILURE_WINDOW {
        recent(failures.drop_first(), now)
    } else {
        failures
    }
}

/// The sessions that have not run out, in order.
pub open spec fn live(sessions: Seq<(String, u64)>, now: u64) -> Seq<(String, u64)> {
    sessions.filter(|s: (String, u64)| s.1 > now)
}

/// A session of that token is among them.
pub open spec fn has_session(sessions: Seq<(String, u64)>, token: Seq<char>) -> bool {
    exists|i: int| 0 <= i < sessions.len() && (#[trigger] sessions[i]).0@ == token
}

/// What an attempt comes to.
pub open spec fn verdict(
    password: Option<Seq<char>>,
    failures: Seq<u64>,
    given: Seq<char>,
    now: u64,
) -> Verdict {
    match password {
        None => Verdict::Open,
        Some(secret) => if recent(failures, now).len() >= MAX_FAILURES {
            Verdict::Throttled
        } else if given != secret {
            Verdict::Wrong
        } else {
            Verdict::Right
        },
    }
}

/// What a password comes to.
#[derive(Debug, Clone, Copy, PartialEq, Eq, Structural)]
pub enum Verdict {
    Right,
    Open,
    Wrong,
    Throttled,
}

fn keep_live(sessions: &Vec<(String, u64)>, now: u64) -> (r: Vec<(String, u64)>)
    ensures
        r@.len() == live(sessions@, now).len(),
        forall|k: int|
            0 <= k < r@.len() ==> (#[trigger] r@[k]).0@ == live(sessions@, now)[k].0@ && r@[k].1
                == live(sessions@, now)[k].1,
{
    let ghost keep = |s: (String, u64)| s.1 > now;
    let mut out: Vec<(String, u64)> = Vec::new();
    let mut i: usize = 0;
    proof {
        reveal(Seq::filter);
        assert(sessions@.take(0).filter(keep) =~= Seq::<(String, u64)>::empty());
    }
    while i < sessions.len()
        invariant
            i <= sessions@.len(),
            keep == (|s: (String, u64)| s.1 > now),
            out@.len() == sessions@.take(i as int).filter(keep).len(),
            forall|k: int|
                0 <= k < out@.len() ==> (#[trigger] out@[k]).0@ == sessions@.take(i as int).filter(
                    keep,
                )[k].0@ && out@[k].1 == sessions@.take(i as int).filter(keep)[k].1,
        decreases sessions@.len() - i,
    {
        proof {
            reveal(Seq::filter);
            let part = sessions@.take(i + 1);
            assert(part.drop_last() =~= sessions@.take(i as int));
            assert(part.last() == sessions@[i as int]);
        }
        if sessions[i].1 > now {
            out.push((sessions[i].0.clone(), sessions[i].1));
        }
        i += 1;
    }
    assert(sessions@.take(i as int) =~= sessions@);
    out
}

/// Sessions as plain values.
pub open spec fn session_views(s: Seq<(String, u64)>) -> Seq<(Seq<char>, u64)> {
    s.map_values(|x: (String, u64)| (x.0@, x.1))
}

impl Auth {
    /// The password, as a text.
    pub open spec fn secret(self) -> Option<Seq<char>> {
        opt_string(self.password)
    }

    /// A blank password is the same as none; quotes around it are not part of it.
    pub fn new(password: Option<String>) -> (r: Self)
        ensures
            r.secret() == set_password(opt_string(password)),
            r.sessions@.len() == 0,
            r.failures@.len() == 0,
    {
        let set = match &password {
            Some(p) => {
                let t = unquote(p.as_str());
                if t.unicode_len() > 0 {
                    Some(t.to_owned())
                } else {
                    None
                }
            },
            None => None,
        };
        Auth { password: set, sessions: Vec::new(), failures: Vec::new() }
    }

    pub fn required(&self) -> (r: bool)
        ensures
            r == (self.secret() is Some),
    {
        self.password.is_some()
    }

    /// Check a password at time `now`, in milliseconds as all times here. A wrong one
    /// is remembered.
    pub fn check(&mut self, given: &str, now: u64) -> (r: Verdict)
        ensures
            r == verdict(old(self).secret(), old(self).failures@, given@, now),
            final(self).password == old(self).password,
            final(self).sessions == old(self).sessions,
            final(self).failures@ == match r {
                Verdict::Open => old(self).failures@,
                Verdict::Wrong => recent(old(self).failures@, now).push(now),
                _ => recent(old(self).failures@, now),
            },
    {
        match &self.password {
            None => {
                return Verdict::Open;
            },
            Some(_) => {},
        }
        while self.failures.len() > 0 && now >= self.failures[0] && now - self.failures[0]
            >= FAILURE_WINDOW
            invariant
                self.password == old(self).password,
                self.sessions == old(self).sessions,
                recent(self.failures@, now) == recent(old(self).failures@, now),
            decreases self.failures@.len(),
        {
            let ghost before = self.failures@;
            let _ = self.failures.remove(0);
            assert(self.failures@ =~= before.drop_first());
        }
        if self.failures.len() >= MAX_FAILURES {
            return Verdict::Throttled;
        }
        let right: bool = match &self.password {
            Some(secret) => {
                proof {
                    encode_utf8_decode_utf8(given@);
                    encode_utf8_decode_utf8(secret@);
                }
                secret_eq(given.as_bytes(), secret.as_str().as_bytes())
            },
            None => true,
        };
        if !right {
            self.failures.push(now);
            return Verdict::Wrong;
        }
        Verdict::Right
    }

    /// Open a session at time `now`. Sessions that ran out go.
    pub fn open(&mut self, token: &str, now: u64)
        requires
            now + SESSION_TTL_MS <= u64::MAX,
        ensures
            session_views(final(self).sessions@) == session_views(
                live(old(self).sessions@, now),
            ).push((token@, (now + SESSION_TTL_MS) as u64)),
            final(self).password == old(self).password,
            final(self).failures == old(self).failures,
    {
        let mut kept = keep_live(&self.sessions, now);
        let ghost before = kept@;
        kept.push((token.to_owned(), now + SESSION_TTL_MS));
        proof {
            assert(session_views(before) =~= session_views(live(self.sessions@, now)));
            assert(session_views(kept@) =~= session_views(before).push(
                (token@, (now + SESSION_TTL_MS) as u64),
            ));
        }
        self.sessions = kept;
    }

    /// Check a password and, if it is right, open a session with this token.
    pub fn login(&mut self, given: &str, now: u64, token: &str) -> (r: Login)
        requires
            now + SESSION_TTL_MS <= u64::MAX,
        ensures
            ({
                let v = verdict(old(self).secret(), old(self).failures@, given@, now);
                &&& match r {
                    Login::Granted(t) => v == Verdict::Right && t@ == token@,
                    Login::Open => v == Verdict::Open,
                    Login::Wrong => v == Verdict::Wrong,
                    Login::Throttled => v == Verdict::Throttled,
                }
                &&& final(self).password == old(self).password
                &&& final(self).failures@ == match v {
                    Verdict::Open => old(self).failures@,
                    Verdict::Wrong => recent(old(self).failures@, now).push(now),
                    _ => recent(old(self).failures@, now),
                }
                &&& v == Verdict::Right ==> session_views(final(self).sessions@) == session_views(
                    live(old(self).sessions@, now),
                ).push((token@, (now + SESSION_TTL_MS) as u64))
                &&& v != Verdict::Right ==> final(self).sessions == old(self).sessions
            }),
    {
        match self.check(given, now) {
            Verdict::Open => Login::Open,
            Verdict::Wrong => Login::Wrong,
            Verdict::Throttled => Login::Throttled,
            Verdict::Right => {
                self.open(token, now);
                Login::Granted(token.to_owned())
            },
        }
    }

    /// Does the token name a session that is live at `now`? Sessions that ran out go.
    pub fn valid(&mut self, token: &str, now: u64) -> (r: bool)
        ensures
            r == has_session(live(old(self).sessions@, now), token@),
            session_views(final(self).sessions@) == session_views(live(old(self).sessions@, now)),
            final(self).password == old(self).password,
            final(self).failures == old(self).failures,
    {
        let kept = keep_live(&self.sessions, now);
        let ghost want = live(self.sessions@, now);
        let mut found: bool = false;
        let mut i: usize = 0;
        while i < kept.len()
            invariant
                i <= kept@.len() == want.len(),
                forall|k: int|
                    0 <= k < kept@.len() ==> (#[trigger] kept@[k]).0@ == want[k].0@ && kept@[k].1
                        == want[k].1,
                found == exists|k: int| 0 <= k < i && (#[trigger] want[k]).0@ == token@,
            decreases kept@.len() - i,
        {
            assert(kept@[i as int].0@ == want[i as int].0@);
            if str_eq(kept[i].0.as_str(), token) {
                found = true;
            }
            i += 1;
        }
        assert(session_views(kept@) =~= session_views(want));
        self.sessions = kept;
        found
    }
}

impl Default for Auth {
    /// No password: open.
    fn default() -> (r: Self)
        ensures
            r.secret() is None,
            r.sessions@.len() == 0,
            r.failures@.len() == 0,
    {
        Auth::new(None)
    }
}

proof fn lemma_recent_fresh(failures: Seq<u64>, now: u64)
    requires
        forall|i: int| 0 <= i < failures.len() ==> #[trigger] failures[i] <= now && now
            - failures[i] < FAILURE_WINDOW,
    ensures
        recent(failures, now) == failures,
{
}

/// Without a password, or with a blank one, every attempt is let in as it is, and
/// none leaves a trace.
pub proof fn law_no_password_is_no_login(
    password: Option<Seq<char>>,
    failures: Seq<u64>,
    given: Seq<char>,
    now: u64,
)
    ensures
        set_password(password) is None <==> password is None || unquoted(password->0).len() == 0,
        set_password(password) is None ==> verdict(set_password(password), failures, given, now)
            == Verdict::Open,
{
}

/// Once the window holds as many wrong passwords as are tolerated, no attempt gets
/// through, whatever its password, so that a guesser cannot tell a hit.
pub proof fn law_too_many_failures_refuse_everyone(
    secret: Seq<char>,
    failures: Seq<u64>,
    given: Seq<char>,
    now: u64,
)
    requires
        failures.len() >= MAX_FAILURES,
        forall|i: int| 0 <= i < failures.len() ==> #[trigger] failures[i] <= now && now
            - failures[i] < FAILURE_WINDOW,
    ensures
        verdict(Some(secret), failures, given, now) == Verdict::Throttled,
{
    lemma_recent_fresh(failures, now);
}

/// A window after the last failure the right password gets in again.
pub proof fn law_the_window_slides(secret: Seq<char>, failures: Seq<u64>, now: u64)
    requires
        forall|i: int| 0 <= i < failures.len() ==> #[trigger] failures[i] <= now && now
            - failures[i] >= FAILURE_WINDOW,
    ensures
        verdict(Some(secret), failures, secret, now) == Verdict::Right,
{
    lemma_recent_old(failures, now);
}

proof fn lemma_recent_old(failures: Seq<u64>, now: u64)
    requires
        forall|i: int| 0 <= i < failures.len() ==> #[trigger] failures[i] <= now && now
            - failures[i] >= FAILURE_WINDOW,
    ensures
        recent(failures, now).len() == 0,
    decreases failures.len(),
{
    if failures.len() > 0 {
        assert(failures[0] <= now);
        let t = failures.drop_first();
        assert forall|i: int| 0 <= i < t.len() implies #[trigger] t[i] <= now && now - t[i]
            >= FAILURE_WINDOW by {
            assert(t[i] == failures[i + 1]);
        }
        lemma_recent_old(t, now);
    }
}

proof fn lemma_recent_short(failures: Seq<u64>, now: u64)
    ensures
        recent(failures, now).len() <= failures.len(),
    decreases failures.len(),
{
    if failures.len() > 0 {
        lemma_recent_short(failures.drop_first(), now);
    }
}

/// Nothing but the password gets in where one is set, and it does get in as long as
/// fewer than ten wrong ones are remembered. Any other is then told that it is wrong.
pub proof fn law_only_the_password_opens(
    secret: Seq<char>,
    failures: Seq<u64>,
    given: Seq<char>,
    now: u64,
)
    ensures
        verdict(Some(secret), failures, given, now) == Verdict::Right ==> given == secret,
        verdict(Some(secret), failures, given, now) != Verdict::Open,
        failures.len() < 10 ==> verdict(Some(secret), failures, given, now) == (if given
            == secret {
            Verdict::Right
        } else {
            Verdict::Wrong
        }),
{
    lemma_recent_short(failures, now);
}

/// Ten wrong passwords within a minute are enough for everyone to be refused, and a
/// minute after the last of them the password opens again.
pub proof fn law_ten_failures_close_for_a_minute(
    secret: Seq<char>,
    failures: Seq<u64>,
    given: Seq<char>,
    now: u64,
    later: u64,
)
    requires
        failures.len() >= 10,
        forall|i: int| 0 <= i < failures.len() ==> #[trigger] failures[i] <= now && now
            - failures[i] < 60_000,
        now + 60_000 <= later,
    ensures
        verdict(Some(secret), failures, given, now) == Verdict::Throttled,
        verdict(Some(secret), failures, secret, later) == Verdict::Right,
{
    lemma_recent_fresh(failures, now);
    lemma_recent_old(failures, later);
}

/// A session is live from the moment it is opened until it has lasted its time.
pub proof fn law_sessions_last_their_time(
    sessions: Seq<(String, u64)>,
    opened: Seq<(String, u64)>,
    token: Seq<char>,
    at: u64,
    now: u64,
)
    requires
        at <= now < at + SESSION_TTL_MS <= u64::MAX,
        session_views(opened) == session_views(live(sessions, at)).push(
            (token, (at + SESSION_TTL_MS) as u64),
        ),
    ensures
        has_session(live(opened, now), token),
{
    let k = opened.len() - 1;
    assert(session_views(opened).len() == opened.len());
    assert(session_views(opened)[k] == (opened[k].0@, opened[k].1));
    let keep = |s: (String, u64)| s.1 > now;
    assert(keep(opened[k]));
    opened.lemma_filter_contains(keep, k);
    assert(live(opened, now).contains(opened[k]));
    let j = choose|j: int| 0 <= j < live(opened, now).len() && live(opened, now)[j] == opened[k];
    assert(live(opened, now)[j].0@ == token);
}

// ----------------------------------------------------------------- cookies --

/// `s` without `c` at its start.
pub open spec fn strip_front(s: Seq<char>, c: char) -> Seq<char>
    decreases s.len(),
{
    if s.len() > 0 && s[0] == c {
        strip_front(s.drop_first(), c)
    } else {
        s
    }
}

/// `s` without `c` at its end.
pub open spec fn strip_back(s: Seq<char>, c: char) -> Seq<char>
    decreases s.len(),
{
    if s.len() > 0 && s.last() == c {
        strip_back(s.drop_last(), c)
    } else {
        s
    }
}

fn strip_quotes(v: &[char]) -> (r: Vec<char>)
    ensures
        r@ == strip_back(strip_front(v@, '"'), '"'),
{
    let n: usize = v.len();
    let mut lo: usize = 0;
    assert(v@.skip(0) =~= v@);
    while lo < n && v[lo] == '"'
        invariant
            lo <= n == v@.len(),
            strip_front(v@, '"') == strip_front(v@.skip(lo as int), '"'),
        decreases n - lo,
    {
        assert(v@.skip(lo as int).drop_first() =~= v@.skip(lo + 1));
        lo += 1;
    }
    let ghost front = v@.skip(lo as int);
    let mut hi: usize = n;
    assert(v@.subrange(lo as int, n as int) =~= front);
    while hi > lo && v[hi - 1] == '"'
        invariant
            lo <= hi <= n == v@.len(),
            strip_back(front, '"') == strip_back(v@.subrange(lo as int, hi as int), '"'),
        decreases hi,
    {
        assert(v@.subrange(lo as int, hi as int).drop_last() =~= v@.subrange(
            lo as int,
            hi - 1,
        ));
        hi -= 1;
    }
    sub_chars(v, lo, hi)
}

/// The session token that one `name=value` pair carries, if it does.
pub open spec fn token_in(pair: Seq<char>) -> Option<Seq<char>> {
    let p = trim(pair);
    match index_from(p, 0, '=') {
        None => None,
        Some(k) => {
            let value = strip_back(
                strip_front(trim(p.subrange(k + 1, p.len() as int)), '"'),
                '"',
            );
            if trim(p.subrange(0, k)) == COOKIE_NAME@ && value.len() > 0 {
                Some(value)
            } else {
                None
            }
        },
    }
}

/// The tokens in the first `n` pairs, in order.
pub open spec fn tokens_in(pairs: Seq<Seq<char>>, n: int) -> Seq<Seq<char>>
    decreases n,
{
    if n <= 0 {
        Seq::empty()
    } else {
        match token_in(pairs[n - 1]) {
            Some(t) => tokens_in(pairs, n - 1).push(t),
            None => tokens_in(pairs, n - 1),
        }
    }
}

/// The tokens in the first `n` cookie headers, in order.
pub open spec fn header_tokens(headers: Seq<Seq<char>>, n: int) -> Seq<Seq<char>>
    decreases n,
{
    if n <= 0 {
        Seq::empty()
    } else {
        let pairs = split_from(headers[n - 1], 0, ';');
        header_tokens(headers, n - 1) + tokens_in(pairs, pairs.len() as int)
    }
}

fn read_pair(pair: &[char]) -> (r: Option<String>)
    ensures
        match r {
            Some(t) => token_in(pair@) == Some(t@),
            None => token_in(pair@) is None,
        },
{
    let p = trim_chars(pair);
    match index_of(&p, 0, '=') {
        None => None,
        Some(k) => {
            let name = sub_chars(&p, 0, k);
            let name = trim_chars(&name);
            let name = from_chars(&name);
            let value = sub_chars(&p, k + 1, p.len());
            let value = trim_chars(&value);
            let value = strip_quotes(&value);
            if str_eq(name.as_str(), COOKIE_NAME) && value.len() > 0 {
                Some(from_chars(&value))
            } else {
                None
            }
        },
    }
}

/// Every session token in a request's cookie headers. A browser folds its cookies
/// into one header, another client may send several; a stale one can sit next to
/// the live one, so all are returned.
pub fn session_cookies(headers: &Vec<String>) -> (r: Vec<String>)
    ensures
        views(r@) == header_tokens(views(headers@), headers@.len() as int),
{
    let mut out: Vec<String> = Vec::new();
    let mut i: usize = 0;
    assert(views(out@) =~= Seq::<Seq<char>>::empty());
    while i < headers.len()
        invariant
            i <= headers@.len(),
            views(out@) == header_tokens(views(headers@), i as int),
        decreases headers@.len() - i,
    {
        let v = to_chars(headers[i].as_str());
        let pairs = split_chars(&v, ';');
        let ghost parts = split_from(v@, 0, ';');
        let ghost before = views(out@);
        let mut k: usize = 0;
        assert(parts.len() == pairs@.len());
        assert(before + tokens_in(parts, 0) =~= before);
        while k < pairs.len()
            invariant
                k <= pairs@.len() == parts.len(),
                char_views(pairs@) == parts,
                views(out@) == before + tokens_in(parts, k as int),
            decreases pairs@.len() - k,
        {
            assert(parts[k as int] == pairs@[k as int]@);
            match read_pair(&pairs[k]) {
                Some(t) => {
                    let ghost so_far = out@;
                    out.push(t);
                    assert(views(out@) =~= views(so_far).push(t@));
                    assert(before + tokens_in(parts, k + 1) =~= (before + tokens_in(
                        parts,
                        k as int,
                    )).push(t@));
                },
                None => {},
            }
            k += 1;
        }
        i += 1;
    }
    out
}

/// The sessions that none of the tokens names, in order.
pub open spec fn without(sessions: Seq<(Seq<char>, u64)>, tokens: Seq<Seq<char>>) -> Seq<
    (Seq<char>, u64),
>
    decreases sessions.len(),
{
    if sessions.len() == 0 {
        Seq::empty()
    } else {
        let rest = without(sessions.drop_last(), tokens);
        if tokens.contains(sessions.last().0) {
            rest
        } else {
            rest.push(sessions.last())
        }
    }
}

/// A token names a session that is live at `now`.
pub open spec fn names_live(sessions: Seq<(String, u64)>, now: u64, token: Seq<char>) -> bool {
    has_session(live(sessions, now), token)
}

impl Auth {
    /// Does any session cookie of the request name a live session?
    pub fn authenticated(&mut self, headers: &Vec<String>, now: u64) -> (r: bool)
        ensures
            r == exists|k: int|
                0 <= k < header_tokens(views(headers@), headers@.len() as int).len() && names_live(
                    old(self).sessions@,
                    now,
                    #[trigger] header_tokens(views(headers@), headers@.len() as int)[k],
                ),
            session_views(final(self).sessions@) == if header_tokens(
                views(headers@),
                headers@.len() as int,
            ).len() == 0 {
                session_views(old(self).sessions@)
            } else {
                session_views(live(old(self).sessions@, now))
            },
            final(self).password == old(self).password,
            final(self).failures == old(self).failures,
    {
        let tokens = session_cookies(headers);
        let ghost all = header_tokens(views(headers@), headers@.len() as int);
        let ghost start = self.sessions@;
        let mut i: usize = 0;
        assert(views(tokens@).len() == tokens@.len());
        while i < tokens.len()
            invariant
                i <= tokens@.len() == all.len(),
                views(tokens@) == all,
                all == header_tokens(views(headers@), headers@.len() as int),
                self.password == old(self).password,
                self.failures == old(self).failures,
                session_views(self.sessions@) == if i == 0 {
                    session_views(start)
                } else {
                    session_views(live(start, now))
                },
                forall|t: Seq<char>| #[trigger]
                    names_live(self.sessions@, now, t) == names_live(start, now, t),
                forall|k: int| 0 <= k < i ==> !names_live(start, now, #[trigger] all[k]),
                start == old(self).sessions@,
            decreases tokens@.len() - i,
        {
            assert(all[i as int] == tokens@[i as int]@);
            let ghost before = self.sessions@;
            let found: bool = self.valid(tokens[i].as_str(), now);
            proof {
                assert forall|t: Seq<char>| #[trigger]
                    names_live(self.sessions@, now, t) == names_live(start, now, t) by {
                    lemma_live_twice(before, self.sessions@, now, t);
                    assert(names_live(before, now, t) == names_live(start, now, t));
                }
                assert(names_live(before, now, all[i as int]) == names_live(
                    start,
                    now,
                    all[i as int],
                ));
                if i == 0 {
                    lemma_same_views_same_live(before, start, now);
                } else {
                    lemma_live_views(before, start, now);
                }
            }
            if found {
                return true;
            }
            i += 1;
        }
        false
    }

    /// Close every session that a request's cookies name.
    pub fn logout(&mut self, headers: &Vec<String>)
        ensures
            session_views(final(self).sessions@) == without(
                session_views(old(self).sessions@),
                header_tokens(views(headers@), headers@.len() as int),
            ),
            final(self).password == old(self).password,
            final(self).failures == old(self).failures,
    {
        let tokens = session_cookies(headers);
        let ghost all = session_views(self.sessions@);
        let ghost named = header_tokens(views(headers@), headers@.len() as int);
        let mut kept: Vec<(String, u64)> = Vec::new();
        let mut i: usize = 0;
        assert(all.take(0) =~= Seq::<(Seq<char>, u64)>::empty());
        assert(session_views(kept@) =~= Seq::<(Seq<char>, u64)>::empty());
        while i < self.sessions.len()
            invariant
                i <= self.sessions@.len(),
                *self == *old(self),
                all == session_views(self.sessions@),
                views(tokens@) == named,
                session_views(kept@) == without(all.take(i as int), named),
            decreases self.sessions@.len() - i,
        {
            proof {
                let part = all.take(i + 1);
                assert(part.drop_last() =~= all.take(i as int));
                assert(part.last() == (self.sessions@[i as int].0@, self.sessions@[i as int].1));
            }
            if !crate::text::has_text(&tokens, self.sessions[i].0.as_str()) {
                let ghost before = kept@;
                let t = self.sessions[i].0.as_str().to_owned();
                kept.push((t, self.sessions[i].1));
                assert(session_views(kept@) =~= session_views(before).push(
                    (self.sessions@[i as int].0@, self.sessions@[i as int].1),
                ));
            }
            i += 1;
        }
        assert(all.take(i as int) =~= all);
        self.sessions = kept;
    }
}

/// Which sessions are live goes by their tokens and times alone.
proof fn lemma_same_views_same_live(a: Seq<(String, u64)>, b: Seq<(String, u64)>, now: u64)
    requires
        session_views(a) == session_views(b),
    ensures
        session_views(live(a, now)) == session_views(live(b, now)),
    decreases a.len(),
{
    reveal(Seq::filter);
    assert(session_views(a).len() == a.len() && session_views(b).len() == b.len());
    if a.len() > 0 {
        let k = a.len() - 1;
        assert(session_views(a)[k] == (a[k].0@, a[k].1));
        assert(session_views(b)[k] == (b[k].0@, b[k].1));
        assert(session_views(a.drop_last()) =~= session_views(a).drop_last());
        assert(session_views(b.drop_last()) =~= session_views(b).drop_last());
        lemma_same_views_same_live(a.drop_last(), b.drop_last(), now);
        let la = live(a.drop_last(), now);
        let lb = live(b.drop_last(), now);
        assert(session_views(la.push(a[k])) =~= session_views(la).push((a[k].0@, a[k].1)));
        assert(session_views(lb.push(b[k])) =~= session_views(lb).push((b[k].0@, b[k].1)));
    }
    assert(session_views(live(a, now)) =~= session_views(live(b, now)));
}

/// Of sessions that are all live none goes.
proof fn lemma_live_views(a: Seq<(String, u64)>, b: Seq<(String, u64)>, now: u64)
    requires
        session_views(a) == session_views(live(b, now)),
    ensures
        session_views(live(a, now)) == session_views(a),
{
    let keep = |s: (String, u64)| s.1 > now;
    let kept = live(b, now);
    assert(session_views(a).len() == a.len() && session_views(kept).len() == kept.len());
    assert forall|i: int| 0 <= i < a.len() implies keep(#[trigger] a[i]) by {
        assert(session_views(a)[i] == (a[i].0@, a[i].1));
        assert(session_views(kept)[i] == (kept[i].0@, kept[i].1));
        b.lemma_filter_pred(keep, i);
    }
    lemma_all_live(a, now);
}

proof fn lemma_all_live(a: Seq<(String, u64)>, now: u64)
    requires
        forall|i: int| 0 <= i < a.len() ==> (#[trigger] a[i]).1 > now,
    ensures
        live(a, now) == a,
    decreases a.len(),
{
    reveal(Seq::filter);
    if a.len() > 0 {
        lemma_all_live(a.drop_last(), now);
    }
    assert(live(a, now) =~= a);
}

/// Dropping sessions that ran out changes nothing about who is live.
proof fn lemma_live_twice(
    before: Seq<(String, u64)>,
    after: Seq<(String, u64)>,
    now: u64,
    token: Seq<char>,
)
    requires
        session_views(after) == session_views(live(before, now)),
    ensures
        names_live(after, now, token) == names_live(before, now, token),
{
    let kept = live(before, now);
    let keep = |s: (String, u64)| s.1 > now;
    assert(session_views(after).len() == after.len());
    assert(session_views(kept).len() == kept.len());
    if has_session(kept, token) {
        let i = choose|i: int| 0 <= i < kept.len() && (#[trigger] kept[i]).0@ == token;
        assert(session_views(after)[i] == session_views(kept)[i]);
        assert(session_views(after)[i] == (after[i].0@, after[i].1));
        assert(session_views(kept)[i] == (kept[i].0@, kept[i].1));
        before.lemma_filter_pred(keep, i);
        assert(keep(after[i]));
        after.lemma_filter_contains(keep, i);
        assert(live(after, now).contains(after[i]));
        let j = choose|j: int| 0 <= j < live(after, now).len() && live(after, now)[j] == after[i];
        assert(live(after, now)[j].0@ == token);
    }
    if has_session(live(after, now), token) {
        let j = choose|j: int|
            0 <= j < live(after, now).len() && (#[trigger] live(after, now)[j]).0@ == token;
        assert(live(after, now).contains(live(after, now)[j]));
        after.lemma_filter_contains_rev(keep, live(after, now)[j]);
        let i = choose|i: int| 0 <= i < after.len() && after[i] == live(after, now)[j];
        assert(session_views(after)[i] == session_views(kept)[i]);
        assert(session_views(after)[i] == (after[i].0@, after[i].1));
        assert(session_views(kept)[i] == (kept[i].0@, kept[i].1));
        assert(kept[i].0@ == token);
    }
}

/// After a logout none of the request's cookies names a session.
pub proof fn law_logout_closes_sessions(
    sessions: Seq<(Seq<char>, u64)>,
    tokens: Seq<Seq<char>>,
    i: int,
)
    requires
        0 <= i < without(sessions, tokens).len(),
    ensures
        !tokens.contains(without(sessions, tokens)[i].0),
    decreases sessions.len(),
{
    if sessions.len() > 0 {
        let rest = without(sessions.drop_last(), tokens);
        if i < rest.len() {
            law_logout_closes_sessions(sessions.drop_last(), tokens, i);
        }
    }
}

/// The first of a list that commas part.
pub open spec fn first_listed(s: Seq<char>) -> Seq<char> {
    split_from(s, 0, ',')[0]
}

/// Did the request reach the proxy over TLS, by its forwarded-protocol header? Only
/// then is a cookie marked as secure: on plain localhost it would never come back.
pub fn over_https(forwarded: Option<&str>) -> (r: bool)
    ensures
        r == (forwarded matches Some(v) && lower_all(trim(first_listed(v@))) == "https"@),
{
    match forwarded {
        None => false,
        Some(v) => {
            let chars = to_chars(v);
            let parts = split_chars(&chars, ',');
            assert(char_views(parts@).len() == parts@.len());
            assert(parts@.len() > 0);
            assert(char_views(parts@)[0] == parts@[0]@);
            let p = trim_chars(&parts[0]);
            let low = to_ascii_lower(&p);
            let s = from_chars(&low);
            str_eq(s.as_str(), "https")
        },
    }
}

/// The header that opens a session.
pub open spec fn opening_cookie(token: Seq<char>, secure: bool) -> Seq<char> {
    "webscout_session="@ + token + "; HttpOnly; SameSite=Lax; Path=/; Max-Age="@ + decimal(
        SESSION_TTL as nat,
    ) + (if secure {
        "; Secure"@
    } else {
        ""@
    })
}

/// The `Set-Cookie` value that opens a session.
pub fn session_cookie(token: &str, secure: bool) -> (r: String)
    ensures
        r@ == opening_cookie(token@, secure),
{
    let mut s = "webscout_session=".to_owned();
    s.append(token);
    s.append("; HttpOnly; SameSite=Lax; Path=/; Max-Age=");
    let age = show(SESSION_TTL as u128);
    s.append(age.as_str());
    if secure {
        s.append("; Secure");
    } else {
        s.append("");
    }
    s
}

proof fn lemma_no_such_char(s: Seq<char>, i: int, n: int, c: char)
    requires
        0 <= i <= n <= s.len(),
        forall|k: int| i <= k < n ==> #[trigger] s[k] != c,
    ensures
        index_from(s, i, c) == index_from(s, n, c),
    decreases n - i,
{
    if i < n {
        assert(s[i] != c);
        lemma_no_such_char(s, i + 1, n, c);
    }
}

proof fn lemma_token_digits(b: Seq<u8>, i: int)
    requires
        0 <= i < hex_of_bytes(b).len(),
    ensures
        ({
            let c = hex_of_bytes(b)[i];
            ('0' <= c && c <= '9') || ('a' <= c && c <= 'f')
        }),
    decreases b.len(),
{
    if b.len() > 0 {
        let head = hex_of_bytes(b.drop_last());
        if i < head.len() {
            lemma_token_digits(b.drop_last(), i);
        }
    }
}

/// The cookie that opens a session carries its token: what a client sends back of it
/// is read as that token, and as no other.
pub proof fn law_session_cookies_read_back(bytes: Seq<u8>, secure: bool)
    requires
        bytes.len() > 0,
    ensures
        ({
            let sent = split_from(opening_cookie(hex_of_bytes(bytes), secure), 0, ';')[0];
            header_tokens(seq![sent], 1) == seq![hex_of_bytes(bytes)]
        }),
{
    let token = hex_of_bytes(bytes);
    let cookie = opening_cookie(token, secure);
    let name = "webscout_session="@;
    reveal_strlit("webscout_session=");
    reveal_strlit("webscout_session");
    reveal_strlit("; HttpOnly; SameSite=Lax; Path=/; Max-Age=");
    assert(token.len() >= 2);
    assert forall|i: int| 0 <= i < token.len() implies ({
        let c = #[trigger] token[i];
        ('0' <= c && c <= '9') || ('a' <= c && c <= 'f')
    }) by {
        lemma_token_digits(bytes, i);
    }
    let end = (name.len() + token.len()) as int;
    let sent = name + token;
    assert(cookie.subrange(0, end) =~= sent);
    assert(cookie[end] == ';');
    assert forall|k: int| 0 <= k < end implies #[trigger] cookie[k] != ';' by {
        assert(cookie[k] == sent[k]);
    }
    lemma_no_such_char(cookie, 0, end, ';');
    assert(split_from(cookie, 0, ';')[0] == sent);
    assert forall|k: int| 0 <= k < sent.len() implies #[trigger] sent[k] != ';' by {
    }
    lemma_no_such_char(sent, 0, sent.len() as int, ';');
    assert(split_from(sent, 0, ';') =~= seq![sent]) by {
        assert(sent.subrange(0, sent.len() as int) =~= sent);
    }
    assert(trim(sent) == sent);
    assert forall|k: int| 0 <= k < 16 implies #[trigger] sent[k] != '=' by {
    }
    lemma_no_such_char(sent, 0, 16, '=');
    assert(sent[16] == '=');
    assert(sent.subrange(17, sent.len() as int) =~= token);
    assert(sent.subrange(0, 16) =~= COOKIE_NAME@);
    assert(trim(token) == token);
    assert(trim(COOKIE_NAME@) == COOKIE_NAME@);
    assert(strip_back(strip_front(token, '"'), '"') == token);
    assert(token_in(sent) == Some(token));
    let pairs = seq![sent];
    assert(tokens_in(pairs, 0) == Seq::<Seq<char>>::empty());
    assert(tokens_in(pairs, 1) =~= seq![token]);
    assert(header_tokens(seq![sent], 0) == Seq::<Seq<char>>::empty());
    assert(header_tokens(seq![sent], 1) =~= seq![token]);
}

/// The `Set-Cookie` value that removes the session cookie.
pub fn clear_cookie() -> (r: String)
    ensures
        r@ == "webscout_session=; Max-Age=0; Path=/"@,
{
    "webscout_session=; Max-Age=0; Path=/".to_owned()
}

// ----------------------------------------------------------------- history --

/// What a call did to the sessions.
#[verifier::ext_equal]
pub enum Call {
    /// A login at this time was granted this token.
    Granted(Seq<char>, u64),
    /// Tokens were looked at, at this time.
    Looked(u64),
    /// A request with these session cookies logged out.
    LoggedOut(Seq<Seq<char>>),
    /// A login that was not granted, or a request without a session cookie.
    Refused,
}

/// The sessions that have not run out, as plain values.
pub open spec fn unexpired(s: Seq<(Seq<char>, u64)>, now: u64) -> Seq<(Seq<char>, u64)> {
    s.filter(|x: (Seq<char>, u64)| x.1 > now)
}

/// The sessions behind a call.
pub open spec fn step(s: Seq<(Seq<char>, u64)>, c: Call) -> Seq<(Seq<char>, u64)> {
    match c {
        Call::Granted(token, now) => unexpired(s, now).push(
            (token, (now + SESSION_TTL_MS) as u64),
        ),
        Call::Looked(now) => unexpired(s, now),
        Call::LoggedOut(tokens) => without(s, tokens),
        Call::Refused => s,
    }
}

/// The sessions behind a history of calls that began with none.
pub open spec fn behind(h: Seq<Call>) -> Seq<(Seq<char>, u64)>
    decreases h.len(),
{
    if h.len() == 0 {
        Seq::empty()
    } else {
        step(behind(h.drop_last()), h.last())
    }
}

/// A call happened no later than this.
pub open spec fn no_later(c: Call, now: u64) -> bool {
    match c {
        Call::Granted(_, t) => t <= now,
        Call::Looked(t) => t <= now,
        _ => true,
    }
}

/// A logout of this token.
pub open spec fn ends_session(c: Call, token: Seq<char>) -> bool {
    c matches Call::LoggedOut(tokens) && tokens.contains(token)
}

/// A login that was granted this token.
pub open spec fn opens_session(c: Call, token: Seq<char>) -> bool {
    c matches Call::Granted(t, _) && t == token
}

/// The sessions that have not run out go by their tokens and times alone, so that what
/// the calls do to the sessions are the steps of a history.
pub proof fn lemma_unexpired(sessions: Seq<(String, u64)>, now: u64)
    ensures
        session_views(live(sessions, now)) == unexpired(session_views(sessions), now),
    decreases sessions.len(),
{
    reveal(Seq::filter);
    let v = session_views(sessions);
    if sessions.len() == 0 {
        assert(session_views(live(sessions, now)) =~= unexpired(v, now));
    } else {
        let rest = sessions.drop_last();
        lemma_unexpired(rest, now);
        assert(session_views(rest) =~= v.drop_last());
        assert(v.last() == (sessions.last().0@, sessions.last().1));
        assert(session_views(live(sessions, now)) =~= unexpired(v, now));
    }
}

proof fn lemma_in_unexpired(s: Seq<(Seq<char>, u64)>, now: u64, x: (Seq<char>, u64))
    ensures
        unexpired(s, now).contains(x) <==> s.contains(x) && x.1 > now,
    decreases s.len(),
{
    reveal(Seq::filter);
    let t = unexpired(s, now);
    if s.len() > 0 {
        let rest = s.drop_last();
        lemma_in_unexpired(rest, now, x);
        let u = unexpired(rest, now);
        assert(s =~= rest.push(s.last()));
        lemma_pushed(rest, s.last(), x);
        if s.last().1 > now {
            assert(t =~= u.push(s.last()));
            lemma_pushed(u, s.last(), x);
        } else {
            assert(t =~= u);
        }
    } else {
        assert(t =~= s);
    }
}

proof fn lemma_pushed(
    s: Seq<(Seq<char>, u64)>,
    y: (Seq<char>, u64),
    x: (Seq<char>, u64),
)
    ensures
        s.push(y).contains(x) <==> s.contains(x) || x == y,
{
    let t = s.push(y);
    if s.contains(x) {
        let i = choose|i: int| 0 <= i < s.len() && s[i] == x;
        assert(t[i] == x);
    }
    if x == y {
        assert(t[s.len() as int] == x);
    }
    if t.contains(x) {
        let i = choose|i: int| 0 <= i < t.len() && t[i] == x;
        if i < s.len() {
            assert(s[i] == x);
        }
    }
}

proof fn lemma_in_without(
    s: Seq<(Seq<char>, u64)>,
    tokens: Seq<Seq<char>>,
    x: (Seq<char>, u64),
)
    ensures
        without(s, tokens).contains(x) <==> s.contains(x) && !tokens.contains(x.0),
    decreases s.len(),
{
    if s.len() > 0 {
        let rest = s.drop_last();
        lemma_in_without(rest, tokens, x);
        assert(s =~= rest.push(s.last()));
        lemma_pushed(rest, s.last(), x);
        lemma_pushed(without(rest, tokens), s.last(), x);
    }
}

proof fn lemma_in_step(s: Seq<(Seq<char>, u64)>, c: Call, x: (Seq<char>, u64))
    ensures
        step(s, c).contains(x) <==> match c {
            Call::Granted(token, now) => (s.contains(x) && x.1 > now) || x == (
                token,
                (now + SESSION_TTL_MS) as u64,
            ),
            Call::Looked(now) => s.contains(x) && x.1 > now,
            Call::LoggedOut(tokens) => s.contains(x) && !tokens.contains(x.0),
            Call::Refused => s.contains(x),
        },
{
    match c {
        Call::Granted(token, now) => {
            lemma_in_unexpired(s, now, x);
            lemma_pushed(unexpired(s, now), (token, (now + SESSION_TTL_MS) as u64), x);
        },
        Call::Looked(now) => {
            lemma_in_unexpired(s, now, x);
        },
        Call::LoggedOut(tokens) => {
            lemma_in_without(s, tokens, x);
        },
        Call::Refused => {},
    }
}

/// A token names a live session exactly when one of that token runs on.
proof fn lemma_lives(sessions: Seq<(String, u64)>, now: u64, token: Seq<char>)
    ensures
        has_session(live(sessions, now), token) <==> exists|end: u64|
            end > now && #[trigger] session_views(sessions).contains((token, end)),
{
    let l = live(sessions, now);
    let v = session_views(sessions);
    lemma_unexpired(sessions, now);
    let u = unexpired(v, now);
    assert(session_views(l) == u);
    if has_session(l, token) {
        let i = choose|i: int| 0 <= i < l.len() && (#[trigger] l[i]).0@ == token;
        assert(session_views(l)[i] == (l[i].0@, l[i].1));
        assert(u.contains((token, l[i].1)));
        lemma_in_unexpired(v, now, (token, l[i].1));
    }
    if exists|end: u64| end > now && #[trigger] v.contains((token, end)) {
        let end = choose|end: u64| end > now && #[trigger] v.contains((token, end));
        lemma_in_unexpired(v, now, (token, end));
        let i = choose|i: int| 0 <= i < u.len() && u[i] == (token, end);
        assert(session_views(l)[i] == (l[i].0@, l[i].1));
        assert(l[i].0@ == token);
    }
}

proof fn lemma_stays(h: Seq<Call>, k: int, token: Seq<char>, at: u64, now: u64)
    requires
        0 <= k < h.len(),
        h[k] == Call::Granted(token, at),
        at + SESSION_TTL_MS <= u64::MAX,
        now < at + SESSION_TTL_MS,
        forall|j: int| k <= j < h.len() ==> no_later(#[trigger] h[j], now) && !ends_session(h[j], token),
    ensures
        behind(h).contains((token, (at + SESSION_TTL_MS) as u64)),
    decreases h.len(),
{
    let x = (token, (at + SESSION_TTL_MS) as u64);
    let rest = h.drop_last();
    let c = h[h.len() - 1];
    lemma_in_step(behind(rest), c, x);
    assert(no_later(c, now) && !ends_session(c, token));
    if k < h.len() - 1 {
        assert forall|j: int| k <= j < rest.len() implies no_later(#[trigger] rest[j], now)
            && !ends_session(rest[j], token) by {
            assert(rest[j] == h[j]);
        }
        assert(rest[k] == h[k]);
        lemma_stays(rest, k, token, at, now);
    }
}

/// A session that is there was opened by a login since which nobody logged it out.
proof fn lemma_opened(h: Seq<Call>, x: (Seq<char>, u64))
    requires
        behind(h).contains(x),
    ensures
        exists|k: int|
            0 <= k < h.len() && opens_session(#[trigger] h[k], x.0) && x.1 == (h[k]->Granted_1
                + SESSION_TTL_MS) as u64 && forall|j: int|
                k <= j < h.len() ==> !ends_session(#[trigger] h[j], x.0),
    decreases h.len(),
{
    if h.len() > 0 {
        let rest = h.drop_last();
        let c = h.last();
        lemma_in_step(behind(rest), c, x);
        if behind(rest).contains(x) && !(c matches Call::Granted(t, now) && x == (
            t,
            (now + SESSION_TTL_MS) as u64,
        )) {
            lemma_opened(rest, x);
            let k = choose|k: int|
                0 <= k < rest.len() && opens_session(#[trigger] rest[k], x.0) && x.1 == (
                rest[k]->Granted_1 + SESSION_TTL_MS) as u64 && forall|j: int|
                    k <= j < rest.len() ==> !ends_session(#[trigger] rest[j], x.0);
            assert(h[k] == rest[k]);
            assert forall|j: int| k <= j < h.len() implies !ends_session(#[trigger] h[j], x.0) by {
                if j < rest.len() {
                    assert(rest[j] == h[j]);
                }
            }
        } else {
            let k = h.len() - 1;
            assert(opens_session(h[k], x.0));
            assert forall|j: int| k <= j < h.len() implies !ends_session(#[trigger] h[j], x.0) by {
            }
        }
    }
}

/// Over any history of calls, a token that a login was granted names a live session
/// until it has lasted its time, unless a request with it logs out.
pub proof fn law_a_session_outlives_other_calls(
    h: Seq<Call>,
    sessions: Seq<(String, u64)>,
    k: int,
    token: Seq<char>,
    at: u64,
    now: u64,
)
    requires
        session_views(sessions) == behind(h),
        0 <= k < h.len(),
        h[k] == Call::Granted(token, at),
        at + SESSION_TTL_MS <= u64::MAX,
        now < at + SESSION_TTL_MS,
        forall|j: int| k <= j < h.len() ==> no_later(#[trigger] h[j], now) && !ends_session(h[j], token),
    ensures
        has_session(live(sessions, now), token),
{
    lemma_stays(h, k, token, at, now);
    lemma_lives(sessions, now, token);
    assert(session_views(sessions).contains((token, (at + SESSION_TTL_MS) as u64)));
}

/// A token names a live session only if a login was granted it, less than the time of a
/// session ago, and no request with it logged out since. No other token is ever valid.
pub proof fn law_no_other_token_is_valid(
    h: Seq<Call>,
    sessions: Seq<(String, u64)>,
    token: Seq<char>,
    now: u64,
)
    requires
        session_views(sessions) == behind(h),
        forall|j: int|
            0 <= j < h.len() ==> (#[trigger] h[j] matches Call::Granted(_, at) ==> at
                + SESSION_TTL_MS <= u64::MAX),
        has_session(live(sessions, now), token),
    ensures
        exists|k: int|
            0 <= k < h.len() && opens_session(#[trigger] h[k], token) && now < h[k]->Granted_1
                + SESSION_TTL_MS && forall|j: int|
                k <= j < h.len() ==> !ends_session(#[trigger] h[j], token),
{
    lemma_lives(sessions, now, token);
    let end = choose|end: u64|
        end > now && #[trigger] session_views(sessions).contains((token, end));
    lemma_opened(h, (token, end));
    let k = choose|k: int|
        0 <= k < h.len() && opens_session(#[trigger] h[k], token) && end == (h[k]->Granted_1
            + SESSION_TTL_MS) as u64 && forall|j: int|
            k <= j < h.len() ==> !ends_session(#[trigger] h[j], token);
    assert(opens_session(h[k], token));
    assert(h[k]->Granted_1 + SESSION_TTL_MS <= u64::MAX);
}

} // verus!
