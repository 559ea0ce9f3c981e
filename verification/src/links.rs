//! Links of a page, from markup and from markdown.
use vstd::prelude::*;
use vstd::string::*;
use crate::entities::{decode_entities, decoded};
use crate::html::{
    attribute, extract_attr, find_img_alt, image_text, lemma_index_bounds, outside_tags,
    strip_inner_text,
};
use crate::scan::{
    blank, find, find_from, index_from, index_of, is_blank, lemma_find_from, lemma_squeeze_first,
    match_at, squeeze, squeeze_spaces, starts, starts_with, trim, trim_chars,
};
use crate::text::{
    cut_at, cut_from, first, first_chars, from_chars, is_space, is_whitespace, lower, lower_all,
    str_eq, sub_chars, to_ascii_lower, to_chars,
};
use crate::urls::{join_url, parse_url, url_joined, url_parts};

verus! {

/// An outbound link found on a page.
#[derive(Debug, Clone)]
pub struct Link {
    /// The target, resolved against the page.
    pub href: String,
    /// The visible text, or the accessible name where there is none.
    pub text: String,
}

/// A link as a value.
pub struct LinkView {
    pub href: Seq<char>,
    pub text: Seq<char>,
}

impl View for Link {
    type V = LinkView;

    open spec fn view(&self) -> LinkView {
        LinkView { href: self.href@, text: self.text@ }
    }
}

pub open spec fn links_view(v: Seq<Link>) -> Seq<LinkView> {
    Seq::new(v.len(), |i: int| v[i]@)
}

/// At most this many links are taken from one page.
pub const MAX_LINKS: usize = 300;

/// Link text is cut to this many characters.
pub const MAX_LINK_TEXT: usize = 160;

/// Without a closing tag, this many bytes of markup are taken as a link's inside.
pub const MAX_INNER: usize = 2_000;

/// Some link leads to this target.
pub open spec fn leads_to(links: Seq<LinkView>, href: Seq<char>) -> bool {
    exists|i: int| 0 <= i < links.len() && (#[trigger] links[i]).href == href
}

/// A reference that leads to no page: a script, an address of another kind, or a
/// place on the same page.
pub open spec fn leads_nowhere(href: Seq<char>) -> bool {
    let low = lower_all(href);
    ||| starts(low, "javascript:"@)
    ||| starts(low, "mailto:"@)
    ||| starts(low, "tel:"@)
    ||| starts(href, "#"@)
}

/// The target of a reference on a page, when it is a new one.
pub open spec fn new_target(
    base: Seq<char>,
    href: Seq<char>,
    links: Seq<LinkView>,
) -> Option<Seq<char>> {
    if href.len() == 0 || leads_nowhere(href) {
        None
    } else {
        match url_joined(base, href) {
            Some(t) => if leads_to(links, t) {
                None
            } else {
                Some(t)
            },
            None => None,
        }
    }
}

fn has_target(links: &Vec<Link>, href: &str) -> (r: bool)
    ensures
        r == leads_to(links_view(links@), href@),
{
    let mut i: usize = 0;
    while i < links.len()
        invariant
            i <= links@.len(),
            forall|k: int| 0 <= k < i ==> (#[trigger] links_view(links@)[k]).href != href@,
        decreases links@.len() - i,
    {
        if str_eq(links[i].href.as_str(), href) {
            assert(links_view(links@)[i as int].href == href@);
            return true;
        }
        i += 1;
    }
    false
}

fn resolve(base: &str, href: &[char], links: &Vec<Link>) -> (r: Option<String>)
    ensures
        match r {
            Some(t) => new_target(base@, href@, links_view(links@)) == Some(t@),
            None => new_target(base@, href@, links_view(links@)) is None,
        },
{
    if href.len() == 0 {
        return None;
    }
    let low = to_ascii_lower(href);
    if starts_with(&low, "javascript:") || starts_with(&low, "mailto:") || starts_with(
        &low,
        "tel:",
    ) || starts_with(href, "#") {
        return None;
    }
    let reference = from_chars(href);
    match join_url(base, reference.as_str()) {
        Some(t) => if has_target(links, t.as_str()) {
            None
        } else {
            Some(t)
        },
        None => None,
    }
}

/// A link's text as it is kept: one line, and bounded.
pub open spec fn kept_text(s: Seq<char>) -> Seq<char> {
    first(squeeze(s), MAX_LINK_TEXT as nat)
}

fn keep_text(v: &[char]) -> (r: Vec<char>)
    ensures
        r@ == kept_text(v@),
{
    let one_line = squeeze_spaces(v);
    first_chars(&one_line, MAX_LINK_TEXT)
}

// ---------------------------------------------------------------- anchors --

/// Where the inside of the anchor whose opening tag ends at `tag_end` ends.
pub open spec fn inner_end(s: Seq<char>, tag_end: int) -> int {
    match find_from(lower_all(s), tag_end, "</a"@) {
        Some(c) => c,
        None => cut_from(s, tag_end, MAX_INNER as nat),
    }
}

/// A name for an anchor without visible text: its title, else its image's
/// alternative text, else its label.
pub open spec fn accessible_name(tag: Seq<char>, inner: Seq<char>) -> Option<Seq<char>> {
    match attribute(tag, "title="@) {
        Some(t) => Some(t),
        None => match image_text(inner, 0) {
            Some(t) => Some(t),
            None => attribute(tag, "aria-label="@),
        },
    }
}

/// The text of an anchor: what it shows, or else the name it goes by.
pub open spec fn anchor_text(tag: Seq<char>, inner: Seq<char>) -> Seq<char> {
    let shown = kept_text(decoded(outside_tags(inner, 0)));
    if blank(shown) {
        match accessible_name(tag, inner) {
            Some(a) => kept_text(decoded(trim(a))),
            None => shown,
        }
    } else {
        shown
    }
}

/// The target that the anchor tag names, when it is a new one.
pub open spec fn anchor_target(
    base: Seq<char>,
    tag: Seq<char>,
    out: Seq<LinkView>,
) -> Option<Seq<char>> {
    match attribute(tag, "href="@) {
        Some(h) => new_target(base, decoded(trim(h)), out),
        None => None,
    }
}

/// An anchor's name ends at white space or at the end of its tag.
pub open spec fn ends_name(low: Seq<char>, i: int) -> bool {
    0 <= i < low.len() && (low[i] == ' ' || low[i] == '\t' || low[i] == '\n' || low[i] == '\r'
        || low[i] == '>')
}

/// The links of the markup from index `pos` on, added to `out`.
pub open spec fn anchors_from(
    s: Seq<char>,
    base: Seq<char>,
    pos: int,
    out: Seq<LinkView>,
) -> Seq<LinkView>
    decreases s.len() - pos,
    when 0 <= pos <= s.len()
    via anchors_from_moves
{
    let low = lower_all(s);
    if out.len() >= MAX_LINKS {
        out
    } else {
        match find_from(low, pos, "<a"@) {
            None => out,
            Some(start) => if !ends_name(low, start + 2) {
                anchors_from(s, base, start + 2, out)
            } else {
                match index_from(s, start, '>') {
                    None => out,
                    Some(gt) => {
                        let tag = s.subrange(start, gt + 1);
                        match anchor_target(base, tag, out) {
                            None => anchors_from(s, base, gt + 1, out),
                            Some(href) => anchors_from(
                                s,
                                base,
                                gt + 1,
                                out.push(
                                    LinkView {
                                        href,
                                        text: anchor_text(
                                            tag,
                                            s.subrange(gt + 1, inner_end(s, gt + 1)),
                                        ),
                                    },
                                ),
                            ),
                        }
                    },
                }
            },
        }
    }
}

#[via_fn]
proof fn anchors_from_moves(s: Seq<char>, base: Seq<char>, pos: int, out: Seq<LinkView>) {
    let low = lower_all(s);
    reveal_strlit("<a");
    lemma_find_from(low, pos, "<a"@);
    match find_from(low, pos, "<a"@) {
        Some(start) => {
            lemma_index_bounds(s, start, '>');
        },
        None => {},
    }
}

/// The links of a page's markup. Nothing without a base that parses.
pub open spec fn page_links(s: Seq<char>, base: Seq<char>) -> Seq<LinkView> {
    if url_parts(base) is None {
        Seq::empty()
    } else {
        anchors_from(s, base, 0, Seq::empty())
    }
}

fn name_anchor(tag: &[char], inner: &[char]) -> (r: Vec<char>)
    ensures
        r@ == anchor_text(tag@, inner@),
{
    let raw = strip_inner_text(inner);
    let shown = keep_text(&raw);
    if !is_blank(&shown) {
        return shown;
    }
    let name = match extract_attr(tag, "title=") {
        Some(t) => Some(t),
        None => match find_img_alt(inner) {
            Some(t) => Some(t),
            None => extract_attr(tag, "aria-label="),
        },
    };
    match name {
        Some(a) => {
            let t = trim_chars(&a);
            let d = decode_entities(&t);
            keep_text(&d)
        },
        None => shown,
    }
}

/// Scan markup for anchors and return resolved links: each target once, at most
/// three hundred, with one-line texts of at most 160 characters. Scripts, mail
/// and telephone addresses and fragments are skipped.
pub fn extract_links(html: &str, base: &str) -> (r: Vec<Link>)
    ensures
        links_view(r@) == page_links(html@, base@),
{
    let mut links: Vec<Link> = Vec::new();
    assert(links_view(links@) =~= Seq::<LinkView>::empty());
    if parse_url(base).is_none() {
        return links;
    }
    let v = to_chars(html);
    let low = to_ascii_lower(&v);
    let mut pos: usize = 0;
    proof {
        reveal_strlit("<a");
    }
    while links.len() < MAX_LINKS
        invariant
            pos <= v@.len(),
            v@ == html@,
            low@ == lower_all(v@),
            low@.len() == v@.len(),
            "<a"@.len() == 2,
            url_parts(base@) is Some,
            anchors_from(v@, base@, pos as int, links_view(links@)) == page_links(html@, base@),
        decreases v@.len() - pos, MAX_LINKS - links@.len(),
    {
        let start: usize = match find(&low, pos, "<a") {
            Some(k) => k,
            None => {
                return links;
            },
        };
        let after: usize = start + 2;
        let named = after < low.len() && (low[after] == ' ' || low[after] == '\t' || low[after]
            == '\n' || low[after] == '\r' || low[after] == '>');
        if !named {
            pos = after;
            continue;
        }
        let gt: usize = match index_of(&v, start, '>') {
            Some(k) => k,
            None => {
                return links;
            },
        };
        let tag_end: usize = gt + 1;
        let tag = sub_chars(&v, start, tag_end);
        let target = match extract_attr(&tag, "href=") {
            Some(h) => {
                let t = trim_chars(&h);
                let d = decode_entities(&t);
                resolve(base, &d, &links)
            },
            None => None,
        };
        pos = tag_end;
        match target {
            Some(href) => {
                let end: usize = match find(&low, tag_end, "</a") {
                    Some(c) => c,
                    None => cut_at(&v, tag_end, MAX_INNER),
                };
                let inner = sub_chars(&v, tag_end, end);
                let text = name_anchor(&tag, &inner);
                let link = Link { href, text: from_chars(&text) };
                let ghost before = links_view(links@);
                let ghost l = link@;
                links.push(link);
                assert(links_view(links@) =~= before.push(l));
            },
            None => {},
        }
    }
    links
}

// --------------------------------------------------------------- markdown --

/// Where the bracket that is `depth` deep at index `j` closes. A backslash takes
/// the next character with it.
pub open spec fn closing(s: Seq<char>, j: int, depth: nat, open: char, close: char) -> Option<int>
    decreases s.len() + 1 - j,
{
    if j < 0 || j >= s.len() {
        None
    } else if s[j] == open {
        closing(s, j + 1, depth + 1, open, close)
    } else if s[j] == close {
        if depth <= 1 {
            Some(j)
        } else {
            closing(s, j + 1, (depth - 1) as nat, open, close)
        }
    } else if s[j] == '\\' {
        closing(s, j + 2, depth, open, close)
    } else {
        closing(s, j + 1, depth, open, close)
    }
}

proof fn lemma_closing(s: Seq<char>, j: int, depth: nat, open: char, close: char)
    ensures
        closing(s, j, depth, open, close) matches Some(k) ==> j <= k < s.len(),
    decreases s.len() + 1 - j,
{
    if 0 <= j < s.len() {
        if s[j] == open {
            lemma_closing(s, j + 1, depth + 1, open, close);
        } else if s[j] == close {
            if depth > 1 {
                lemma_closing(s, j + 1, (depth - 1) as nat, open, close);
            }
        } else if s[j] == '\\' {
            lemma_closing(s, j + 2, depth, open, close);
        } else {
            lemma_closing(s, j + 1, depth, open, close);
        }
    }
}

fn find_closing(v: &[char], from: usize, open: char, close: char) -> (r: Option<usize>)
    requires
        open != close,
        1 <= from,
    ensures
        match r {
            Some(k) => closing(v@, from as int, 1, open, close) == Some(k as int) && from <= k
                < v@.len(),
            None => closing(v@, from as int, 1, open, close) is None,
        },
{
    let n: usize = v.len();
    let mut j: usize = from;
    let mut depth: usize = 1;
    while j < n
        invariant
            1 <= from <= j,
            n == v@.len(),
            1 <= depth <= j - from + 1,
            closing(v@, j as int, depth as nat, open, close) == closing(
                v@,
                from as int,
                1,
                open,
                close,
            ),
        decreases n - j,
    {
        let c = v[j];
        if c == open {
            depth += 1;
        } else if c == close {
            if depth == 1 {
                return Some(j);
            }
            depth -= 1;
        } else if c == '\\' {
            if n - j <= 2 {
                assert(closing(v@, j + 2, depth as nat, open, close) is None);
                return None;
            }
            j += 1;
        }
        j += 1;
    }
    None
}

/// Where the first white space from index `i` on stands, or the end.
pub open spec fn space_from(s: Seq<char>, i: int) -> int
    decreases s.len() - i,
{
    if 0 <= i < s.len() && !is_space(s[i]) {
        space_from(s, i + 1)
    } else {
        i
    }
}

/// An inline link at index `i`: the text's end, the target's start and end.
pub open spec fn inline_at(s: Seq<char>, i: int) -> Option<(int, int)> {
    if s[i] != '[' {
        None
    } else {
        match closing(s, i + 1, 1, '[', ']') {
            Some(j) => if j + 1 < s.len() && s[j + 1] == '(' {
                match closing(s, j + 2, 1, '(', ')') {
                    Some(k) => Some((j, k)),
                    None => None,
                }
            } else {
                None
            },
            None => None,
        }
    }
}

/// `out` with one more link, when it may be added.
pub open spec fn with_link(
    base: Seq<char>,
    href: Seq<char>,
    text: Seq<char>,
    out: Seq<LinkView>,
) -> Seq<LinkView> {
    if out.len() >= MAX_LINKS {
        out
    } else {
        match new_target(base, trim(href), out) {
            Some(t) => out.push(LinkView { href: t, text: kept_text(text) }),
            None => out,
        }
    }
}

/// The inline links from index `i` on, added to `out`. A title after the target
/// is dropped.
pub open spec fn inline_from(
    s: Seq<char>,
    base: Seq<char>,
    i: int,
    out: Seq<LinkView>,
) -> Seq<LinkView>
    decreases s.len() - i,
    when 0 <= i
    via inline_from_moves
{
    if i >= s.len() || out.len() >= MAX_LINKS {
        out
    } else {
        match inline_at(s, i) {
            None => inline_from(s, base, i + 1, out),
            Some((j, k)) => {
                let target = s.subrange(j + 2, k);
                inline_from(
                    s,
                    base,
                    k + 1,
                    with_link(
                        base,
                        target.take(space_from(target, 0)),
                        s.subrange(i + 1, j),
                        out,
                    ),
                )
            },
        }
    }
}

proof fn lemma_inline_at(s: Seq<char>, i: int)
    requires
        0 <= i < s.len(),
    ensures
        inline_at(s, i) matches Some(p) ==> i + 1 <= p.0 && p.0 + 2 <= p.1 < s.len(),
{
    lemma_closing(s, i + 1, 1, '[', ']');
    match closing(s, i + 1, 1, '[', ']') {
        Some(j) => {
            lemma_closing(s, j + 2, 1, '(', ')');
        },
        None => {},
    }
}

#[via_fn]
proof fn inline_from_moves(s: Seq<char>, base: Seq<char>, i: int, out: Seq<LinkView>) {
    if 0 <= i < s.len() {
        lemma_inline_at(s, i);
    }
}

/// A character that cannot be part of a bare address.
pub open spec fn ends_address(c: char) -> bool {
    is_space(c) || c == ')' || c == ']' || c == '>' || c == '"' || c == '<' || c == '\''
}

/// Where the bare address that starts at `i` ends.
pub open spec fn address_end(s: Seq<char>, i: int) -> int
    decreases s.len() - i,
{
    if 0 <= i < s.len() && !ends_address(s[i]) {
        address_end(s, i + 1)
    } else {
        i
    }
}

/// Punctuation that ends a sentence rather than an address.
pub open spec fn is_punctuation(c: char) -> bool {
    c == '.' || c == ',' || c == ';' || c == ':' || c == '!' || c == '?'
}

pub open spec fn without_punctuation(s: Seq<char>) -> Seq<char>
    decreases s.len(),
{
    if s.len() > 0 && is_punctuation(s.last()) {
        without_punctuation(s.drop_last())
    } else {
        s
    }
}

/// Where the next bare address from `pos` on starts.
pub open spec fn address_start(low: Seq<char>, pos: int) -> Option<int> {
    match (find_from(low, pos, "http://"@), find_from(low, pos, "https://"@)) {
        (Some(a), Some(b)) => Some(
            if a < b {
                a
            } else {
                b
            },
        ),
        (Some(a), None) => Some(a),
        (None, b) => b,
    }
}

/// The bare addresses from `pos` on, added to `out`.
pub open spec fn bare_from(
    s: Seq<char>,
    base: Seq<char>,
    pos: int,
    out: Seq<LinkView>,
) -> Seq<LinkView>
    decreases s.len() - pos,
    when 0 <= pos <= s.len()
    via bare_from_moves
{
    if out.len() >= MAX_LINKS {
        out
    } else {
        match address_start(lower_all(s), pos) {
            None => out,
            Some(start) => {
                let end = address_end(s, start);
                let url = without_punctuation(s.subrange(start, end));
                bare_from(
                    s,
                    base,
                    end,
                    if url.len() > 0 {
                        with_link(base, url, Seq::empty(), out)
                    } else {
                        out
                    },
                )
            },
        }
    }
}

proof fn lemma_address_end(s: Seq<char>, i: int)
    requires
        0 <= i <= s.len(),
    ensures
        i <= address_end(s, i) <= s.len(),
        i < s.len() && !ends_address(s[i]) ==> i < address_end(s, i),
    decreases s.len() - i,
{
    if i < s.len() && !ends_address(s[i]) {
        lemma_address_end(s, i + 1);
    }
}

proof fn lemma_address_start(s: Seq<char>, pos: int)
    requires
        0 <= pos <= s.len(),
    ensures
        address_start(lower_all(s), pos) matches Some(start) ==> pos <= start < s.len()
            && !ends_address(s[start]),
{
    let low = lower_all(s);
    reveal_strlit("http://");
    reveal_strlit("https://");
    lemma_find_from(low, pos, "http://"@);
    lemma_find_from(low, pos, "https://"@);
    match address_start(low, pos) {
        Some(start) => {
            if match_at(low, start, "http://"@) {
                assert(low.subrange(start, start + 7)[0] == low[start]);
            } else {
                assert(low.subrange(start, start + 8)[0] == low[start]);
            }
            assert(low[start] == 'h');
            assert(lower(s[start]) == 'h');
            assert(s[start] == 'h' || s[start] == 'H');
        },
        None => {},
    }
}

#[via_fn]
proof fn bare_from_moves(s: Seq<char>, base: Seq<char>, pos: int, out: Seq<LinkView>) {
    lemma_address_start(s, pos);
    match address_start(lower_all(s), pos) {
        Some(start) => {
            lemma_address_end(s, start);
        },
        None => {},
    }
}

/// The links of a markdown text: the inline ones, then the bare addresses.
/// Nothing without a base that parses.
pub open spec fn markdown_links(s: Seq<char>, base: Seq<char>) -> Seq<LinkView> {
    if url_parts(base) is None {
        Seq::empty()
    } else {
        bare_from(s, base, 0, inline_from(s, base, 0, Seq::empty()))
    }
}

fn push_link(base: &str, href: &[char], text: &[char], links: &mut Vec<Link>)
    ensures
        links_view(final(links)@) == with_link(base@, href@, text@, links_view(old(links)@)),
{
    if links.len() >= MAX_LINKS {
        return;
    }
    let t = trim_chars(href);
    match resolve(base, &t, links) {
        Some(target) => {
            let kept = keep_text(text);
            let link = Link { href: target, text: from_chars(&kept) };
            let ghost before = links_view(links@);
            let ghost l = link@;
            links.push(link);
            assert(links_view(links@) =~= before.push(l));
        },
        None => {},
    }
}

fn push_inline(v: &[char], base: &str, links: &mut Vec<Link>)
    ensures
        links_view(final(links)@) == inline_from(v@, base@, 0, links_view(old(links)@)),
{
    let n: usize = v.len();
    let mut i: usize = 0;
    while i < n && links.len() < MAX_LINKS
        invariant
            i <= n,
            n == v@.len(),
            inline_from(v@, base@, i as int, links_view(links@)) == inline_from(
                v@,
                base@,
                0,
                links_view(old(links)@),
            ),
        decreases n - i,
    {
        proof {
            lemma_inline_at(v@, i as int);
        }
        let mut next: usize = i + 1;
        if v[i] == '[' {
            match find_closing(v, i + 1, '[', ']') {
                Some(j) => {
                    if n - j > 1 && v[j + 1] == '(' {
                        match find_closing(v, j + 2, '(', ')') {
                            Some(k) => {
                                let target = sub_chars(v, j + 2, k);
                                let mut e: usize = 0;
                                while e < target.len() && !is_whitespace(target[e])
                                    invariant
                                        e <= target@.len(),
                                        space_from(target@, e as int) == space_from(target@, 0),
                                    decreases target@.len() - e,
                                {
                                    e += 1;
                                }
                                let href = sub_chars(&target, 0, e);
                                assert(href@ =~= target@.take(space_from(target@, 0)));
                                let text = sub_chars(v, i + 1, j);
                                push_link(base, &href, &text, links);
                                next = k + 1;
                            },
                            None => {},
                        }
                    }
                },
                None => {},
            }
        }
        i = next;
    }
}

fn stops_address(c: char) -> (r: bool)
    ensures
        r == ends_address(c),
{
    is_whitespace(c) || c == ')' || c == ']' || c == '>' || c == '"' || c == '<' || c == '\''
}

fn find_address(low: &[char], pos: usize) -> (r: Option<usize>)
    requires
        pos <= low@.len(),
    ensures
        match r {
            Some(k) => address_start(low@, pos as int) == Some(k as int) && pos <= k <= low@.len(),
            None => address_start(low@, pos as int) is None,
        },
{
    match (find(low, pos, "http://"), find(low, pos, "https://")) {
        (Some(a), Some(b)) => if a < b {
            Some(a)
        } else {
            Some(b)
        },
        (Some(a), None) => Some(a),
        (None, b) => b,
    }
}

/// Extract links from markdown: inline links and bare addresses, resolved and
/// filtered as those of markup are.
pub fn extract_markdown_links(md: &str, base: &str) -> (r: Vec<Link>)
    ensures
        links_view(r@) == markdown_links(md@, base@),
{
    let mut links: Vec<Link> = Vec::new();
    assert(links_view(links@) =~= Seq::<LinkView>::empty());
    if parse_url(base).is_none() {
        return links;
    }
    let v = to_chars(md);
    push_inline(&v, base, &mut links);
    let low = to_ascii_lower(&v);
    let mut pos: usize = 0;
    while links.len() < MAX_LINKS
        invariant
            pos <= v@.len(),
            v@ == md@,
            low@ == lower_all(v@),
            low@.len() == v@.len(),
            url_parts(base@) is Some,
            bare_from(v@, base@, pos as int, links_view(links@)) == markdown_links(md@, base@),
        decreases v@.len() - pos,
    {
        proof {
            lemma_address_start(v@, pos as int);
        }
        let start: usize = match find_address(&low, pos) {
            Some(k) => k,
            None => {
                return links;
            },
        };
        proof {
            lemma_address_end(v@, start as int);
        }
        let mut end: usize = start;
        while end < v.len() && !stops_address(v[end])
            invariant
                start <= end <= v@.len(),
                address_end(v@, end as int) == address_end(v@, start as int),
            decreases v@.len() - end,
        {
            end += 1;
        }
        let mut last: usize = end;
        while last > start && (v[last - 1] == '.' || v[last - 1] == ',' || v[last - 1] == ';'
            || v[last - 1] == ':' || v[last - 1] == '!' || v[last - 1] == '?')
            invariant
                start <= last <= end <= v@.len(),
                without_punctuation(v@.subrange(start as int, last as int)) == without_punctuation(
                    v@.subrange(start as int, end as int),
                ),
            decreases last,
        {
            assert(v@.subrange(start as int, last as int).drop_last() =~= v@.subrange(
                start as int,
                last - 1,
            ));
            last -= 1;
        }
        if last > start {
            let url = sub_chars(&v, start, last);
            let nothing: Vec<char> = Vec::new();
            assert(nothing@ =~= Seq::<char>::empty());
            push_link(base, &url, &nothing, &mut links);
        }
        pos = end;
    }
    links
}

// ------------------------------------------------------------------- laws --

/// Each target once, texts bounded, and at most three hundred links.
pub open spec fn well_kept(links: Seq<LinkView>) -> bool {
    &&& links.len() <= MAX_LINKS
    &&& forall|i: int, j: int|
        0 <= i < j < links.len() ==> (#[trigger] links[i]).href != (#[trigger] links[j]).href
    &&& forall|i: int|
        0 <= i < links.len() ==> (#[trigger] links[i]).text.len() <= MAX_LINK_TEXT
}

proof fn lemma_push_kept(links: Seq<LinkView>, base: Seq<char>, href: Seq<char>, text: Seq<char>)
    requires
        well_kept(links),
        links.len() < MAX_LINKS,
        new_target(base, href, links) is Some,
        text.len() <= MAX_LINK_TEXT,
    ensures
        well_kept(links.push(LinkView { href: new_target(base, href, links)->0, text })),
{
    let t = new_target(base, href, links)->0;
    assert(!leads_to(links, t));
    let next = links.push(LinkView { href: t, text });
    assert forall|i: int, j: int| 0 <= i < j < next.len() implies (#[trigger] next[i]).href != (
    #[trigger] next[j]).href by {
        if j == links.len() {
            assert(links[i].href != t);
        }
    }
}

proof fn lemma_anchors_kept(s: Seq<char>, base: Seq<char>, pos: int, out: Seq<LinkView>)
    requires
        0 <= pos <= s.len(),
        well_kept(out),
    ensures
        well_kept(anchors_from(s, base, pos, out)),
    decreases s.len() - pos,
{
    let low = lower_all(s);
    reveal_strlit("<a");
    lemma_find_from(low, pos, "<a"@);
    if out.len() < MAX_LINKS {
        match find_from(low, pos, "<a"@) {
            None => {},
            Some(start) => {
                lemma_index_bounds(s, start, '>');
                if !ends_name(low, start + 2) {
                    lemma_anchors_kept(s, base, start + 2, out);
                } else {
                    match index_from(s, start, '>') {
                        None => {},
                        Some(gt) => {
                            let tag = s.subrange(start, gt + 1);
                            match anchor_target(base, tag, out) {
                                None => {
                                    lemma_anchors_kept(s, base, gt + 1, out);
                                },
                                Some(href) => {
                                    let h = decoded(trim(attribute(tag, "href="@)->0));
                                    let text = anchor_text(
                                        tag,
                                        s.subrange(gt + 1, inner_end(s, gt + 1)),
                                    );
                                    lemma_push_kept(out, base, h, text);
                                    lemma_anchors_kept(
                                        s,
                                        base,
                                        gt + 1,
                                        out.push(LinkView { href, text }),
                                    );
                                },
                            }
                        },
                    }
                }
            },
        }
    }
}

/// Links taken from markup: each target once, at most three hundred, texts of at
/// most 160 characters.
pub proof fn law_page_links_are_well_kept(s: Seq<char>, base: Seq<char>)
    ensures
        well_kept(page_links(s, base)),
{
    if url_parts(base) is Some {
        lemma_anchors_kept(s, base, 0, Seq::empty());
    }
}

proof fn lemma_with_link_kept(
    base: Seq<char>,
    href: Seq<char>,
    text: Seq<char>,
    out: Seq<LinkView>,
)
    requires
        well_kept(out),
    ensures
        well_kept(with_link(base, href, text, out)),
{
    if out.len() < MAX_LINKS && new_target(base, trim(href), out) is Some {
        lemma_push_kept(out, base, trim(href), kept_text(text));
    }
}

proof fn lemma_inline_kept(s: Seq<char>, base: Seq<char>, i: int, out: Seq<LinkView>)
    requires
        0 <= i,
        well_kept(out),
    ensures
        well_kept(inline_from(s, base, i, out)),
    decreases s.len() - i,
{
    if i < s.len() && out.len() < MAX_LINKS {
        lemma_inline_at(s, i);
        match inline_at(s, i) {
            None => {
                lemma_inline_kept(s, base, i + 1, out);
            },
            Some((j, k)) => {
                let target = s.subrange(j + 2, k);
                let href = target.take(space_from(target, 0));
                lemma_with_link_kept(base, href, s.subrange(i + 1, j), out);
                lemma_inline_kept(
                    s,
                    base,
                    k + 1,
                    with_link(base, href, s.subrange(i + 1, j), out),
                );
            },
        }
    }
}

proof fn lemma_bare_kept(s: Seq<char>, base: Seq<char>, pos: int, out: Seq<LinkView>)
    requires
        0 <= pos <= s.len(),
        well_kept(out),
    ensures
        well_kept(bare_from(s, base, pos, out)),
    decreases s.len() - pos,
{
    if out.len() < MAX_LINKS {
        lemma_address_start(s, pos);
        match address_start(lower_all(s), pos) {
            None => {},
            Some(start) => {
                lemma_address_end(s, start);
                let end = address_end(s, start);
                let url = without_punctuation(s.subrange(start, end));
                let next = if url.len() > 0 {
                    with_link(base, url, Seq::empty(), out)
                } else {
                    out
                };
                lemma_with_link_kept(base, url, Seq::empty(), out);
                lemma_bare_kept(s, base, end, next);
            },
        }
    }
}

/// Links taken from markdown: each target once across both forms, at most three
/// hundred, texts of at most 160 characters.
pub proof fn law_markdown_links_are_well_kept(s: Seq<char>, base: Seq<char>)
    ensures
        well_kept(markdown_links(s, base)),
{
    if url_parts(base) is Some {
        lemma_inline_kept(s, base, 0, Seq::empty());
        lemma_bare_kept(s, base, 0, inline_from(s, base, 0, Seq::empty()));
    }
}

/// Links that were taken stay in their places when more are found.
pub proof fn law_later_links_come_behind(
    s: Seq<char>,
    base: Seq<char>,
    pos: int,
    out: Seq<LinkView>,
)
    requires
        0 <= pos <= s.len(),
    ensures
        out.is_prefix_of(anchors_from(s, base, pos, out)),
    decreases s.len() - pos,
{
    let low = lower_all(s);
    reveal_strlit("<a");
    lemma_find_from(low, pos, "<a"@);
    if out.len() < MAX_LINKS {
        match find_from(low, pos, "<a"@) {
            None => {},
            Some(start) => {
                lemma_index_bounds(s, start, '>');
                if !ends_name(low, start + 2) {
                    law_later_links_come_behind(s, base, start + 2, out);
                } else {
                    match index_from(s, start, '>') {
                        None => {},
                        Some(gt) => {
                            let tag = s.subrange(start, gt + 1);
                            match anchor_target(base, tag, out) {
                                None => {
                                    law_later_links_come_behind(s, base, gt + 1, out);
                                },
                                Some(href) => {
                                    let text = anchor_text(
                                        tag,
                                        s.subrange(gt + 1, inner_end(s, gt + 1)),
                                    );
                                    law_later_links_come_behind(
                                        s,
                                        base,
                                        gt + 1,
                                        out.push(LinkView { href, text }),
                                    );
                                },
                            }
                        },
                    }
                }
            },
        }
    }
}

proof fn lemma_index_found(s: Seq<char>, i: int, e: int, c: char)
    requires
        0 <= i <= e < s.len(),
        forall|k: int| i <= k < e ==> #[trigger] s[k] != c,
        s[e] == c,
    ensures
        index_from(s, i, c) == Some(e),
    decreases e - i,
{
    if i < e {
        lemma_index_found(s, i + 1, e, c);
    }
}

proof fn lemma_no_index(s: Seq<char>, i: int, c: char)
    requires
        0 <= i <= s.len(),
        forall|k: int| i <= k < s.len() ==> #[trigger] s[k] != c,
    ensures
        index_from(s, i, c) is None,
    decreases s.len() - i,
{
    if i < s.len() {
        lemma_no_index(s, i + 1, c);
    }
}

/// The value of the only attribute of an anchor tag.
proof fn lemma_href(target: Seq<char>)
    requires
        !target.contains('"'),
    ensures
        attribute("<a href=\""@ + target + "\">"@, "href="@) == Some(target),
{
    reveal_strlit("<a href=\"");
    reveal_strlit("\">");
    reveal_strlit("href=");
    let tag = "<a href=\""@ + target + "\">"@;
    let low = lower_all(tag);
    assert(tag[0] == '<' && tag[1] == 'a' && tag[2] == ' ' && tag[3] == 'h' && tag[4] == 'r'
        && tag[5] == 'e' && tag[6] == 'f' && tag[7] == '=' && tag[8] == '"');
    assert(low[0] == '<' && low[1] == 'a' && low[2] == ' ');
    assert(low.subrange(3, 8) =~= "href="@);
    assert(match_at(low, 3, "href="@));
    assert forall|i: int| 0 <= i < 3 implies !#[trigger] match_at(low, i, "href="@) by {
        if match_at(low, i, "href="@) {
            assert(low.subrange(i, i + 5)[0] == low[i]);
        }
    }
    assert(!crate::html::is_name_char(' '));
    assert(crate::html::named_from(low, 3, "href="@) == Some(3int));
    assert(crate::html::named_from(low, 2, "href="@) == Some(3int)) by {
        assert(!match_at(low, 2, "href="@));
    }
    assert(crate::html::named_from(low, 1, "href="@) == Some(3int)) by {
        assert(!match_at(low, 1, "href="@));
    }
    assert(crate::html::named_from(low, 0, "href="@) == Some(3int)) by {
        assert(!match_at(low, 0, "href="@));
    }
    let e = 9 + target.len() as int;
    assert forall|k: int| 9 <= k < e implies #[trigger] tag[k] != '"' by {
        assert(tag[k] == target[k - 9]);
    }
    assert(tag[e] == '"');
    lemma_index_found(tag, 9, e, '"');
    assert(tag.subrange(9, e) =~= target);
}

/// An anchor is a link: its target resolved against the page, with the words it shows, on one
/// line and cut at 160 characters.
pub proof fn law_an_anchor_is_a_link(
    a: Seq<char>,
    target: Seq<char>,
    shown: Seq<char>,
    b: Seq<char>,
    base: Seq<char>,
)
    requires
        !a.contains('<'),
        !b.contains('<'),
        !shown.contains('<'),
        !shown.contains('&'),
        !blank(shown),
        !target.contains('"'),
        !target.contains('<'),
        !target.contains('>'),
        !target.contains('&'),
        trim(target) == target,
        target.len() > 0,
        url_parts(base) is Some,
    ensures
        !leads_nowhere(target) && url_joined(base, target) is Some ==> page_links(
            a + "<a href=\""@ + target + "\">"@ + shown + "</a>"@ + b,
            base,
        ) == seq![
            LinkView {
                href: url_joined(base, target)->0,
                text: if squeeze(shown).len() > 160 {
                    squeeze(shown).take(160)
                } else {
                    squeeze(shown)
                },
            },
        ],
        leads_nowhere(target) || url_joined(base, target) is None ==> page_links(
            a + "<a href=\""@ + target + "\">"@ + shown + "</a>"@ + b,
            base,
        ).len() == 0,
{
    reveal_strlit("<a href=\"");
    reveal_strlit("\">");
    reveal_strlit("</a>");
    reveal_strlit("</a");
    reveal_strlit("<a");
    let tag = "<a href=\""@ + target + "\">"@;
    let s = a + "<a href=\""@ + target + "\">"@ + shown + "</a>"@ + b;
    assert(s =~= a + tag + shown + "</a>"@ + b);
    let low = lower_all(s);
    let i = a.len() as int;
    let gt = i + tag.len() - 1;
    let e = gt + 1 + shown.len();
    assert(s.subrange(i, gt + 1) =~= tag);
    lemma_places(a, target, shown, b, s);
    assert(find_from(low, 0, "<a"@) == Some(i));
    assert(ends_name(low, i + 2)) by {
        assert(s[i + 2] == tag[2]);
    }
    lemma_href(target);
    lemma_law_text(target);
    assert(decoded(trim(target)) == target);
    lemma_law_text(shown);
    let none = Seq::<LinkView>::empty();
    assert(!leads_to(none, url_joined(base, target)->0));
    assert(inner_end(s, gt + 1) == e);
    assert(s.subrange(gt + 1, e) =~= shown);
    lemma_outside(shown);
    lemma_shown(shown);
    let link = LinkView {
        href: url_joined(base, target)->0,
        text: anchor_text(tag, shown),
    };
    assert(anchors_from(s, base, gt + 1, none) == none);
    assert(anchors_from(s, base, gt + 1, none.push(link)) == none.push(link));
    assert(none.push(link) =~= seq![link]);
}

proof fn lemma_law_text(t: Seq<char>)
    requires
        !t.contains('&'),
    ensures
        decoded(t) == t,
{
    crate::entities::law_plain_text_is_unchanged(t);
}

proof fn lemma_shown(shown: Seq<char>)
    requires
        !blank(shown),
    ensures
        !blank(kept_text(shown)),
        kept_text(shown) == (if squeeze(shown).len() > 160 {
            squeeze(shown).take(160)
        } else {
            squeeze(shown)
        }),
{
    lemma_squeeze_head(shown);
    let k = kept_text(shown);
    assert(k[0] == squeeze(shown)[0]);
}

proof fn lemma_squeeze_head(s: Seq<char>)
    requires
        !blank(s),
    ensures
        squeeze(s).len() > 0,
        !is_space(squeeze(s)[0]),
    decreases s.len(),
{
    lemma_squeeze_first(s);
    let rest = s.drop_first();
    if is_space(s[0]) {
        let i = choose|i: int| 0 <= i < s.len() && !is_space(#[trigger] s[i]);
        assert(rest[i - 1] == s[i]);
        lemma_squeeze_head(rest);
    } else if rest.len() == 0 || is_space(rest[0]) {
        if crate::scan::words(rest).len() > 0 {
            assert((seq![s[0]] + seq![' '] + squeeze(rest))[0] == s[0]);
        }
    }
}

proof fn lemma_outside(t: Seq<char>)
    requires
        !t.contains('<'),
    ensures
        outside_tags(t, 0) == t,
{
    assert forall|k: int| 0 <= k < t.len() implies #[trigger] t[k] != '<' by {
        assert(t.contains(t[k]));
    }
    lemma_no_index(t, 0, '<');
    assert(t.subrange(0, t.len() as int) =~= t);
}

/// Where the only anchor of this markup opens, ends its tag and closes.
proof fn lemma_places(
    a: Seq<char>,
    target: Seq<char>,
    shown: Seq<char>,
    b: Seq<char>,
    s: Seq<char>,
)
    requires
        s == a + "<a href=\""@ + target + "\">"@ + shown + "</a>"@ + b,
        !a.contains('<'),
        !b.contains('<'),
        !shown.contains('<'),
        !target.contains('<'),
        !target.contains('>'),
    ensures
        find_from(lower_all(s), 0, "<a"@) == Some(a.len() as int),
        index_from(s, a.len() as int, '>') == Some(a.len() + 10int + target.len()),
        find_from(lower_all(s), a.len() + 11int + target.len(), "</a"@) == Some(
            a.len() + 11int + target.len() + shown.len(),
        ),
        find_from(lower_all(s), a.len() + 11int + target.len(), "<a"@) is None,
{
    reveal_strlit("<a href=\"");
    reveal_strlit("\">");
    reveal_strlit("</a>");
    reveal_strlit("</a");
    reveal_strlit("<a");
    let low = lower_all(s);
    let i = a.len() as int;
    let gt = i + 10 + target.len();
    let e = gt + 1 + shown.len();
    assert forall|k: int| 0 <= k < s.len() implies (#[trigger] low[k] == '<' <==> k == i || k == e) by {
        assert(low[k] == lower(s[k]));
        if k < i {
            assert(s[k] == a[k]);
        } else if k < i + 9 {
            assert(s[k] == "<a href=\""@[k - i]);
        } else if k < i + 9 + target.len() {
            assert(s[k] == target[k - i - 9]);
        } else if k <= gt {
            assert(s[k] == "\">"@[k - i - 9 - target.len()]);
        } else if k < e {
            assert(s[k] == shown[k - gt - 1]);
        } else if k < e + 4 {
            assert(s[k] == "</a>"@[k - e]);
        } else {
            assert(s[k] == b[k - e - 4]);
        }
    }
    assert(s[i] == '<' && s[i + 1] == 'a' && s[e] == '<' && s[e + 1] == '/' && s[e + 2] == 'a');
    assert(low[e + 1] == '/' && low[e + 2] == 'a' && low[i + 1] == 'a');
    assert(low.subrange(i, i + 2) =~= "<a"@);
    assert(low.subrange(e, e + 3) =~= "</a"@);
    lemma_find_from(low, 0, "<a"@);
    assert(match_at(low, i, "<a"@));
    let f = find_from(low, 0, "<a"@);
    if f is Some && f->0 < i {
        assert(low.subrange(f->0, f->0 + 2)[0] == low[f->0]);
    }
    lemma_find_from(low, gt + 1, "</a"@);
    assert(match_at(low, e, "</a"@));
    let g = find_from(low, gt + 1, "</a"@);
    if g is Some && g->0 < e {
        assert(low.subrange(g->0, g->0 + 3)[0] == low[g->0]);
    }
    lemma_find_from(low, gt + 1, "<a"@);
    let h = find_from(low, gt + 1, "<a"@);
    if h is Some {
        assert(low.subrange(h->0, h->0 + 2)[0] == low[h->0]);
        assert(low.subrange(h->0, h->0 + 2)[1] == low[h->0 + 1]);
    }
    assert forall|k: int| i <= k < gt implies #[trigger] s[k] != '>' by {
        if k < i + 9 {
            assert(s[k] == "<a href=\""@[k - i]);
        } else if k < i + 9 + target.len() {
            assert(s[k] == target[k - i - 9]);
        } else {
            assert(s[k] == '"');
        }
    }
    assert(s[gt] == '>');
    lemma_index_found(s, i, gt, '>');
}

/// Scripts, mail and telephone addresses, in any case, and places on the same page are no
/// links; a target that a link has already is no second one.
pub proof fn law_some_references_are_no_links(
    base: Seq<char>,
    rest: Seq<char>,
    href: Seq<char>,
    links: Seq<LinkView>,
    k: int,
)
    requires
        0 <= k < links.len(),
    ensures
        new_target(base, "#"@ + rest, links) is None,
        lower_all(href) == "mailto:"@ + rest ==> new_target(base, href, links) is None,
        lower_all(href) == "tel:"@ + rest ==> new_target(base, href, links) is None,
        lower_all(href) == "javascript:"@ + rest ==> new_target(base, href, links) is None,
        url_joined(base, href) == Some(links[k].href) ==> new_target(base, href, links) is None,
{
    lemma_starts("#"@, rest);
    lemma_starts("mailto:"@, rest);
    lemma_starts("tel:"@, rest);
    lemma_starts("javascript:"@, rest);
    assert(leads_to(links, links[k].href));
}

proof fn lemma_starts(p: Seq<char>, rest: Seq<char>)
    ensures
        starts(p + rest, p),
{
    assert((p + rest).subrange(0, p.len() as int) =~= p);
}

proof fn lemma_closes(s: Seq<char>, j: int, e: int, open: char, close: char)
    requires
        0 <= j <= e < s.len(),
        open != close,
        s[e] == close,
        forall|k: int| j <= k < e ==> #[trigger] s[k] != open && s[k] != close && s[k] != '\\',
    ensures
        closing(s, j, 1, open, close) == Some(e),
    decreases e - j,
{
    if j < e {
        lemma_closes(s, j + 1, e, open, close);
    }
}

proof fn lemma_no_inline(s: Seq<char>, base: Seq<char>, i: int, e: int, out: Seq<LinkView>)
    requires
        0 <= i <= e <= s.len(),
        forall|k: int| i <= k < e ==> #[trigger] s[k] != '[',
    ensures
        inline_from(s, base, i, out) == inline_from(s, base, e, out),
    decreases e - i,
{
    if i < e {
        assert(inline_at(s, i) is None);
        lemma_no_inline(s, base, i + 1, e, out);
    }
}

proof fn lemma_no_space(t: Seq<char>, i: int)
    requires
        0 <= i <= t.len(),
        forall|k: int| i <= k < t.len() ==> !is_space(#[trigger] t[k]),
    ensures
        space_from(t, i) == t.len(),
    decreases t.len() - i,
{
    if i < t.len() {
        lemma_no_space(t, i + 1);
    }
}

/// An inline link of a markdown text is a link: its target resolved against the page, with the
/// words between its brackets.
pub proof fn law_an_inline_link_is_a_link(
    a: Seq<char>,
    shown: Seq<char>,
    target: Seq<char>,
    b: Seq<char>,
    base: Seq<char>,
)
    requires
        !a.contains('['),
        !b.contains('['),
        forall|k: int|
            0 <= k < shown.len() ==> #[trigger] shown[k] != '[' && shown[k] != ']' && shown[k]
                != '\\',
        forall|k: int|
            0 <= k < target.len() ==> #[trigger] target[k] != '(' && target[k] != ')' && target[k]
                != '\\' && !is_space(target[k]) && target[k] != '[',
        target.len() > 0,
        !leads_nowhere(target),
        url_joined(base, target) is Some,
    ensures
        inline_from(
            a + seq!['['] + shown + seq![']', '('] + target + seq![')'] + b,
            base,
            0,
            Seq::empty(),
        ) == seq![
            LinkView {
                href: url_joined(base, target)->0,
                text: if squeeze(shown).len() > 160 {
                    squeeze(shown).take(160)
                } else {
                    squeeze(shown)
                },
            },
        ],
{
    let s = a + seq!['['] + shown + seq![']', '('] + target + seq![')'] + b;
    let i = a.len() as int;
    let j = i + 1 + shown.len();
    let k = j + 2 + target.len();
    let none = Seq::<LinkView>::empty();
    assert forall|x: int| 0 <= x < i implies #[trigger] s[x] != '[' by {
        assert(s[x] == a[x]);
    }
    lemma_no_inline(s, base, 0, i, none);
    assert(s[i] == '[' && s[j] == ']' && s[j + 1] == '(' && s[k] == ')');
    assert forall|x: int| i + 1 <= x < j implies #[trigger] s[x] != '[' && s[x] != ']' && s[x]
        != '\\' by {
        assert(s[x] == shown[x - i - 1]);
    }
    lemma_closes(s, i + 1, j, '[', ']');
    assert forall|x: int| j + 2 <= x < k implies #[trigger] s[x] != '(' && s[x] != ')' && s[x]
        != '\\' by {
        assert(s[x] == target[x - j - 2]);
    }
    lemma_closes(s, j + 2, k, '(', ')');
    assert(inline_at(s, i) == Some((j, k)));
    assert(s.subrange(j + 2, k) =~= target);
    assert(s.subrange(i + 1, j) =~= shown);
    lemma_no_space(target, 0);
    assert(target.take(target.len() as int) =~= target);
    lemma_no_trim(target);
    assert(!leads_to(none, url_joined(base, target)->0));
    let link = LinkView { href: url_joined(base, target)->0, text: kept_text(shown) };
    let one = none.push(link);
    assert(one =~= seq![link]);
    assert forall|x: int| k + 1 <= x < s.len() implies #[trigger] s[x] != '[' by {
        assert(s[x] == b[x - k - 1]);
    }
    lemma_no_inline(s, base, k + 1, s.len() as int, one);
}

proof fn lemma_no_trim(t: Seq<char>)
    requires
        forall|k: int| 0 <= k < t.len() ==> !is_space(#[trigger] t[k]),
    ensures
        trim(t) == t,
{
    if t.len() > 0 {
        assert(!is_space(t[0]));
        assert(!is_space(t[t.len() - 1]));
    }
}

} // verus!
