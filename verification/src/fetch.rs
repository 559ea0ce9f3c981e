//! Getting pages and search results: what is asked for, what counts as a page, and
//! how the answers of several engines come together.
use vstd::prelude::*;
use vstd::string::*;
use vstd::utf8::encode_utf8;
use crate::chunk::{truncate, truncated};
use crate::hits::{
    dedupe_hits, deduped_from, hits_view, lanes_view, merge_hits, merged_hits, waves, HitView,
};
use crate::html::{extract_title, html_to_text, readable, title_of};
use crate::links::{
    extract_links, extract_markdown_links, links_view, markdown_links, page_links, Link, LinkView,
};
use crate::numeral::{decimal, show, show_usize};
use crate::scan::{blank, holds, is_blank_str, str_contains};
use crate::text::{byte_len, byte_length, has_text, str_eq, views};
use crate::types::Hit;
use crate::urls::{
    escaped, is_pdf_url, parse_url, pdf_name, pdf_title, points_at_pdf, url_parts, urlencode,
    Escape,
};

verus! {

/// The largest PDF that is read into memory over plain HTTP, in bytes. Larger ones
/// are left to the browser, which has its own process.
pub const MAX_HTTP_PDF_BYTES: u64 = 41_943_040;

/// Seconds a search lane has for one wave of queries when nothing says otherwise.
pub const DEFAULT_LANE_DEADLINE: u64 = 20;

/// How far into a document the mark of a PDF may stand.
pub const MAGIC_WINDOW: usize = 1_024;

/// A fetched page, reduced to what later stages use.
#[derive(Debug, Clone)]
pub struct PageContent {
    /// The final location, after redirects.
    pub url: String,
    /// The location that was asked for.
    pub requested_url: String,
    pub title: String,
    /// The text as a reader would see it.
    pub text: String,
    pub links: Vec<Link>,
    /// True when a browser rendered the page: markup that looks complete can still
    /// be missing what scripts put there.
    pub rendered: bool,
}

/// A page as a value.
#[verifier::ext_equal]
pub struct PageView {
    pub url: Seq<char>,
    pub requested_url: Seq<char>,
    pub title: Seq<char>,
    pub text: Seq<char>,
    pub links: Seq<LinkView>,
    pub rendered: bool,
}

impl View for PageContent {
    type V = PageView;

    open spec fn view(&self) -> PageView {
        PageView {
            url: self.url@,
            requested_url: self.requested_url@,
            title: self.title@,
            text: self.text@,
            links: links_view(self.links@),
            rendered: self.rendered,
        }
    }
}

pub open spec fn pages_view(v: Seq<PageContent>) -> Seq<PageView> {
    v.map_values(|p: PageContent| p@)
}

fn copy_links(v: &Vec<Link>) -> (r: Vec<Link>)
    ensures
        links_view(r@) == links_view(v@),
{
    let mut out: Vec<Link> = Vec::new();
    let mut i: usize = 0;
    while i < v.len()
        invariant
            i <= v@.len(),
            out@.len() == i,
            forall|k: int| 0 <= k < i ==> (#[trigger] out@[k])@ == v@[k]@,
        decreases v@.len() - i,
    {
        out.push(Link { href: v[i].href.as_str().to_owned(), text: v[i].text.as_str().to_owned() });
        i += 1;
    }
    assert(links_view(out@) =~= links_view(v@));
    out
}

// -------------------------------------------------------------------- PDFs --

/// What a panic carried.
#[derive(Debug)]
pub enum Payload {
    Literal(String),
    Owned(String),
    Opaque,
}

/// A panic's payload as a short text.
pub fn payload_downcast(p: &Payload) -> (r: String)
    ensures
        r@ == (match *p {
            Payload::Literal(s) => s@,
            Payload::Owned(s) => s@,
            Payload::Opaque => "non-string panic payload"@,
        }),
{
    match p {
        Payload::Literal(s) => s.as_str().to_owned(),
        Payload::Owned(s) => s.as_str().to_owned(),
        Payload::Opaque => "non-string panic payload".to_owned(),
    }
}

/// What came of handing a document to the parser.
#[derive(Debug)]
pub enum PdfParse {
    /// It panicked.
    Panicked(Payload),
    /// It refused the document, with this message.
    Failed(String),
    Text(String),
}

pub open spec fn payload_text(p: Payload) -> Seq<char> {
    match p {
        Payload::Literal(s) => s@,
        Payload::Owned(s) => s@,
        Payload::Opaque => "non-string panic payload"@,
    }
}

/// The text of a document, or why there is none: every failure of the parser is a
/// reason, never a crash, and a document without text counts as one.
pub open spec fn pdf_outcome(parse: PdfParse) -> Result<Seq<char>, Seq<char>> {
    match parse {
        PdfParse::Panicked(p) => Err("parser panicked: "@ + payload_text(p)),
        PdfParse::Failed(e) => Err("could not be parsed: "@ + e@),
        PdfParse::Text(t) => if blank(t@) {
            Err("no text"@)
        } else {
            Ok(t@)
        },
    }
}

/// Read what came of parsing a document.
pub fn pdf_text(parse: PdfParse) -> (r: Result<String, String>)
    ensures
        match r {
            Ok(t) => pdf_outcome(parse) == Ok::<Seq<char>, Seq<char>>(t@),
            Err(e) => pdf_outcome(parse) == Err::<Seq<char>, Seq<char>>(e@),
        },
{
    match parse {
        PdfParse::Panicked(p) => {
            let mut s = "parser panicked: ".to_owned();
            let t = payload_downcast(&p);
            s.append(t.as_str());
            Err(s)
        },
        PdfParse::Failed(e) => {
            let mut s = "could not be parsed: ".to_owned();
            s.append(e.as_str());
            Err(s)
        },
        PdfParse::Text(t) => {
            if is_blank_str(t.as_str()) {
                Err("no text".to_owned())
            } else {
                Ok(t)
            }
        },
    }
}

/// `%PDF` stands at `i`.
pub open spec fn magic_at(b: Seq<u8>, i: int) -> bool {
    0 <= i && i + 4 <= b.len() && b[i] == 0x25 && b[i + 1] == 0x50 && b[i + 2] == 0x44 && b[i + 3]
        == 0x46
}

/// The document is a PDF: its mark stands near its start, perhaps behind the wrapping
/// of a download.
pub open spec fn is_pdf(b: Seq<u8>) -> bool {
    exists|i: int| i + 4 <= MAGIC_WINDOW && #[trigger] magic_at(b, i)
}

/// Is a document's dump tried again after so many tries? It cannot solve a challenge
/// itself, but one that comes and goes may be gone the second time.
pub fn dump_again(tries: usize) -> (r: bool)
    ensures
        r == (tries < 2),
{
    tries < 2
}

/// Is this document a PDF? A page that was served in its place is not.
pub fn has_pdf_magic(b: &[u8]) -> (r: bool)
    ensures
        r == is_pdf(b@),
{
    let n: usize = if b.len() < MAGIC_WINDOW {
        b.len()
    } else {
        MAGIC_WINDOW
    };
    let mut i: usize = 0;
    while i < n && n - i >= 4
        invariant
            i <= n,
            n <= b@.len(),
            n <= MAGIC_WINDOW,
            n == b@.len() || n == MAGIC_WINDOW,
            forall|k: int| 0 <= k < i ==> !#[trigger] magic_at(b@, k),
        decreases n - i,
    {
        if b[i] == 0x25 && b[i + 1] == 0x50 && b[i + 2] == 0x44 && b[i + 3] == 0x46 {
            assert(magic_at(b@, i as int));
            return true;
        }
        i += 1;
    }
    assert forall|k: int| k + 4 <= MAGIC_WINDOW implies !#[trigger] magic_at(b@, k) by {
        if magic_at(b@, k) {
            assert(k < i);
        }
    }
    false
}

/// A document whose text was extracted, as a page.
pub open spec fn pdf_page_of(
    requested: Seq<char>,
    location: Seq<char>,
    parse: PdfParse,
) -> Option<PageView> {
    match pdf_outcome(parse) {
        Ok(text) => Some(
            PageView {
                url: location,
                requested_url: requested,
                title: pdf_name(location, url_parts(location)),
                text,
                links: Seq::empty(),
                rendered: false,
            },
        ),
        Err(_) => None,
    }
}

pub open spec fn opt_page(p: Option<PageContent>) -> Option<PageView> {
    match p {
        Some(x) => Some(x@),
        None => None,
    }
}

/// A document as a page; a failure to read it drops the page rather than pass on
/// junk.
pub fn pdf_page(requested: &str, location: &str, parse: PdfParse) -> (r: Option<PageContent>)
    ensures
        opt_page(r) == pdf_page_of(requested@, location@, parse),
{
    match pdf_text(parse) {
        Ok(text) => {
            let links: Vec<Link> = Vec::new();
            assert(links_view(links@) =~= Seq::<LinkView>::empty());
            Some(
                PageContent {
                    url: location.to_owned(),
                    requested_url: requested.to_owned(),
                    title: pdf_title(location),
                    text,
                    links,
                    rendered: false,
                },
            )
        },
        Err(_) => None,
    }
}

// -------------------------------------------------------------- plain HTTP --

/// What to do with a response.
#[derive(Debug, Clone, Copy, PartialEq, Eq, Structural)]
pub enum Route {
    /// Leave the page to the browser.
    Decline,
    /// Read the body as a document.
    Pdf,
    /// Read the body as markup.
    Html,
}

/// What a response holds, by its status, its type and where it came from.
pub open spec fn routed(status: u16, content_type: Seq<char>, url: Seq<char>) -> Route {
    if !(200 <= status <= 299) {
        Route::Decline
    } else if holds(content_type, "application/pdf"@) || points_at_pdf(url_parts(url)) {
        Route::Pdf
    } else if holds(content_type, "text/html"@) || holds(content_type, "application/xhtml"@) {
        Route::Html
    } else {
        Route::Decline
    }
}

/// What to do with a response.
pub fn route(status: u16, content_type: &str, url: &str) -> (r: Route)
    ensures
        r == routed(status, content_type@, url@),
{
    if !(200 <= status && status <= 299) {
        Route::Decline
    } else if str_contains(content_type, "application/pdf") || is_pdf_url(url) {
        Route::Pdf
    } else if str_contains(content_type, "text/html") || str_contains(
        content_type,
        "application/xhtml",
    ) {
        Route::Html
    } else {
        Route::Decline
    }
}

/// May a document of this announced length be read into memory?
pub fn length_allowed(content_length: Option<u64>) -> (r: bool)
    ensures
        r == (match content_length {
            Some(n) => n <= MAX_HTTP_PDF_BYTES,
            None => true,
        }),
{
    match content_length {
        Some(n) => n <= MAX_HTTP_PDF_BYTES,
        None => true,
    }
}

/// Is this body a document worth parsing: a PDF, and not too large?
pub fn body_allowed(b: &[u8]) -> (r: bool)
    ensures
        r == (b@.len() <= MAX_HTTP_PDF_BYTES && is_pdf(b@)),
{
    b.len() as u64 <= MAX_HTTP_PDF_BYTES && has_pdf_magic(b)
}

/// Thin text beside substantial markup: the signature of a page that scripts fill.
pub open spec fn is_shell(text: Seq<char>, html: Seq<char>) -> bool {
    byte_len(text) < 1_200 && byte_len(html) > 2_000
}

/// A page from its markup, unless it needs a browser.
pub open spec fn html_page_of(
    requested: Seq<char>,
    location: Seq<char>,
    html: Seq<char>,
) -> Option<PageView> {
    if is_shell(readable(html), html) {
        None
    } else {
        Some(
            PageView {
                url: location,
                requested_url: requested,
                title: title_of(html),
                text: readable(html),
                links: page_links(html, location),
                rendered: false,
            },
        )
    }
}

/// A page from its markup; `None` leaves it to the browser, because a wrong "this is
/// fine" loses the page.
pub fn html_page(requested: &str, location: &str, html: &str) -> (r: Option<PageContent>)
    ensures
        opt_page(r) == html_page_of(requested@, location@, html@),
{
    let text = html_to_text(html);
    if byte_length(text.as_str()) < 1_200 && byte_length(html) > 2_000 {
        return None;
    }
    Some(
        PageContent {
            url: location.to_owned(),
            requested_url: requested.to_owned(),
            title: extract_title(html),
            text,
            links: extract_links(html, location),
            rendered: false,
        },
    )
}

// -------------------------------------------------------------- the browser --

/// How the browser is driven.
#[derive(Debug, Clone)]
pub struct Obscura {
    pub bin: String,
    pub stealth: bool,
    pub obey_robots: bool,
    /// Pages rendered at once within one batch.
    pub concurrency: usize,
    /// Seconds for one page.
    pub timeout: u64,
}

/// Flags that come before the command.
pub open spec fn flags_of(stealth: bool, obey_robots: bool) -> Seq<Seq<char>> {
    (if stealth {
        seq!["--stealth"@]
    } else {
        Seq::empty()
    }) + (if obey_robots {
        seq!["--obey-robots"@]
    } else {
        Seq::empty()
    })
}

fn add_word(v: &mut Vec<String>, s: &str)
    ensures
        views(final(v)@) == views(old(v)@).push(s@),
{
    v.push(s.to_owned());
    assert(views(v@) =~= views(old(v)@).push(s@));
}

fn add_words(v: &mut Vec<String>, more: &Vec<String>)
    ensures
        views(final(v)@) == views(old(v)@) + views(more@),
{
    let mut i: usize = 0;
    assert(views(more@).take(0) =~= Seq::<Seq<char>>::empty());
    assert(views(v@) + views(more@).take(0) =~= views(v@));
    while i < more.len()
        invariant
            i <= more@.len(),
            views(v@) == views(old(v)@) + views(more@).take(i as int),
        decreases more@.len() - i,
    {
        add_word(v, more[i].as_str());
        assert(views(more@).take(i + 1) =~= views(more@).take(i as int).push(more@[i as int]@));
        assert(views(old(v)@) + views(more@).take(i + 1) =~= (views(old(v)@) + views(more@).take(
            i as int,
        )).push(more@[i as int]@));
        i += 1;
    }
    assert(views(more@).take(i as int) =~= views(more@));
}

impl Obscura {
    /// A browser that was found under this name.
    pub fn found(bin: &str, concurrency: usize, timeout: u64) -> (r: Self)
        ensures
            r.bin@ == bin@,
            !r.stealth,
            !r.obey_robots,
            r.concurrency == (if concurrency == 0 {
                1
            } else {
                concurrency
            }),
            r.timeout == timeout,
    {
        Obscura {
            bin: bin.to_owned(),
            stealth: false,
            obey_robots: false,
            concurrency: if concurrency == 0 {
                1
            } else {
                concurrency
            },
            timeout,
        }
    }

    /// Flags that the browser expects before its command.
    pub fn global_flags(&self) -> (r: Vec<String>)
        ensures
            views(r@) == flags_of(self.stealth, self.obey_robots),
    {
        let mut f: Vec<String> = Vec::new();
        assert(views(f@) =~= Seq::<Seq<char>>::empty());
        if self.stealth {
            add_word(&mut f, "--stealth");
        }
        if self.obey_robots {
            add_word(&mut f, "--obey-robots");
        }
        assert(views(f@) =~= flags_of(self.stealth, self.obey_robots));
        f
    }

    /// The arguments that dump a document verbatim.
    pub fn dump_args(&self, url: &str) -> (r: Vec<String>)
        ensures
            views(r@) == flags_of(self.stealth, self.obey_robots) + seq![
                "fetch"@,
                "--dump"@,
                "original"@,
                url@,
            ],
    {
        let mut v = self.global_flags();
        add_word(&mut v, "fetch");
        add_word(&mut v, "--dump");
        add_word(&mut v, "original");
        add_word(&mut v, url);
        assert(views(v@) =~= flags_of(self.stealth, self.obey_robots) + seq![
            "fetch"@,
            "--dump"@,
            "original"@,
            url@,
        ]);
        v
    }

    /// Seconds that dumping one document may take.
    pub fn dump_budget(&self) -> (r: u128)
        ensures
            r == self.timeout + 15,
    {
        self.timeout as u128 + 15
    }

    /// The arguments of a batch.
    pub open spec fn batch_args(self, urls: Seq<Seq<char>>, eval: Seq<char>) -> Seq<Seq<char>> {
        flags_of(self.stealth, self.obey_robots) + seq!["scrape"@] + urls + seq![
            "--quiet"@,
            "--format"@,
            "json"@,
            "--concurrency"@,
            decimal(self.concurrency as nat),
            "--timeout"@,
            decimal(self.timeout as nat),
            "--eval"@,
            eval,
        ]
    }

    /// The arguments that render a batch of pages and run a script in each.
    pub fn scrape_args(&self, urls: &Vec<String>, eval: &str) -> (r: Vec<String>)
        ensures
            views(r@) == self.batch_args(views(urls@), eval@),
    {
        let mut v = self.global_flags();
        add_word(&mut v, "scrape");
        add_words(&mut v, urls);
        add_word(&mut v, "--quiet");
        add_word(&mut v, "--format");
        add_word(&mut v, "json");
        add_word(&mut v, "--concurrency");
        let c = show_usize(self.concurrency);
        add_word(&mut v, c.as_str());
        add_word(&mut v, "--timeout");
        let t = show(self.timeout as u128);
        add_word(&mut v, t.as_str());
        add_word(&mut v, "--eval");
        add_word(&mut v, eval);
        assert(views(v@) =~= self.batch_args(views(urls@), eval@));
        v
    }

    /// Seconds that a batch may take: the time of one page, and half a minute for
    /// each wave. It grows with the batch, so that a large one is not lost whole.
    pub fn scrape_budget(&self, urls: usize) -> (r: u128)
        ensures
            r == self.timeout + 30 * waves(urls as nat, self.concurrency as nat),
    {
        let c: u128 = if self.concurrency == 0 {
            1
        } else {
            self.concurrency as u128
        };
        let whole: u128 = (urls as u128 + c - 1) / c;
        let n: u128 = if whole == 0 {
            1
        } else {
            whole
        };
        assert(n == waves(urls as nat, self.concurrency as nat));
        assert(whole <= urls as u128 + c - 1) by (nonlinear_arith)
            requires
                whole == (urls as u128 + c - 1) / (c as int),
                c >= 1,
                urls >= 0,
        ;
        self.timeout as u128 + 30 * n
    }
}

pub open spec fn search_address(query: Seq<char>) -> Seq<char> {
    "https://html.duckduckgo.com/html/?q="@ + escaped(
        Escape::Component,
        encode_utf8(query),
    )
}

/// The page that answers a query.
pub fn ddg_url(query: &str) -> (r: String)
    ensures
        r@ == search_address(query@),
{
    let mut s = "https://html.duckduckgo.com/html/?q=".to_owned();
    let q = urlencode(query);
    s.append(q.as_str());
    s
}

// ------------------------------------------------------------- search results --

/// Answers by the queries they are for.
pub open spec fn answers_view(v: Seq<(String, Vec<Hit>)>) -> Seq<(Seq<char>, Seq<HitView>)> {
    v.map_values(|a: (String, Vec<Hit>)| (a.0@, hits_view(a.1@)))
}

fn copy_hits(v: &Vec<Hit>) -> (r: Vec<Hit>)
    ensures
        hits_view(r@) == hits_view(v@),
{
    let mut out: Vec<Hit> = Vec::new();
    let mut i: usize = 0;
    while i < v.len()
        invariant
            i <= v@.len(),
            out@.len() == i,
            forall|k: int| 0 <= k < i ==> (#[trigger] out@[k])@ == v@[k]@,
        decreases v@.len() - i,
    {
        out.push(v[i].duplicate());
        i += 1;
    }
    assert(hits_view(out@) =~= hits_view(v@));
    out
}

fn no_hits() -> (r: Vec<Hit>)
    ensures
        hits_view(r@) == Seq::<HitView>::empty(),
{
    let r: Vec<Hit> = Vec::new();
    assert(hits_view(r@) =~= Seq::<HitView>::empty());
    r
}

fn add_answer(v: &mut Vec<(String, Vec<Hit>)>, query: &str, hits: Vec<Hit>)
    ensures
        answers_view(final(v)@) == answers_view(old(v)@).push((query@, hits_view(hits@))),
{
    let ghost shown = hits_view(hits@);
    v.push((query.to_owned(), hits));
    assert(answers_view(v@) =~= answers_view(old(v)@).push((query@, shown)));
}

/// The hits of the page at one position, where there is such a page and it gave some.
pub open spec fn position_hits(pages: Seq<Option<Vec<Hit>>>, i: int, limit: nat) -> Seq<HitView> {
    if 0 <= i < pages.len() && pages[i] is Some {
        deduped_from(hits_view(pages[i]->0@), 0, limit, Seq::empty())
    } else {
        Seq::empty()
    }
}

/// The answers to the first `n` queries.
pub open spec fn by_position(
    queries: Seq<Seq<char>>,
    pages: Seq<Option<Vec<Hit>>>,
    limit: nat,
    n: int,
) -> Seq<(Seq<char>, Seq<HitView>)>
    decreases n,
{
    if n <= 0 {
        Seq::empty()
    } else {
        by_position(queries, pages, limit, n - 1).push(
            (queries[n - 1], position_hits(pages, n - 1, limit)),
        )
    }
}

/// The answers to a batch of queries from the pages that came back, one for each
/// query in its place.
pub fn pair_hits(queries: &Vec<String>, pages: &Vec<Option<Vec<Hit>>>, limit: usize) -> (r: Vec<
    (String, Vec<Hit>),
>)
    ensures
        answers_view(r@) == by_position(
            views(queries@),
            pages@,
            limit as nat,
            queries@.len() as int,
        ),
{
    let mut out: Vec<(String, Vec<Hit>)> = Vec::new();
    let mut i: usize = 0;
    assert(answers_view(out@) =~= Seq::<(Seq<char>, Seq<HitView>)>::empty());
    while i < queries.len()
        invariant
            i <= queries@.len(),
            answers_view(out@) == by_position(views(queries@), pages@, limit as nat, i as int),
        decreases queries@.len() - i,
    {
        let hits = if i < pages.len() {
            match &pages[i] {
                Some(v) => dedupe_hits(v, limit),
                None => no_hits(),
            }
        } else {
            no_hits()
        };
        add_answer(&mut out, queries[i].as_str(), hits);
        i += 1;
    }
    out
}

/// One hit of the hosted search.
#[derive(Debug)]
pub struct JinaItem {
    pub title: String,
    pub url: String,
    pub description: String,
    pub content: String,
}

/// The first `n` items that have a title and an address, as hits. An item without a
/// description is described by the beginning of its content.
pub open spec fn items_as_hits(items: Seq<JinaItem>, n: int) -> Seq<HitView>
    decreases n,
{
    if n <= 0 {
        Seq::empty()
    } else {
        let before = items_as_hits(items, n - 1);
        let i = items[n - 1];
        if i.url@.len() == 0 || i.title@.len() == 0 {
            before
        } else {
            before.push(
                HitView {
                    title: i.title@,
                    url: i.url@,
                    snippet: if i.description@.len() == 0 {
                        truncated(i.content@, 300)
                    } else {
                        i.description@
                    },
                    engines: seq!["jina"@],
                },
            )
        }
    }
}

/// The hits of the hosted search.
pub fn jina_hits(items: &Vec<JinaItem>, limit: usize) -> (r: Vec<Hit>)
    ensures
        hits_view(r@) == deduped_from(
            items_as_hits(items@, items@.len() as int),
            0,
            limit as nat,
            Seq::empty(),
        ),
{
    let mut hits = no_hits();
    let mut n: usize = 0;
    while n < items.len()
        invariant
            n <= items@.len(),
            hits_view(hits@) == items_as_hits(items@, n as int),
        decreases items@.len() - n,
    {
        let i = &items[n];
        if i.url.as_str().unicode_len() > 0 && i.title.as_str().unicode_len() > 0 {
            let snippet = if i.description.as_str().unicode_len() == 0 {
                truncate(i.content.as_str(), 300).to_owned()
            } else {
                i.description.as_str().to_owned()
            };
            let mut engines: Vec<String> = Vec::new();
            assert(views(engines@) =~= Seq::<Seq<char>>::empty());
            add_word(&mut engines, "jina");
            assert(views(engines@) =~= seq!["jina"@]);
            let hit = Hit {
                title: i.title.as_str().to_owned(),
                url: i.url.as_str().to_owned(),
                snippet,
                engines,
            };
            let ghost before = hits_view(hits@);
            let ghost shown = hit@;
            hits.push(hit);
            assert(hits_view(hits@) =~= before.push(shown));
        }
        n += 1;
    }
    dedupe_hits(&hits, limit)
}

/// A hit that says which lane returned it.
pub open spec fn tagged(h: HitView, lane: Seq<char>) -> HitView {
    if h.engines.contains(lane) {
        h
    } else {
        HitView { engines: h.engines.push(lane), ..h }
    }
}

/// Note on each hit which lane returned it.
pub fn tag_hits(hits: &mut Vec<Hit>, lane: &str)
    ensures
        hits_view(final(hits)@) == hits_view(old(hits)@).map_values(
            |h: HitView| tagged(h, lane@),
        ),
{
    let n: usize = hits.len();
    let mut i: usize = 0;
    while i < n
        invariant
            i <= n,
            n == hits@.len(),
            n == old(hits)@.len(),
            forall|k: int| 0 <= k < i ==> (#[trigger] hits@[k])@ == tagged(old(hits)@[k]@, lane@),
            forall|k: int| i <= k < n ==> #[trigger] hits@[k] == old(hits)@[k],
        decreases n - i,
    {
        if !has_text(&hits[i].engines, lane) {
            let mut h = hits[i].duplicate();
            let ghost before = views(h.engines@);
            add_word(&mut h.engines, lane);
            assert(views(h.engines@) =~= before.push(lane@));
            hits.set(i, h);
        }
        i += 1;
    }
    assert(hits_view(hits@) =~= hits_view(old(hits)@).map_values(
        |h: HitView| tagged(h, lane@),
    ));
}

/// The queries among the first `n` that were not served, each once, in their order.
pub open spec fn unserved(queries: Seq<Seq<char>>, served: Seq<bool>, n: int) -> Seq<Seq<char>>
    decreases n,
{
    if n <= 0 {
        Seq::empty()
    } else {
        let before = unserved(queries, served, n - 1);
        if served[n - 1] || before.contains(queries[n - 1]) {
            before
        } else {
            before.push(queries[n - 1])
        }
    }
}

/// The queries that are left to search: those the cache did not serve, each once.
pub fn missing_queries(queries: &Vec<String>, served: &Vec<bool>) -> (r: Vec<String>)
    requires
        served@.len() == queries@.len(),
    ensures
        views(r@) == unserved(views(queries@), served@, queries@.len() as int),
{
    let mut out: Vec<String> = Vec::new();
    let mut i: usize = 0;
    assert(views(out@) =~= Seq::<Seq<char>>::empty());
    while i < queries.len()
        invariant
            i <= queries@.len(),
            served@.len() == queries@.len(),
            views(out@) == unserved(views(queries@), served@, i as int),
        decreases queries@.len() - i,
    {
        if !served[i] && !has_text(&out, queries[i].as_str()) {
            add_word(&mut out, queries[i].as_str());
        }
        i += 1;
    }
    out
}

/// The last answer to a query among the first `n`.
pub open spec fn answer_to(
    answers: Seq<(Seq<char>, Seq<HitView>)>,
    query: Seq<char>,
    n: int,
) -> Option<Seq<HitView>>
    decreases n,
{
    if n <= 0 {
        None
    } else if answers[n - 1].0 == query {
        Some(answers[n - 1].1)
    } else {
        answer_to(answers, query, n - 1)
    }
}

fn find_answer<'a>(answers: &'a Vec<(String, Vec<Hit>)>, query: &str) -> (r: Option<&'a Vec<Hit>>)
    ensures
        match r {
            Some(v) => answer_to(answers_view(answers@), query@, answers@.len() as int) == Some(
                hits_view(v@),
            ),
            None => answer_to(answers_view(answers@), query@, answers@.len() as int) is None,
        },
{
    let mut n: usize = answers.len();
    while n > 0
        invariant
            n <= answers@.len(),
            answer_to(answers_view(answers@), query@, answers@.len() as int) == answer_to(
                answers_view(answers@),
                query@,
                n as int,
            ),
        decreases n,
    {
        assert(answers_view(answers@)[n - 1] == (
            answers@[n - 1].0@,
            hits_view(answers@[n - 1].1@),
        ));
        if str_eq(answers[n - 1].0.as_str(), query) {
            return Some(&answers[n - 1].1);
        }
        n -= 1;
    }
    None
}

/// What a lane answers to a query: what the cache had, else what it just found, else
/// nothing.
pub open spec fn lane_answer(
    cached: Seq<(Seq<char>, Seq<HitView>)>,
    fresh: Seq<(Seq<char>, Seq<HitView>)>,
    query: Seq<char>,
) -> Seq<HitView> {
    match answer_to(cached, query, cached.len() as int) {
        Some(h) => h,
        None => match answer_to(fresh, query, fresh.len() as int) {
            Some(h) => h,
            None => Seq::empty(),
        },
    }
}

/// What one lane answers to each query, in the order they were asked. A lane that
/// ran out of time has nothing fresh, and costs only its own results.
pub fn lane_results(
    queries: &Vec<String>,
    cached: &Vec<(String, Vec<Hit>)>,
    fresh: &Vec<(String, Vec<Hit>)>,
) -> (r: Vec<(String, Vec<Hit>)>)
    ensures
        answers_view(r@) == views(queries@).map_values(
            |q: Seq<char>| (q, lane_answer(answers_view(cached@), answers_view(fresh@), q)),
        ),
{
    let ghost c = answers_view(cached@);
    let ghost f = answers_view(fresh@);
    let ghost all = views(queries@).map_values(|q: Seq<char>| (q, lane_answer(c, f, q)));
    let mut out: Vec<(String, Vec<Hit>)> = Vec::new();
    let mut i: usize = 0;
    assert(answers_view(out@) =~= all.take(0));
    while i < queries.len()
        invariant
            i <= queries@.len(),
            c == answers_view(cached@),
            f == answers_view(fresh@),
            all == views(queries@).map_values(|q: Seq<char>| (q, lane_answer(c, f, q))),
            answers_view(out@) == all.take(i as int),
        decreases queries@.len() - i,
    {
        let q = queries[i].as_str();
        assert(c.len() == cached@.len() && f.len() == fresh@.len());
        let hits = match find_answer(cached, q) {
            Some(v) => copy_hits(v),
            None => match find_answer(fresh, q) {
                Some(v) => copy_hits(v),
                None => no_hits(),
            },
        };
        add_answer(&mut out, q, hits);
        assert(all.take(i + 1) =~= all.take(i as int).push(all[i as int]));
        i += 1;
    }
    assert(all.take(i as int) =~= all);
    out
}

/// The first answer of a lane to a query.
pub open spec fn first_answer(answers: Seq<(Seq<char>, Seq<HitView>)>, query: Seq<char>, i: int) -> Option<
    Seq<HitView>,
>
    decreases answers.len() - i,
{
    if i < 0 || i >= answers.len() {
        None
    } else if answers[i].0 == query {
        Some(answers[i].1)
    } else {
        first_answer(answers, query, i + 1)
    }
}

fn first_of<'a>(answers: &'a Vec<(String, Vec<Hit>)>, query: &str) -> (r: Option<&'a Vec<Hit>>)
    ensures
        match r {
            Some(v) => first_answer(answers_view(answers@), query@, 0) == Some(hits_view(v@)),
            None => first_answer(answers_view(answers@), query@, 0) is None,
        },
{
    let mut i: usize = 0;
    while i < answers.len()
        invariant
            i <= answers@.len(),
            first_answer(answers_view(answers@), query@, 0) == first_answer(
                answers_view(answers@),
                query@,
                i as int,
            ),
        decreases answers@.len() - i,
    {
        assert(answers_view(answers@)[i as int] == (
            answers@[i as int].0@,
            hits_view(answers@[i as int].1@),
        ));
        if str_eq(answers[i].0.as_str(), query) {
            return Some(&answers[i].1);
        }
        i += 1;
    }
    None
}

pub open spec fn lanes_answers(v: Seq<Vec<(String, Vec<Hit>)>>) -> Seq<
    Seq<(Seq<char>, Seq<HitView>)>,
> {
    v.map_values(|l: Vec<(String, Vec<Hit>)>| answers_view(l@))
}

/// What the first `n` lanes answer to a query; a lane that has no answer is passed
/// over.
pub open spec fn answers_to(
    lanes: Seq<Seq<(Seq<char>, Seq<HitView>)>>,
    query: Seq<char>,
    n: int,
) -> Seq<Seq<HitView>>
    decreases n,
{
    if n <= 0 {
        Seq::empty()
    } else {
        match first_answer(lanes[n - 1], query, 0) {
            Some(h) => answers_to(lanes, query, n - 1).push(h),
            None => answers_to(lanes, query, n - 1),
        }
    }
}

fn collect_answers(per_lane: &Vec<Vec<(String, Vec<Hit>)>>, query: &str) -> (r: Vec<Vec<Hit>>)
    ensures
        lanes_view(r@) == answers_to(lanes_answers(per_lane@), query@, per_lane@.len() as int),
{
    let mut out: Vec<Vec<Hit>> = Vec::new();
    let mut i: usize = 0;
    assert(lanes_view(out@) =~= Seq::<Seq<HitView>>::empty());
    while i < per_lane.len()
        invariant
            i <= per_lane@.len(),
            lanes_view(out@) == answers_to(lanes_answers(per_lane@), query@, i as int),
        decreases per_lane@.len() - i,
    {
        assert(lanes_answers(per_lane@)[i as int] == answers_view(per_lane@[i as int]@));
        if let Some(v) = first_of(&per_lane[i], query) {
            let hits = copy_hits(v);
            let ghost before = lanes_view(out@);
            let ghost shown = hits_view(hits@);
            out.push(hits);
            assert(lanes_view(out@) =~= before.push(shown));
        }
        i += 1;
    }
    out
}

/// Every query with its hits from all lanes merged, in the order they were asked.
pub open spec fn merged_answers(
    queries: Seq<Seq<char>>,
    lanes: Seq<Seq<(Seq<char>, Seq<HitView>)>>,
    limit: nat,
) -> Seq<(Seq<char>, Seq<HitView>)> {
    queries.map_values(
        |q: Seq<char>| (q, merged_hits(answers_to(lanes, q, lanes.len() as int), limit)),
    )
}

/// Merge what the lanes answered, for each query.
pub fn merge_lanes(
    queries: &Vec<String>,
    per_lane: &Vec<Vec<(String, Vec<Hit>)>>,
    limit: usize,
) -> (r: Vec<(String, Vec<Hit>)>)
    ensures
        answers_view(r@) == merged_answers(views(queries@), lanes_answers(per_lane@), limit as nat),
{
    let ghost lanes = lanes_answers(per_lane@);
    let ghost all = merged_answers(views(queries@), lanes, limit as nat);
    let mut out: Vec<(String, Vec<Hit>)> = Vec::new();
    let mut i: usize = 0;
    assert(answers_view(out@) =~= all.take(0));
    while i < queries.len()
        invariant
            i <= queries@.len(),
            lanes == lanes_answers(per_lane@),
            all == merged_answers(views(queries@), lanes, limit as nat),
            answers_view(out@) == all.take(i as int),
        decreases queries@.len() - i,
    {
        let q = queries[i].as_str();
        assert(lanes.len() == per_lane@.len());
        let hits = collect_answers(per_lane, q);
        let merged = merge_hits(&hits, limit);
        add_answer(&mut out, q, merged);
        assert(all.take(i + 1) =~= all.take(i as int).push(all[i as int]));
        i += 1;
    }
    assert(all.take(i as int) =~= all);
    out
}

/// Every query gets an answer, under the words it was asked in and in the order asked,
/// whatever the lanes did; without lanes every answer is empty.
pub proof fn law_every_query_is_answered(
    queries: Seq<Seq<char>>,
    lanes: Seq<Seq<(Seq<char>, Seq<HitView>)>>,
    limit: nat,
    i: int,
)
    requires
        0 <= i < queries.len(),
    ensures
        merged_answers(queries, lanes, limit).len() == queries.len(),
        merged_answers(queries, lanes, limit)[i].0 == queries[i],
        lanes.len() == 0 ==> merged_answers(queries, lanes, limit)[i].1 =~= Seq::<
            HitView,
        >::empty(),
{
    crate::hits::lemma_merging_nothing(limit);
}

/// A lane that has no answer to a query does not change what the others answer.
pub proof fn law_a_silent_lane_costs_nothing(
    lanes: Seq<Seq<(Seq<char>, Seq<HitView>)>>,
    query: Seq<char>,
    n: int,
)
    requires
        0 < n <= lanes.len(),
        first_answer(lanes[n - 1], query, 0) is None,
    ensures
        answers_to(lanes, query, n) == answers_to(lanes, query, n - 1),
{
}

// --------------------------------------------------------------------- pages --

/// What a page gave when it was rendered.
#[derive(Debug)]
pub struct Extracted {
    pub title: String,
    pub text: String,
    pub links: Vec<Link>,
}

/// One page of a rendered batch; without content where it failed.
#[derive(Debug)]
pub struct Rendered {
    pub url: String,
    pub title: String,
    pub content: Option<Extracted>,
}

/// A rendered page that has readable text.
pub open spec fn rendered_page(requested: Seq<char>, r: Rendered) -> Option<PageView> {
    match r.content {
        Some(x) => if blank(x.text@) {
            None
        } else {
            Some(
                PageView {
                    url: r.url@,
                    requested_url: requested,
                    title: if x.title@.len() == 0 {
                        r.title@
                    } else {
                        x.title@
                    },
                    text: x.text@,
                    links: links_view(x.links@),
                    rendered: true,
                },
            )
        },
        None => None,
    }
}

/// The address that a page was asked for by: that of the same position, as long as
/// there is one for each page, else the page's own.
pub open spec fn asked_for(urls: Seq<Seq<char>>, results: Seq<Rendered>, i: int) -> Seq<char> {
    if results.len() == urls.len() {
        urls[i]
    } else {
        results[i].url@
    }
}

/// The pages of the first `n` results. One that failed costs no other.
pub open spec fn rendered_of(urls: Seq<Seq<char>>, results: Seq<Rendered>, n: int) -> Seq<PageView>
    decreases n,
{
    if n <= 0 {
        Seq::empty()
    } else {
        let before = rendered_of(urls, results, n - 1);
        match rendered_page(asked_for(urls, results, n - 1), results[n - 1]) {
            Some(p) => before.push(p),
            None => before,
        }
    }
}

fn page_of(requested: &str, r: &Rendered) -> (p: Option<PageContent>)
    ensures
        opt_page(p) == rendered_page(requested@, *r),
{
    match &r.content {
        Some(x) => {
            if is_blank_str(x.text.as_str()) {
                return None;
            }
            let title = if x.title.as_str().unicode_len() == 0 {
                r.title.as_str().to_owned()
            } else {
                x.title.as_str().to_owned()
            };
            Some(
                PageContent {
                    url: r.url.as_str().to_owned(),
                    requested_url: requested.to_owned(),
                    title,
                    text: x.text.as_str().to_owned(),
                    links: copy_links(&x.links),
                    rendered: true,
                },
            )
        },
        None => None,
    }
}

/// The pages of a batch: the documents that were read, then the pages that were
/// rendered and have readable text. What failed is dropped, and costs nothing else.
pub fn batch_pages(documents: Vec<PageContent>, urls: &Vec<String>, results: &Vec<Rendered>) -> (r:
    Vec<PageContent>)
    ensures
        pages_view(r@) == pages_view(documents@) + rendered_of(
            views(urls@),
            results@,
            results@.len() as int,
        ),
{
    let ghost before = pages_view(documents@);
    let mut pages = documents;
    let aligned: bool = results.len() == urls.len();
    let mut i: usize = 0;
    assert(before + Seq::<PageView>::empty() =~= before);
    while i < results.len()
        invariant
            i <= results@.len(),
            aligned == (results@.len() == urls@.len()),
            pages_view(pages@) == before + rendered_of(views(urls@), results@, i as int),
        decreases results@.len() - i,
    {
        let requested = if aligned {
            urls[i].as_str()
        } else {
            results[i].url.as_str()
        };
        assert(requested@ == asked_for(views(urls@), results@, i as int));
        if let Some(p) = page_of(requested, &results[i]) {
            let ghost seen = pages_view(pages@);
            let ghost shown = p@;
            pages.push(p);
            assert(pages_view(pages@) =~= seen.push(shown));
            assert(seen.push(shown) =~= before + rendered_of(
                views(urls@),
                results@,
                i as int,
            ).push(shown));
        }
        i += 1;
    }
    pages
}

/// The addresses among the first `n` that point at documents, or those that do not.
pub open spec fn pointing(urls: Seq<Seq<char>>, at_pdf: bool, n: int) -> Seq<Seq<char>>
    decreases n,
{
    if n <= 0 {
        Seq::empty()
    } else if points_at_pdf(url_parts(urls[n - 1])) == at_pdf {
        pointing(urls, at_pdf, n - 1).push(urls[n - 1])
    } else {
        pointing(urls, at_pdf, n - 1)
    }
}

/// Part a batch into documents, which a browser shows no text of, and pages.
pub fn part_documents(urls: &Vec<String>) -> (r: (Vec<String>, Vec<String>))
    ensures
        views(r.0@) == pointing(views(urls@), true, urls@.len() as int),
        views(r.1@) == pointing(views(urls@), false, urls@.len() as int),
{
    let mut pdfs: Vec<String> = Vec::new();
    let mut pages: Vec<String> = Vec::new();
    let mut i: usize = 0;
    assert(views(pdfs@) =~= Seq::<Seq<char>>::empty());
    assert(views(pages@) =~= Seq::<Seq<char>>::empty());
    while i < urls.len()
        invariant
            i <= urls@.len(),
            views(pdfs@) == pointing(views(urls@), true, i as int),
            views(pages@) == pointing(views(urls@), false, i as int),
        decreases urls@.len() - i,
    {
        let u = urls[i].as_str();
        if is_pdf_url(u) {
            add_word(&mut pdfs, u);
        } else {
            add_word(&mut pages, u);
        }
        i += 1;
    }
    (pdfs, pages)
}

proof fn lemma_parts(urls: Seq<Seq<char>>, n: int)
    requires
        0 <= n <= urls.len(),
    ensures
        pointing(urls, true, n).len() + pointing(urls, false, n).len() == n,
        forall|i: int|
            0 <= i < n ==> pointing(urls, true, n).contains(#[trigger] urls[i]) || pointing(
                urls,
                false,
                n,
            ).contains(urls[i]),
    decreases n,
{
    if n > 0 {
        lemma_parts(urls, n - 1);
        let a = pointing(urls, true, n - 1);
        let b = pointing(urls, false, n - 1);
        let x = pointing(urls, true, n);
        let y = pointing(urls, false, n);
        assert forall|i: int| 0 <= i < n implies x.contains(#[trigger] urls[i]) || y.contains(
            urls[i],
        ) by {
            if i < n - 1 {
                if a.contains(urls[i]) {
                    let k = a.index_of(urls[i]);
                    assert(x[k] == urls[i]);
                } else {
                    let k = b.index_of(urls[i]);
                    assert(y[k] == urls[i]);
                }
            } else if points_at_pdf(url_parts(urls[i])) {
                assert(x[a.len() as int] == urls[i]);
            } else {
                assert(y[b.len() as int] == urls[i]);
            }
        }
    }
}

/// Parting a batch loses no address.
pub proof fn law_parting_loses_nothing(urls: Seq<Seq<char>>, i: int)
    requires
        0 <= i < urls.len(),
    ensures
        ({
            let n = urls.len() as int;
            &&& pointing(urls, true, n).len() + pointing(urls, false, n).len() == n
            &&& pointing(urls, true, n).contains(urls[i]) || pointing(urls, false, n).contains(
                urls[i],
            )
        }),
{
    lemma_parts(urls, urls.len() as int);
}

/// The addresses among the first `n` attempts over plain HTTP that gave no page.
pub open spec fn unread(attempts: Seq<(String, Option<PageContent>)>, n: int) -> Seq<Seq<char>>
    decreases n,
{
    if n <= 0 {
        Seq::empty()
    } else {
        match attempts[n - 1].1 {
            Some(_) => unread(attempts, n - 1),
            None => unread(attempts, n - 1).push(attempts[n - 1].0@),
        }
    }
}

/// The addresses that are left to the browser.
pub fn needs_render(attempts: &Vec<(String, Option<PageContent>)>) -> (r: Vec<String>)
    ensures
        views(r@) == unread(attempts@, attempts@.len() as int),
{
    let mut out: Vec<String> = Vec::new();
    let mut i: usize = 0;
    assert(views(out@) =~= Seq::<Seq<char>>::empty());
    while i < attempts.len()
        invariant
            i <= attempts@.len(),
            views(out@) == unread(attempts@, i as int),
        decreases attempts@.len() - i,
    {
        if attempts[i].1.is_none() {
            add_word(&mut out, attempts[i].0.as_str());
        }
        i += 1;
    }
    out
}

// ---------------------------------------------------------- the hosted reader --

/// One page of the hosted reader.
#[derive(Debug)]
pub struct JinaRead {
    pub title: String,
    pub url: String,
    pub content: String,
    /// The status that the site gave the reader, which is not that of the call.
    pub http_status: Option<u16>,
}

/// The base of the links of a page: its final address, or the requested one where
/// that is none.
pub open spec fn link_base(url: Seq<char>, location: Seq<char>) -> Seq<char> {
    if url_parts(location) is Some {
        location
    } else {
        url
    }
}

/// The page of the hosted reader, or why there is none: no data, a site that refused
/// the reader, or nothing to read.
pub open spec fn jina_outcome(url: Seq<char>, data: Option<JinaRead>) -> Result<
    PageView,
    Seq<char>,
> {
    match data {
        None => Err("jina returned no data for "@ + url),
        Some(d) => if d.http_status is Some && !(200 <= d.http_status->0 < 300) {
            Err(
                url + " returned HTTP "@ + decimal(d.http_status->0 as nat)
                    + " to the reader (likely blocked or missing)"@,
            )
        } else if blank(d.content@) {
            Err(url + " returned no readable text"@)
        } else {
            let location = if d.url@.len() == 0 {
                url
            } else {
                d.url@
            };
            Ok(
                PageView {
                    url: location,
                    requested_url: url,
                    title: d.title@,
                    text: d.content@,
                    links: markdown_links(d.content@, link_base(url, location)),
                    rendered: true,
                },
            )
        },
    }
}

/// Read a page of the hosted reader. It renders pages itself, so what it returns
/// counts as rendered.
pub fn jina_page(url: &str, data: Option<JinaRead>) -> (r: Result<PageContent, String>)
    ensures
        match r {
            Ok(p) => jina_outcome(url@, data) == Ok::<PageView, Seq<char>>(p@),
            Err(e) => jina_outcome(url@, data) == Err::<PageView, Seq<char>>(e@),
        },
{
    match data {
        None => {
            let mut s = "jina returned no data for ".to_owned();
            s.append(url);
            Err(s)
        },
        Some(d) => {
            if let Some(code) = d.http_status {
                if !(200 <= code && code < 300) {
                    let mut s = url.to_owned();
                    s.append(" returned HTTP ");
                    let n = show(code as u128);
                    s.append(n.as_str());
                    s.append(" to the reader (likely blocked or missing)");
                    return Err(s);
                }
            }
            if is_blank_str(d.content.as_str()) {
                let mut s = url.to_owned();
                s.append(" returned no readable text");
                return Err(s);
            }
            let location = if d.url.as_str().unicode_len() == 0 {
                url.to_owned()
            } else {
                d.url
            };
            let links = if parse_url(location.as_str()).is_some() {
                extract_markdown_links(d.content.as_str(), location.as_str())
            } else {
                extract_markdown_links(d.content.as_str(), url)
            };
            Ok(
                PageContent {
                    url: location,
                    requested_url: url.to_owned(),
                    title: d.title,
                    text: d.content,
                    links,
                    rendered: true,
                },
            )
        },
    }
}

/// What a call of the hosted service says when its status is no success.
pub open spec fn jina_refusal(what: Seq<char>, status_text: Seq<char>, raw: Seq<char>) -> Seq<char> {
    "jina "@ + what + " returned HTTP "@ + status_text + ": "@ + truncated(raw, 300)
}

/// Check the status of a call of the hosted service; `status_text` is the status as
/// it is shown.
pub fn jina_refused(what: &str, status: u16, status_text: &str, raw: &str) -> (r: Option<String>)
    ensures
        match r {
            None => 200 <= status <= 299,
            Some(e) => !(200 <= status <= 299) && e@ == jina_refusal(what@, status_text@, raw@),
        },
{
    if 200 <= status && status <= 299 {
        return None;
    }
    let mut s = "jina ".to_owned();
    s.append(what);
    s.append(" returned HTTP ");
    s.append(status_text);
    s.append(": ");
    s.append(truncate(raw, 300));
    Some(s)
}

// ------------------------------------------------------------ what is kept --

/// Every query of a batch gets its own page's hits, in the order of the queries, and nothing
/// where its page did not come.
pub proof fn law_every_query_gets_its_own_page(
    queries: Seq<Seq<char>>,
    pages: Seq<Option<Vec<Hit>>>,
    limit: nat,
    n: int,
    i: int,
)
    requires
        0 <= i < n <= queries.len(),
    ensures
        by_position(queries, pages, limit, n).len() == n,
        by_position(queries, pages, limit, n)[i].0 == queries[i],
        i < pages.len() ==> (pages[i] matches Some(hits) ==> by_position(
            queries,
            pages,
            limit,
            n,
        )[i].1 == deduped_from(hits_view(hits@), 0, limit, Seq::empty())),
        i >= pages.len() || pages[i] is None ==> by_position(queries, pages, limit, n)[i].1.len()
            == 0,
    decreases n,
{
    lemma_by_position_len(queries, pages, limit, n - 1);
    if i < n - 1 {
        law_every_query_gets_its_own_page(queries, pages, limit, n - 1, i);
    }
}

proof fn lemma_by_position_len(
    queries: Seq<Seq<char>>,
    pages: Seq<Option<Vec<Hit>>>,
    limit: nat,
    n: int,
)
    ensures
        by_position(queries, pages, limit, n).len() == (if n <= 0 {
            0
        } else {
            n
        }),
    decreases n,
{
    if n > 0 {
        lemma_by_position_len(queries, pages, limit, n - 1);
    }
}

/// What is left to search are the queries that were not served, each once, and no other.
pub proof fn law_only_unserved_queries_are_searched(
    queries: Seq<Seq<char>>,
    served: Seq<bool>,
    n: int,
    q: Seq<char>,
)
    requires
        0 <= n <= queries.len(),
        served.len() == queries.len(),
    ensures
        unserved(queries, served, n).contains(q) <==> exists|i: int|
            0 <= i < n && #[trigger] queries[i] == q && !served[i],
        unserved(queries, served, n).no_duplicates(),
        n > 0 ==> unserved(queries, served, n - 1).is_prefix_of(unserved(queries, served, n)),
    decreases n,
{
    if n > 0 {
        law_only_unserved_queries_are_searched(queries, served, n - 1, q);
        law_only_unserved_queries_are_searched(queries, served, n - 1, queries[n - 1]);
        let before = unserved(queries, served, n - 1);
        let now = unserved(queries, served, n);
        if now.contains(q) && !before.contains(q) {
            assert(now.last() == queries[n - 1]);
            let k = now.index_of(q);
            assert(k == before.len());
        }
        if before.contains(q) {
            let k = before.index_of(q);
            assert(now[k] == q);
        }
        if !served[n - 1] && !before.contains(queries[n - 1]) {
            assert(now[before.len() as int] == queries[n - 1]);
        }
        if exists|i: int| 0 <= i < n && #[trigger] queries[i] == q && !served[i] {
            let i = choose|i: int| 0 <= i < n && #[trigger] queries[i] == q && !served[i];
            if i < n - 1 {
                assert(before.contains(q));
            }
        }
    }
}

/// A response that is no success is left to the browser; a document is read as one whatever
/// its status text, markup as markup, and nothing else is read.
pub proof fn law_only_successes_are_read(status: u16, content_type: Seq<char>, url: Seq<char>)
    ensures
        status < 200 || status > 299 ==> routed(status, content_type, url) == Route::Decline,
        200 <= status <= 299 && holds(content_type, "application/pdf"@) ==> routed(
            status,
            content_type,
            url,
        ) == Route::Pdf,
        200 <= status <= 299 && points_at_pdf(url_parts(url)) ==> routed(status, content_type, url)
            == Route::Pdf,
        200 <= status <= 299 && !holds(content_type, "application/pdf"@) && !points_at_pdf(
            url_parts(url),
        ) ==> (routed(status, content_type, url) == Route::Html <==> holds(
            content_type,
            "text/html"@,
        ) || holds(content_type, "application/xhtml"@)),
{
}

/// A page read from its markup is its title, its text and its links, at the address where it
/// was found; thin text beside much markup is left to the browser, and only that.
pub proof fn law_a_page_is_what_its_markup_says(
    requested: Seq<char>,
    location: Seq<char>,
    html: Seq<char>,
)
    ensures
        html_page_of(requested, location, html) is None <==> byte_len(readable(html)) < 1_200
            && byte_len(html) > 2_000,
        html_page_of(requested, location, html) matches Some(p) ==> p.url == location
            && p.requested_url == requested && p.title == title_of(html) && p.text == readable(html)
            && p.links == page_links(html, location) && !p.rendered,
{
}

/// Noting a lane on a hit adds the lane to its engines once and changes nothing else.
pub proof fn law_a_lane_is_noted_once(h: HitView, lane: Seq<char>)
    ensures
        tagged(h, lane).engines.contains(lane),
        h.engines.is_prefix_of(tagged(h, lane).engines),
        tagged(tagged(h, lane), lane) == tagged(h, lane),
        tagged(h, lane).url == h.url,
        tagged(h, lane).title == h.title,
        tagged(h, lane).snippet == h.snippet,
        h.engines.no_duplicates() ==> tagged(h, lane).engines.no_duplicates(),
{
    let t = tagged(h, lane).engines;
    if !h.engines.contains(lane) {
        assert(t[h.engines.len() as int] == lane);
    }
}

/// Every item of the hosted search that has a title and an address is a hit, in order,
/// described by itself or by the beginning of its content.
pub proof fn law_every_item_is_a_hit(items: Seq<JinaItem>, n: int, k: int)
    requires
        0 <= k < n <= items.len(),
        items[k].url@.len() > 0,
        items[k].title@.len() > 0,
    ensures
        exists|i: int|
            0 <= i < items_as_hits(items, n).len() && (#[trigger] items_as_hits(items, n)[i]).url
                == items[k].url@ && items_as_hits(items, n)[i].title == items[k].title@ && (
            items[k].description@.len() > 0 ==> items_as_hits(items, n)[i].snippet
                == items[k].description@),
        items_as_hits(items, n - 1).is_prefix_of(items_as_hits(items, n)),
    decreases n,
{
    let before = items_as_hits(items, n - 1);
    let now = items_as_hits(items, n);
    if k < n - 1 {
        law_every_item_is_a_hit(items, n - 1, k);
        let i = choose|i: int|
            0 <= i < before.len() && (#[trigger] before[i]).url == items[k].url@ && before[i].title
                == items[k].title@ && (items[k].description@.len() > 0 ==> before[i].snippet
                == items[k].description@);
        assert(now[i] == before[i]);
    } else {
        let i = before.len() as int;
        assert(now[i].url == items[k].url@);
    }
}

} // verus!
