use std::collections::HashMap;
use webscout::search_cache::{
    age_secs, cache_key, default_cache_dir, normalize_query, Entry, Lookup, SearchCache,
    DEFAULT_TTL,
};
use webscout::types::Hit;

/// The files of a cache, as a map.
struct Disk {
    files: HashMap<String, Entry>,
    cache: SearchCache,
    now: u64,
}

impl Disk {
    fn new(ttl: u64) -> Self {
        Disk { files: HashMap::new(), cache: SearchCache::new("/cache", ttl), now: 1_000_000 }
    }

    fn get(&mut self, lane: &str, query: &str, limit: usize) -> Option<Vec<Hit>> {
        let path = self.cache.path_for(lane, query, limit);
        let read = self.files.get(&path).map(|e| (e, 100u64));
        self.cache.serve(read, lane, query, limit, self.now)
    }

    fn put(&mut self, lane: &str, query: &str, limit: usize, hits: Vec<Hit>) {
        if let Some(e) = Entry::of_response(lane, query, limit, &hits, self.now) {
            self.files.insert(self.cache.path_for(lane, query, limit), e);
        }
    }
}

fn hit(url: &str) -> Hit {
    Hit {
        title: "t".into(),
        url: url.into(),
        snippet: "s".into(),
        engines: vec!["ddg".into()],
    }
}

#[test]
fn miss_then_hit() {
    let mut cache = Disk::new(DEFAULT_TTL);
    assert!(cache.get("ddg", "decidim partners", 8).is_none());
    cache.put("ddg", "decidim partners", 8, vec![hit("https://a.example/")]);
    let got = cache.get("ddg", "decidim partners", 8).expect("hit");
    assert_eq!(got.len(), 1);
    assert_eq!(got[0].url, "https://a.example/");
    let (hits, misses, bytes) = cache.cache.summary();
    assert_eq!((hits, misses), (1, 1));
    assert!(bytes > 0, "a hit must account for the bytes it served");
}

#[test]
fn normalizes_the_query_and_keys_on_lane_and_limit() {
    let mut cache = Disk::new(DEFAULT_TTL);
    cache.put("ddg", "Decidim   Partners", 8, vec![hit("https://a.example/")]);
    // Case and spacing differences are the same search.
    assert!(cache.get("ddg", "decidim partners", 8).is_some());
    // A different lane or limit is a different search.
    assert!(cache.get("jina", "decidim partners", 8).is_none());
    assert!(cache.get("ddg", "decidim partners", 20).is_none());
}

#[test]
fn expired_entry_is_a_miss_and_is_overwritten() {
    let mut cache = Disk::new(1);
    cache.put("ddg", "q", 8, vec![hit("https://old.example/")]);
    cache.now += 3600;
    assert!(cache.get("ddg", "q", 8).is_none(), "expired must miss");
    cache.put("ddg", "q", 8, vec![hit("https://new.example/")]);
    let got = cache.get("ddg", "q", 8).expect("fresh entry after overwrite");
    assert_eq!(got[0].url, "https://new.example/");
}

#[test]
fn empty_responses_are_never_cached() {
    let mut cache = Disk::new(DEFAULT_TTL);
    cache.put("ddg", "q", 8, vec![]);
    assert!(cache.get("ddg", "q", 8).is_none());
    assert!(cache.files.is_empty(), "an empty response must not create a file");
}

#[test]
fn corrupt_file_is_treated_as_a_miss() {
    let mut cache = Disk::new(DEFAULT_TTL);
    // A file that cannot be read gives no entry.
    assert!(cache.cache.serve(None, "ddg", "q", 8, cache.now).is_none());
    // And a later write still succeeds over the corrupt file.
    cache.put("ddg", "q", 8, vec![hit("https://a.example/")]);
    assert!(cache.get("ddg", "q", 8).is_some());
}

#[test]
fn default_cache_dir_prefers_xdg_then_home() {
    let dir = default_cache_dir(None, None, "/tmp");
    assert!(dir.ends_with("webscout/search"), "unexpected cache dir {dir}");
    assert_eq!(default_cache_dir(Some("/x"), Some("/home/u"), "/tmp"), "/x/webscout/search");
    assert_eq!(
        default_cache_dir(Some(""), Some("/home/u"), "/tmp"),
        "/home/u/.cache/webscout/search"
    );
    assert_eq!(default_cache_dir(None, None, "/tmp"), "/tmp/webscout/search");
}

#[test]
fn cache_key_is_stable_and_distinguishes_inputs() {
    assert_eq!(cache_key("ddg", "a b", 8), cache_key("ddg", " A  B ", 8));
    assert_ne!(cache_key("ddg", "a b", 8), cache_key("ddg", "a b", 9));
    assert_ne!(cache_key("ddg", "a b", 8), cache_key("jina", "a b", 8));
    assert_eq!(cache_key("ddg", "a b", 8).len(), 16);
}

#[test]
fn queries_are_known_by_their_words() {
    assert_eq!(normalize_query("  Who \t IS\nthere "), "who is there");
    assert_eq!(normalize_query("ÀÉ"), "àé");
}

#[test]
fn an_entry_says_why_it_does_not_answer() {
    let e = Entry::of_response("ddg", "Q", 8, &vec![hit("https://a.example/")], 100).unwrap();
    assert_eq!(e.lookup("ddg", "q", 8, 10, 110), Lookup::Hit);
    assert_eq!(e.lookup("ddg", "q", 8, 10, 111), Lookup::Expired);
    assert_eq!(e.lookup("ddg", "other", 8, 10, 110), Lookup::Collision);
    assert_eq!(age_secs(100, 90), 0, "a clock that went back makes nothing old");
}

#[test]
fn the_default_lifetime_is_six_hours() {
    assert_eq!(DEFAULT_TTL, 6 * 60 * 60);
    let c = SearchCache::discover(None, Some("/h"), "/tmp", DEFAULT_TTL);
    assert_eq!(c.dir(), "/h/.cache/webscout/search");
    assert_eq!(c.ttl(), DEFAULT_TTL);
}

#[test]
fn keys_are_sixteen_hexadecimal_digits() {
    for (lane, query, limit) in [("ddg", "a b", 8), ("jina", "", 0), ("tavily", "Zürich", 100)] {
        let key = cache_key(lane, query, limit);
        assert_eq!(key.len(), 16);
        assert!(key.chars().all(|c| c.is_ascii_digit() || ('a'..='f').contains(&c)));
    }
    assert_ne!(cache_key("ddg", "a b", 10), cache_key("ddg", "a b", 19));
}

#[test]
fn a_normalised_query_is_normal() {
    for q in ["", "  A  b ", "Go\tRELEASE \n notes"] {
        let n = normalize_query(q);
        assert_eq!(normalize_query(&n), n);
    }
    assert_eq!(normalize_query("  A  b "), normalize_query("a B"));
}
