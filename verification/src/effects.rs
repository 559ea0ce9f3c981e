//! What each option of a request does to a run: it changes the setting it names, and
//! nothing else.
use vstd::prelude::*;
use crate::config::{SearchEngines, Tunables};
use crate::llm::thinking_named;
use crate::options::{
    advanced_specs, applied_from, base_preset, basic_specs, engines_named, folded, given,
    index_of_options, indexed, indexed_with, is_choice, not_offered, number_max, number_min,
    offered, wanted_count, wanted_number, whole_max, whole_min, with_count, with_option, with_share,
    with_switch, Preset, RunOptionsView, SettingView, SpecView, ValueView, ONE,
};
use crate::order::text_le;
use crate::output::{format_named, Format};
use crate::scan::blank;
use crate::types::Real;

verus! {

// ---------------------------------------------------------------- catalogue --

/// What tells the names of the catalogue apart: the length and the fifth letter.
spec fn mark(name: Seq<char>) -> int {
    name.len() * 1000 + name[4] as int
}

/// Where the catalogue lists the option with this mark.
spec fn listed_at(m: int) -> int {
    if m == 6101 {
        0
    } else if m == 10114 {
        1
    } else if m == 6097 {
        2
    } else if m == 14099 {
        3
    } else if m == 17105 {
        4
    } else if m == 17108 {
        5
    } else if m == 14095 {
        6
    } else if m == 17098 {
        7
    } else if m == 17104 {
        8
    } else if m == 11117 {
        9
    } else if m == 25113 {
        10
    } else if m == 15110 {
        11
    } else if m == 16116 {
        12
    } else if m == 11109 {
        13
    } else if m == 14101 {
        14
    } else if m == 16121 {
        15
    } else if m == 12111 {
        16
    } else if m == 17099 {
        17
    } else if m == 12099 {
        18
    } else if m == 11099 {
        19
    } else if m == 19102 {
        20
    } else if m == 7108 {
        21
    } else if m == 9110 {
        22
    } else if m == 9111 {
        23
    } else if m == 7117 {
        24
    } else if m == 15101 {
        25
    } else if m == 16099 {
        26
    } else if m == 9109 {
        27
    } else if m == 13110 {
        28
    } else if m == 16107 {
        29
    } else if m == 24110 {
        30
    } else {
        -1
    }
}

proof fn lemma_marks()
    ensures
        mark("preset"@) == 6101 && "preset"@.len() > 0,
        mark("max_rounds"@) == 10114 && "max_rounds"@.len() > 0,
        mark("format"@) == 6097 && "format"@.len() > 0,
        mark("search_engines"@) == 14099 && "search_engines"@.len() > 0,
        mark("queries_per_round"@) == 17105 && "queries_per_round"@.len() > 0,
        mark("results_per_query"@) == 17108 && "results_per_query"@.len() > 0,
        mark("read_per_query"@) == 14095 && "read_per_query"@.len() > 0,
        mark("max_barren_rounds"@) == 17098 && "max_barren_rounds"@.len() > 0,
        mark("fetch_concurrency"@) == 17104 && "fetch_concurrency"@.len() > 0,
        mark("concurrency"@) == 11117 && "concurrency"@.len() > 0,
        mark("max_questions_per_request"@) == 25113 && "max_questions_per_request"@.len() > 0,
        mark("grounding_floor"@) == 15110 && "grounding_floor"@.len() > 0,
        mark("constraint_floor"@) == 16116 && "constraint_floor"@.len() > 0,
        mark("claim_floor"@) == 11109 && "claim_floor"@.len() > 0,
        mark("currency_floor"@) == 14101 && "currency_floor"@.len() > 0,
        mark("query_gate_floor"@) == 16121 && "query_gate_floor"@.len() > 0,
        mark("follow_floor"@) == 12111 && "follow_floor"@.len() > 0,
        mark("select_confidence"@) == 17099 && "select_confidence"@.len() > 0,
        mark("enrich_batch"@) == 12099 && "enrich_batch"@.len() > 0,
        mark("enrich_read"@) == 11099 && "enrich_read"@.len() > 0,
        mark("max_follow_per_page"@) == 19102 && "max_follow_per_page"@.len() > 0,
        mark("no_plan"@) == 7108 && "no_plan"@.len() > 0,
        mark("no_enrich"@) == 9110 && "no_enrich"@.len() > 0,
        mark("no_follow"@) == 9111 && "no_follow"@.len() > 0,
        mark("no_auto"@) == 7117 && "no_auto"@.len() > 0,
        mark("no_search_cache"@) == 15101 && "no_search_cache"@.len() > 0,
        mark("search_cache_ttl"@) == 16099 && "search_cache_ttl"@.len() > 0,
        mark("llm_model"@) == 9109 && "llm_model"@.len() > 0,
        mark("planner_model"@) == 13110 && "planner_model"@.len() > 0,
        mark("thinking_control"@) == 16107 && "thinking_control"@.len() > 0,
        mark("planner_thinking_control"@) == 24110 && "planner_thinking_control"@.len() > 0,
{
    reveal_strlit("preset");
    reveal_strlit("max_rounds");
    reveal_strlit("format");
    reveal_strlit("search_engines");
    reveal_strlit("queries_per_round");
    reveal_strlit("results_per_query");
    reveal_strlit("read_per_query");
    reveal_strlit("max_barren_rounds");
    reveal_strlit("fetch_concurrency");
    reveal_strlit("concurrency");
    reveal_strlit("max_questions_per_request");
    reveal_strlit("grounding_floor");
    reveal_strlit("constraint_floor");
    reveal_strlit("claim_floor");
    reveal_strlit("currency_floor");
    reveal_strlit("query_gate_floor");
    reveal_strlit("follow_floor");
    reveal_strlit("select_confidence");
    reveal_strlit("enrich_batch");
    reveal_strlit("enrich_read");
    reveal_strlit("max_follow_per_page");
    reveal_strlit("no_plan");
    reveal_strlit("no_enrich");
    reveal_strlit("no_follow");
    reveal_strlit("no_auto");
    reveal_strlit("no_search_cache");
    reveal_strlit("search_cache_ttl");
    reveal_strlit("llm_model");
    reveal_strlit("planner_model");
    reveal_strlit("thinking_control");
    reveal_strlit("planner_thinking_control");
}

/// Every option of the catalogue.
#[verifier::opaque]
pub open spec fn all_specs(fetch: usize) -> Seq<SpecView> {
    basic_specs() + advanced_specs(fetch)
}

pub open spec fn distinct_names(specs: Seq<SpecView>) -> bool {
    forall|i: int, j: int|
        0 <= i < j < specs.len() ==> (#[trigger] specs[i]).name != (#[trigger] specs[j]).name
}

/// The name of the `k`-th option, and its range where it takes a count; a share has the
/// range from 0 to -2, and an option of another kind that from 0 to -1.
#[verifier::opaque]
spec fn entry(k: int) -> (Seq<char>, int, int) {
    if k == 0 {
        ("preset"@, 0, -1)
    } else if k == 1 {
        ("max_rounds"@, 1, 200)
    } else if k == 2 {
        ("format"@, 0, -1)
    } else if k == 3 {
        ("search_engines"@, 0, -1)
    } else if k == 4 {
        ("queries_per_round"@, 1, 50)
    } else if k == 5 {
        ("results_per_query"@, 1, 100)
    } else if k == 6 {
        ("read_per_query"@, 1, 50)
    } else if k == 7 {
        ("max_barren_rounds"@, 1, 20)
    } else if k == 8 {
        ("fetch_concurrency"@, 1, 64)
    } else if k == 9 {
        ("concurrency"@, 1, 64)
    } else if k == 10 {
        ("max_questions_per_request"@, 1, 512)
    } else if k == 11 {
        ("grounding_floor"@, 0, -2)
    } else if k == 12 {
        ("constraint_floor"@, 0, -2)
    } else if k == 13 {
        ("claim_floor"@, 0, -2)
    } else if k == 14 {
        ("currency_floor"@, 0, -2)
    } else if k == 15 {
        ("query_gate_floor"@, 0, -2)
    } else if k == 16 {
        ("follow_floor"@, 0, -2)
    } else if k == 17 {
        ("select_confidence"@, 0, -2)
    } else if k == 18 {
        ("enrich_batch"@, 1, 500)
    } else if k == 19 {
        ("enrich_read"@, 1, 20)
    } else if k == 20 {
        ("max_follow_per_page"@, 0, 100)
    } else if k == 21 {
        ("no_plan"@, 0, -1)
    } else if k == 22 {
        ("no_enrich"@, 0, -1)
    } else if k == 23 {
        ("no_follow"@, 0, -1)
    } else if k == 24 {
        ("no_auto"@, 0, -1)
    } else if k == 25 {
        ("no_search_cache"@, 0, -1)
    } else if k == 26 {
        ("search_cache_ttl"@, 0, 604800)
    } else if k == 27 {
        ("llm_model"@, 0, -1)
    } else if k == 28 {
        ("planner_model"@, 0, -1)
    } else if k == 29 {
        ("thinking_control"@, 0, -1)
    } else if k == 30 {
        ("planner_thinking_control"@, 0, -1)
    } else {
        (Seq::empty(), 0, -1)
    }
}

/// A description has this name and range.
spec fn fits_entry(s: SpecView, e: (Seq<char>, int, int)) -> bool {
    &&& s.name == e.0
    &&& e.1 <= e.2 ==> whole_min(s) == e.1 && whole_max(s) == e.2
    &&& e.2 == -2 ==> number_min(s).0 == Real { bits: 0 } && number_max(s).0 == Real { bits: ONE }
}

proof fn lemma_basic(k: int)
    requires
        0 <= k < 4,
    ensures
        fits_entry(basic_specs()[k], entry(k)),
{
    reveal(entry);
    let b = basic_specs();
    if k == 0 {
        assert(b[0].name == "preset"@);
    } else if k == 1 {
        assert(b[1].name == "max_rounds"@);
    } else if k == 2 {
        assert(b[2].name == "format"@);
    } else if k == 3 {
        assert(b[3].name == "search_engines"@);
    }
}

proof fn lemma_advanced(fetch: usize, k: int)
    requires
        4 <= k < 31,
    ensures
        fits_entry(advanced_specs(fetch)[k - 4], entry(k)),
{
    reveal(entry);
    let a = advanced_specs(fetch);
    if k == 4 {
        assert(a[0].name == "queries_per_round"@);
    } else if k == 5 {
        assert(a[1].name == "results_per_query"@);
    } else if k == 6 {
        assert(a[2].name == "read_per_query"@);
    } else if k == 7 {
        assert(a[3].name == "max_barren_rounds"@);
    } else if k == 8 {
        assert(a[4].name == "fetch_concurrency"@);
    } else if k == 9 {
        assert(a[5].name == "concurrency"@);
    } else if k == 10 {
        assert(a[6].name == "max_questions_per_request"@);
    } else if k == 11 {
        assert(a[7].name == "grounding_floor"@);
    } else if k == 12 {
        assert(a[8].name == "constraint_floor"@);
    } else if k == 13 {
        assert(a[9].name == "claim_floor"@);
    } else if k == 14 {
        assert(a[10].name == "currency_floor"@);
    } else if k == 15 {
        assert(a[11].name == "query_gate_floor"@);
    } else if k == 16 {
        assert(a[12].name == "follow_floor"@);
    } else if k == 17 {
        assert(a[13].name == "select_confidence"@);
    } else if k == 18 {
        assert(a[14].name == "enrich_batch"@);
    } else if k == 19 {
        assert(a[15].name == "enrich_read"@);
    } else if k == 20 {
        assert(a[16].name == "max_follow_per_page"@);
    } else if k == 21 {
        assert(a[17].name == "no_plan"@);
    } else if k == 22 {
        assert(a[18].name == "no_enrich"@);
    } else if k == 23 {
        assert(a[19].name == "no_follow"@);
    } else if k == 24 {
        assert(a[20].name == "no_auto"@);
    } else if k == 25 {
        assert(a[21].name == "no_search_cache"@);
    } else if k == 26 {
        assert(a[22].name == "search_cache_ttl"@);
    } else if k == 27 {
        assert(a[23].name == "llm_model"@);
    } else if k == 28 {
        assert(a[24].name == "planner_model"@);
    } else if k == 29 {
        assert(a[25].name == "thinking_control"@);
    } else if k == 30 {
        assert(a[26].name == "planner_thinking_control"@);
    }
}

proof fn lemma_listing(fetch: usize, k: int)
    requires
        0 <= k < 31,
    ensures
        all_specs(fetch).len() == 31,
        fits_entry(all_specs(fetch)[k], entry(k)),
{
    let b = basic_specs();
    let a = advanced_specs(fetch);
    lemma_sizes(fetch);
    assert(all_specs(fetch) == b + a) by {
        reveal(all_specs);
    }
    if k < 4 {
        lemma_basic(k);
        assert((b + a)[k] == b[k]);
    } else {
        lemma_advanced(fetch, k);
        assert((b + a)[k] == a[k - 4]);
    }
}

proof fn lemma_sizes(fetch: usize)
    ensures
        basic_specs().len() == 4,
        advanced_specs(fetch).len() == 27,
{
}

proof fn lemma_entry_marks(k: int)
    requires
        0 <= k < 31,
    ensures
        listed_at(mark(entry(k).0)) == k,
        entry(k).0.len() > 0,
{
    reveal(entry);
    lemma_marks();
}

proof fn lemma_catalogue_names(fetch: usize)
    ensures
        all_specs(fetch).len() == 31,
        distinct_names(all_specs(fetch)),
        forall|i: int| 0 <= i < 31 ==> (#[trigger] all_specs(fetch)[i]).name.len() > 0,
{
    let s = all_specs(fetch);
    lemma_listing(fetch, 0);
    assert forall|i: int| 0 <= i < s.len() implies listed_at(mark((#[trigger] s[i]).name)) == i
        && s[i].name.len() > 0 by {
        lemma_listing(fetch, i);
        lemma_entry_marks(i);
    }
    assert forall|i: int, j: int| 0 <= i < j < s.len() implies (#[trigger] s[i]).name != (
    #[trigger] s[j]).name by {
        assert(listed_at(mark(s[i].name)) == i);
        assert(listed_at(mark(s[j].name)) == j);
    }
}

proof fn lemma_indexed_with(s: Seq<SpecView>, o: SpecView)
    requires
        distinct_names(s),
        forall|i: int| 0 <= i < s.len() ==> (#[trigger] s[i]).name != o.name,
    ensures
        distinct_names(indexed_with(s, o)),
        forall|x: SpecView| #[trigger]
            indexed_with(s, o).contains(x) <==> s.contains(x) || x == o,
    decreases s.len(),
{
    let r = indexed_with(s, o);
    if s.len() == 0 {
        assert(r[0] == o);
        assert forall|x: SpecView| #[trigger] r.contains(x) implies s.contains(x) || x == o by {
            let i = r.index_of(x);
            assert(i == 0);
        }
    } else if text_le(o.name, s[0].name) {
        assert(r =~= seq![o] + s);
        assert(r[0] == o);
        assert forall|x: SpecView| #[trigger] r.contains(x) <==> s.contains(x) || x == o by {
            if r.contains(x) {
                let i = r.index_of(x);
                if i > 0 {
                    assert(s[i - 1] == x);
                }
            }
            if s.contains(x) {
                let i = s.index_of(x);
                assert(r[i + 1] == x);
            }
        }
    } else {
        let t = s.drop_first();
        lemma_indexed_with(t, o);
        let q = indexed_with(t, o);
        assert(r =~= seq![s[0]] + q);
        assert forall|x: SpecView| #[trigger] r.contains(x) <==> s.contains(x) || x == o by {
            assert(q.contains(x) <==> t.contains(x) || x == o);
            if r.contains(x) {
                let i = r.index_of(x);
                if i > 0 {
                    assert(q[i - 1] == x);
                    if t.contains(x) {
                        let j = t.index_of(x);
                        assert(s[j + 1] == x);
                    }
                } else {
                    assert(s[0] == x);
                }
            }
            if s.contains(x) {
                let i = s.index_of(x);
                if i > 0 {
                    assert(t[i - 1] == x);
                } else {
                    assert(r[0] == x);
                }
            }
            if q.contains(x) {
                let i = q.index_of(x);
                assert(r[i + 1] == x);
            }
        }
        assert forall|i: int, j: int| 0 <= i < j < r.len() implies (#[trigger] r[i]).name != (
        #[trigger] r[j]).name by {
            assert(r[j] == q[j - 1]);
            assert(q.contains(q[j - 1]));
            if i > 0 {
                assert(r[i] == q[i - 1]);
            } else if t.contains(q[j - 1]) {
                let k = t.index_of(q[j - 1]);
                assert(s[k + 1] == r[j]);
            }
        }
    }
}

proof fn lemma_indexed(specs: Seq<SpecView>, n: int)
    requires
        0 <= n <= specs.len(),
        distinct_names(specs),
    ensures
        distinct_names(indexed(specs, n)),
        forall|x: SpecView| #[trigger]
            indexed(specs, n).contains(x) <==> specs.take(n).contains(x),
    decreases n,
{
    if n > 0 {
        lemma_indexed(specs, n - 1);
        let s = indexed(specs, n - 1);
        let o = specs[n - 1];
        assert forall|i: int| 0 <= i < s.len() implies (#[trigger] s[i]).name != o.name by {
            assert(s.contains(s[i]));
            let k = specs.take(n - 1).index_of(s[i]);
            assert(specs[k].name != specs[n - 1].name);
        }
        lemma_indexed_with(s, o);
        assert forall|x: SpecView| #[trigger]
            indexed(specs, n).contains(x) <==> specs.take(n).contains(x) by {
            assert(s.contains(x) <==> specs.take(n - 1).contains(x));
            assert(specs.take(n) =~= specs.take(n - 1).push(o));
            if specs.take(n).contains(x) {
                let k = specs.take(n).index_of(x);
                if k < n - 1 {
                    assert(specs.take(n - 1)[k] == x);
                }
            }
            if specs.take(n - 1).contains(x) {
                let k = specs.take(n - 1).index_of(x);
                assert(specs.take(n)[k] == x);
            }
            assert(specs.take(n)[n - 1] == o);
        }
    }
}

/// Every option is offered under its name, once, as the catalogue describes it, and nothing
/// else is offered.
pub proof fn law_every_option_is_offered_once(fetch: usize)
    ensures
        distinct_names(index_of_options(fetch)),
        forall|s: SpecView| #[trigger]
            index_of_options(fetch).contains(s) <==> basic_specs().contains(s) || advanced_specs(
                fetch,
            ).contains(s),
{
    let all = all_specs(fetch);
    lemma_catalogue_names(fetch);
    lemma_indexed(all, all.len() as int);
    assert(all.take(all.len() as int) =~= all);
    lemma_index(fetch);
    lemma_joined(fetch);
}

proof fn lemma_index(fetch: usize)
    ensures
        index_of_options(fetch) == indexed(all_specs(fetch), all_specs(fetch).len() as int),
{
    reveal(all_specs);
}

proof fn lemma_joined(fetch: usize)
    ensures
        forall|s: SpecView| #[trigger]
            all_specs(fetch).contains(s) <==> basic_specs().contains(s) || advanced_specs(
                fetch,
            ).contains(s),
{
    reveal(all_specs);
    let b = basic_specs();
    let a = advanced_specs(fetch);
    lemma_contains_joined(b, a);
}

proof fn lemma_contains_joined(b: Seq<SpecView>, a: Seq<SpecView>)
    ensures
        forall|s: SpecView| #[trigger] (b + a).contains(s) <==> b.contains(s) || a.contains(s),
{
    assert forall|s: SpecView| #[trigger] (b + a).contains(s) <==> b.contains(s) || a.contains(s) by {
        let all = b + a;
        if all.contains(s) {
            let i = all.index_of(s);
            if i < b.len() {
                assert(b[i] == s);
            } else {
                assert(a[i - b.len()] == s);
            }
        }
        if b.contains(s) {
            assert(all[b.index_of(s)] == s);
        }
        if a.contains(s) {
            assert(all[b.len() + a.index_of(s)] == s);
        }
    }
}

/// An index that has an option of each name of the catalogue, with its range, once.
#[verifier::opaque]
spec fn complete(index: Seq<SpecView>) -> bool {
    &&& distinct_names(index)
    &&& forall|i: int| 0 <= i < index.len() ==> (#[trigger] index[i]).name.len() > 0
    &&& forall|k: int| 0 <= k < 31 ==> has_entry(index, #[trigger] entry(k))
}

spec fn has_entry(index: Seq<SpecView>, e: (Seq<char>, int, int)) -> bool {
    exists|i: int| 0 <= i < index.len() && fits_entry(#[trigger] index[i], e)
}

proof fn lemma_complete(fetch: usize)
    ensures
        complete(index_of_options(fetch)),
{
    reveal(complete);
    let all = all_specs(fetch);
    let index = indexed(all, all.len() as int);
    lemma_catalogue_names(fetch);
    lemma_indexed(all, all.len() as int);
    assert(all.take(all.len() as int) =~= all);
    lemma_index(fetch);
    assert forall|i: int| 0 <= i < index.len() implies (#[trigger] index[i]).name.len() > 0 by {
        assert(index.contains(index[i]));
        let k = all.index_of(index[i]);
        assert(all[k].name.len() > 0);
    }
    assert forall|k: int| 0 <= k < 31 implies has_entry(index, #[trigger] entry(k)) by {
        lemma_listing(fetch, k);
        assert(all.contains(all[k]));
        assert(index.contains(all[k]));
        let i = index.index_of(all[k]);
        assert(index[i] == all[k]);
    }
}

// -------------------------------------------------------------------- steps --

/// The run with one option applied, or why it is refused.
#[verifier::opaque]
pub open spec fn stepped(o: RunOptionsView, s: SpecView, v: ValueView) -> Result<
    RunOptionsView,
    Seq<char>,
> {
    with_option(o, s, v)
}

/// The settings of two runs differ at most in the count of this name.
spec fn same_but_count(a: Tunables, b: Tunables, name: Seq<char>) -> bool {
    &&& name != "max_rounds"@ ==> a.max_rounds == b.max_rounds
    &&& name != "max_barren_rounds"@ ==> a.max_barren_rounds == b.max_barren_rounds
    &&& name != "queries_per_round"@ ==> a.queries_per_round == b.queries_per_round
    &&& name != "results_per_query"@ ==> a.results_per_query == b.results_per_query
    &&& name != "read_per_query"@ ==> a.read_per_query == b.read_per_query
    &&& name != "concurrency"@ ==> a.concurrency == b.concurrency
    &&& name != "max_questions_per_request"@ ==> a.max_questions_per_request == b.max_questions_per_request
    &&& name != "enrich_batch"@ ==> a.enrich_batch == b.enrich_batch
    &&& name != "enrich_read"@ ==> a.enrich_read == b.enrich_read
    &&& name != "max_follow_per_page"@ ==> a.max_follow_per_page == b.max_follow_per_page
    &&& b == (Tunables {
        max_rounds: b.max_rounds,
        max_barren_rounds: b.max_barren_rounds,
        queries_per_round: b.queries_per_round,
        results_per_query: b.results_per_query,
        read_per_query: b.read_per_query,
        concurrency: b.concurrency,
        max_questions_per_request: b.max_questions_per_request,
        enrich_batch: b.enrich_batch,
        enrich_read: b.enrich_read,
        max_follow_per_page: b.max_follow_per_page,
        ..a
    })
}

proof fn lemma_count_frame(t: Tunables, name: Seq<char>, n: usize)
    requires
        with_count(t, name, n) is Some,
    ensures
        same_but_count(t, with_count(t, name, n)->0, name),
{
}

/// The settings of two runs differ at most in the share of this name.
spec fn same_but_share(a: Tunables, b: Tunables, name: Seq<char>) -> bool {
    &&& name != "grounding_floor"@ ==> a.grounding_floor == b.grounding_floor
    &&& name != "constraint_floor"@ ==> a.constraint_floor == b.constraint_floor
    &&& name != "claim_floor"@ ==> a.claim_floor == b.claim_floor
    &&& name != "currency_floor"@ ==> a.currency_floor == b.currency_floor
    &&& name != "query_gate_floor"@ ==> a.query_gate_floor == b.query_gate_floor
    &&& name != "follow_floor"@ ==> a.follow_floor == b.follow_floor
    &&& name != "select_confidence"@ ==> a.select_confidence == b.select_confidence
    &&& b == (Tunables {
        grounding_floor: b.grounding_floor,
        constraint_floor: b.constraint_floor,
        claim_floor: b.claim_floor,
        currency_floor: b.currency_floor,
        query_gate_floor: b.query_gate_floor,
        follow_floor: b.follow_floor,
        select_confidence: b.select_confidence,
        ..a
    })
}

proof fn lemma_share_frame(t: Tunables, name: Seq<char>, x: Real)
    requires
        with_share(t, name, x) is Some,
    ensures
        same_but_share(t, with_share(t, name, x)->0, name),
{
}

/// An option changes nothing but what it names.
proof fn lemma_frame(o: RunOptionsView, s: SpecView, v: ValueView)
    requires
        stepped(o, s, v) is Ok,
    ensures
        ({
            let p = stepped(o, s, v)->Ok_0;
            &&& p.preset == o.preset
            &&& s.name != "max_rounds"@ ==> p.tune.max_rounds == o.tune.max_rounds
            &&& s.name != "max_barren_rounds"@ ==> p.tune.max_barren_rounds == o.tune.max_barren_rounds
            &&& s.name != "queries_per_round"@ ==> p.tune.queries_per_round == o.tune.queries_per_round
            &&& s.name != "results_per_query"@ ==> p.tune.results_per_query == o.tune.results_per_query
            &&& s.name != "read_per_query"@ ==> p.tune.read_per_query == o.tune.read_per_query
            &&& s.name != "concurrency"@ ==> p.tune.concurrency == o.tune.concurrency
            &&& s.name != "max_questions_per_request"@ ==> p.tune.max_questions_per_request == o.tune.max_questions_per_request
            &&& s.name != "enrich_batch"@ ==> p.tune.enrich_batch == o.tune.enrich_batch
            &&& s.name != "enrich_read"@ ==> p.tune.enrich_read == o.tune.enrich_read
            &&& s.name != "max_follow_per_page"@ ==> p.tune.max_follow_per_page == o.tune.max_follow_per_page
            &&& s.name != "search_cache_ttl"@ ==> p.tune.search_cache_ttl == o.tune.search_cache_ttl
            &&& s.name != "grounding_floor"@ ==> p.tune.grounding_floor == o.tune.grounding_floor
            &&& s.name != "constraint_floor"@ ==> p.tune.constraint_floor == o.tune.constraint_floor
            &&& s.name != "claim_floor"@ ==> p.tune.claim_floor == o.tune.claim_floor
            &&& s.name != "currency_floor"@ ==> p.tune.currency_floor == o.tune.currency_floor
            &&& s.name != "query_gate_floor"@ ==> p.tune.query_gate_floor == o.tune.query_gate_floor
            &&& s.name != "follow_floor"@ ==> p.tune.follow_floor == o.tune.follow_floor
            &&& s.name != "select_confidence"@ ==> p.tune.select_confidence == o.tune.select_confidence
            &&& s.name != "no_plan"@ ==> p.tune.research_plan == o.tune.research_plan
            &&& s.name != "no_search_cache"@ ==> p.tune.search_cache == o.tune.search_cache
            &&& s.name != "no_follow"@ ==> p.follow == o.follow
            &&& s.name != "no_enrich"@ ==> p.enrich == o.enrich
            &&& s.name != "no_auto"@ ==> p.auto == o.auto
            &&& s.name != "fetch_concurrency"@ ==> p.fetch_concurrency == o.fetch_concurrency
            &&& s.name != "format"@ ==> p.format == o.format
            &&& s.name != "search_engines"@ ==> p.engines == o.engines
            &&& s.name != "thinking_control"@ ==> p.thinking_control == o.thinking_control
            &&& s.name != "planner_thinking_control"@ ==> p.planner_thinking_control == o.planner_thinking_control
            &&& s.name != "llm_model"@ ==> p.llm_model == o.llm_model
            &&& s.name != "planner_model"@ ==> p.planner_model == o.planner_model
        }),
{
    reveal(stepped);
    let name = s.name;
    if name == "preset"@ {
    } else if is_choice(name) {
    } else if with_count(o.tune, name, 0) is Some {
        let n = wanted_count(s, v)->Ok_0 as usize;
        lemma_count_frame(o.tune, name, n);
    } else if name == "fetch_concurrency"@ {
    } else if name == "search_cache_ttl"@ {
    } else if with_share(o.tune, name, Real { bits: 0 }) is Some {
        lemma_share_frame(o.tune, name, wanted_number(s, v)->Ok_0);
    } else if with_switch(o, name, false) is Some {
    } else if name == "llm_model"@ {
    } else if name == "planner_model"@ {
    }
}

/// The value is a count in the option's range, and this one; a setting holds no more than
/// the machine's word.
spec fn counts(v: ValueView, s: SpecView, count: int) -> bool {
    match v.whole {
        Some(n) => whole_min(s) <= n <= whole_max(s) && (n <= 0xFFFF_FFFF ==> count == n),
        None => false,
    }
}

/// The value is a number in the option's range, and this one.
spec fn weighs(v: ValueView, s: SpecView, share: Real) -> bool {
    match v.number {
        Some((x, _)) => share == x && number_min(s).0.rank() <= x.rank() <= number_max(s).0.rank(),
        None => false,
    }
}

proof fn lemma_does_max_rounds(o: RunOptionsView, s: SpecView, v: ValueView)
    requires
        stepped(o, s, v) is Ok,
        s.name == "max_rounds"@,
    ensures
        counts(v, s, stepped(o, s, v)->Ok_0.tune.max_rounds as int),
{
    lemma_marks();
    reveal(stepped);
}

proof fn lemma_does_max_barren_rounds(o: RunOptionsView, s: SpecView, v: ValueView)
    requires
        stepped(o, s, v) is Ok,
        s.name == "max_barren_rounds"@,
    ensures
        counts(v, s, stepped(o, s, v)->Ok_0.tune.max_barren_rounds as int),
{
    lemma_marks();
    reveal(stepped);
}

proof fn lemma_does_queries_per_round(o: RunOptionsView, s: SpecView, v: ValueView)
    requires
        stepped(o, s, v) is Ok,
        s.name == "queries_per_round"@,
    ensures
        counts(v, s, stepped(o, s, v)->Ok_0.tune.queries_per_round as int),
{
    lemma_marks();
    reveal(stepped);
}

proof fn lemma_does_results_per_query(o: RunOptionsView, s: SpecView, v: ValueView)
    requires
        stepped(o, s, v) is Ok,
        s.name == "results_per_query"@,
    ensures
        counts(v, s, stepped(o, s, v)->Ok_0.tune.results_per_query as int),
{
    lemma_marks();
    reveal(stepped);
}

proof fn lemma_does_read_per_query(o: RunOptionsView, s: SpecView, v: ValueView)
    requires
        stepped(o, s, v) is Ok,
        s.name == "read_per_query"@,
    ensures
        counts(v, s, stepped(o, s, v)->Ok_0.tune.read_per_query as int),
{
    lemma_marks();
    reveal(stepped);
}

proof fn lemma_does_concurrency(o: RunOptionsView, s: SpecView, v: ValueView)
    requires
        stepped(o, s, v) is Ok,
        s.name == "concurrency"@,
    ensures
        counts(v, s, stepped(o, s, v)->Ok_0.tune.concurrency as int),
{
    lemma_marks();
    reveal(stepped);
}

proof fn lemma_does_max_questions_per_request(o: RunOptionsView, s: SpecView, v: ValueView)
    requires
        stepped(o, s, v) is Ok,
        s.name == "max_questions_per_request"@,
    ensures
        counts(v, s, stepped(o, s, v)->Ok_0.tune.max_questions_per_request as int),
{
    lemma_marks();
    reveal(stepped);
}

proof fn lemma_does_enrich_batch(o: RunOptionsView, s: SpecView, v: ValueView)
    requires
        stepped(o, s, v) is Ok,
        s.name == "enrich_batch"@,
    ensures
        counts(v, s, stepped(o, s, v)->Ok_0.tune.enrich_batch as int),
{
    lemma_marks();
    reveal(stepped);
}

proof fn lemma_does_enrich_read(o: RunOptionsView, s: SpecView, v: ValueView)
    requires
        stepped(o, s, v) is Ok,
        s.name == "enrich_read"@,
    ensures
        counts(v, s, stepped(o, s, v)->Ok_0.tune.enrich_read as int),
{
    lemma_marks();
    reveal(stepped);
}

proof fn lemma_does_max_follow_per_page(o: RunOptionsView, s: SpecView, v: ValueView)
    requires
        stepped(o, s, v) is Ok,
        s.name == "max_follow_per_page"@,
    ensures
        counts(v, s, stepped(o, s, v)->Ok_0.tune.max_follow_per_page as int),
{
    lemma_marks();
    reveal(stepped);
}

proof fn lemma_does_search_cache_ttl(o: RunOptionsView, s: SpecView, v: ValueView)
    requires
        stepped(o, s, v) is Ok,
        s.name == "search_cache_ttl"@,
    ensures
        counts(v, s, stepped(o, s, v)->Ok_0.tune.search_cache_ttl as int),
{
    lemma_marks();
    reveal(stepped);
}

proof fn lemma_does_fetch_concurrency(o: RunOptionsView, s: SpecView, v: ValueView)
    requires
        stepped(o, s, v) is Ok,
        s.name == "fetch_concurrency"@,
    ensures
        stepped(o, s, v)->Ok_0.fetch_concurrency matches Some(m) && counts(v, s, m as int),
{
    lemma_marks();
    reveal(stepped);
}

proof fn lemma_does_grounding_floor(o: RunOptionsView, s: SpecView, v: ValueView)
    requires
        stepped(o, s, v) is Ok,
        s.name == "grounding_floor"@,
    ensures
        weighs(v, s, stepped(o, s, v)->Ok_0.tune.grounding_floor),
{
    lemma_marks();
    reveal(stepped);
}

proof fn lemma_does_constraint_floor(o: RunOptionsView, s: SpecView, v: ValueView)
    requires
        stepped(o, s, v) is Ok,
        s.name == "constraint_floor"@,
    ensures
        weighs(v, s, stepped(o, s, v)->Ok_0.tune.constraint_floor),
{
    lemma_marks();
    reveal(stepped);
}

proof fn lemma_does_claim_floor(o: RunOptionsView, s: SpecView, v: ValueView)
    requires
        stepped(o, s, v) is Ok,
        s.name == "claim_floor"@,
    ensures
        weighs(v, s, stepped(o, s, v)->Ok_0.tune.claim_floor),
{
    lemma_marks();
    reveal(stepped);
}

proof fn lemma_does_currency_floor(o: RunOptionsView, s: SpecView, v: ValueView)
    requires
        stepped(o, s, v) is Ok,
        s.name == "currency_floor"@,
    ensures
        weighs(v, s, stepped(o, s, v)->Ok_0.tune.currency_floor),
{
    lemma_marks();
    reveal(stepped);
}

proof fn lemma_does_query_gate_floor(o: RunOptionsView, s: SpecView, v: ValueView)
    requires
        stepped(o, s, v) is Ok,
        s.name == "query_gate_floor"@,
    ensures
        weighs(v, s, stepped(o, s, v)->Ok_0.tune.query_gate_floor),
{
    lemma_marks();
    reveal(stepped);
}

proof fn lemma_does_follow_floor(o: RunOptionsView, s: SpecView, v: ValueView)
    requires
        stepped(o, s, v) is Ok,
        s.name == "follow_floor"@,
    ensures
        weighs(v, s, stepped(o, s, v)->Ok_0.tune.follow_floor),
{
    lemma_marks();
    reveal(stepped);
}

proof fn lemma_does_select_confidence(o: RunOptionsView, s: SpecView, v: ValueView)
    requires
        stepped(o, s, v) is Ok,
        s.name == "select_confidence"@,
    ensures
        weighs(v, s, stepped(o, s, v)->Ok_0.tune.select_confidence),
{
    lemma_marks();
    reveal(stepped);
}

proof fn lemma_does_no_plan(o: RunOptionsView, s: SpecView, v: ValueView)
    requires
        stepped(o, s, v) is Ok,
        s.name == "no_plan"@,
    ensures
        v.flag == Some(!stepped(o, s, v)->Ok_0.tune.research_plan),
{
    lemma_marks();
    reveal(stepped);
}

proof fn lemma_does_no_search_cache(o: RunOptionsView, s: SpecView, v: ValueView)
    requires
        stepped(o, s, v) is Ok,
        s.name == "no_search_cache"@,
    ensures
        v.flag == Some(!stepped(o, s, v)->Ok_0.tune.search_cache),
{
    lemma_marks();
    reveal(stepped);
}

proof fn lemma_does_no_follow(o: RunOptionsView, s: SpecView, v: ValueView)
    requires
        stepped(o, s, v) is Ok,
        s.name == "no_follow"@,
    ensures
        v.flag == Some(!stepped(o, s, v)->Ok_0.follow),
{
    lemma_marks();
    reveal(stepped);
}

proof fn lemma_does_no_enrich(o: RunOptionsView, s: SpecView, v: ValueView)
    requires
        stepped(o, s, v) is Ok,
        s.name == "no_enrich"@,
    ensures
        v.flag == Some(!stepped(o, s, v)->Ok_0.enrich),
{
    lemma_marks();
    reveal(stepped);
}

proof fn lemma_does_no_auto(o: RunOptionsView, s: SpecView, v: ValueView)
    requires
        stepped(o, s, v) is Ok,
        s.name == "no_auto"@,
    ensures
        v.flag == Some(!stepped(o, s, v)->Ok_0.auto),
{
    lemma_marks();
    reveal(stepped);
}

proof fn lemma_does_llm_model(o: RunOptionsView, s: SpecView, v: ValueView)
    requires
        stepped(o, s, v) is Ok,
        s.name == "llm_model"@,
    ensures
        v.text matches Some(t) && stepped(o, s, v)->Ok_0.llm_model == (if blank(t) {
            None
        } else {
            Some(t)
        }),
{
    lemma_marks();
    reveal(stepped);
}

proof fn lemma_does_planner_model(o: RunOptionsView, s: SpecView, v: ValueView)
    requires
        stepped(o, s, v) is Ok,
        s.name == "planner_model"@,
    ensures
        v.text matches Some(t) && stepped(o, s, v)->Ok_0.planner_model == (if blank(t) {
            None
        } else {
            Some(t)
        }),
{
    lemma_marks();
    reveal(stepped);
}

proof fn lemma_does_format(o: RunOptionsView, s: SpecView, v: ValueView)
    requires
        stepped(o, s, v) is Ok,
        s.name == "format"@,
    ensures
        v.text matches Some(t) && format_named(t) == Some(stepped(o, s, v)->Ok_0.format),
{
    lemma_marks();
    reveal(stepped);
}

proof fn lemma_does_engines(o: RunOptionsView, s: SpecView, v: ValueView)
    requires
        stepped(o, s, v) is Ok,
        s.name == "search_engines"@,
    ensures
        v.text matches Some(t) && engines_named(t) == Some(stepped(o, s, v)->Ok_0.engines),
{
    lemma_marks();
    reveal(stepped);
}

proof fn lemma_does_thinking_control(o: RunOptionsView, s: SpecView, v: ValueView)
    requires
        stepped(o, s, v) is Ok,
        s.name == "thinking_control"@,
    ensures
        v.text matches Some(t) && thinking_named(t) == stepped(o, s, v)->Ok_0.thinking_control && stepped(
            o,
            s,
            v,
        )->Ok_0.thinking_control is Some,
{
    lemma_marks();
    reveal(stepped);
}

proof fn lemma_does_planner_thinking_control(o: RunOptionsView, s: SpecView, v: ValueView)
    requires
        stepped(o, s, v) is Ok,
        s.name == "planner_thinking_control"@,
    ensures
        v.text matches Some(t) && thinking_named(t) == stepped(o, s, v)->Ok_0.planner_thinking_control && stepped(
            o,
            s,
            v,
        )->Ok_0.planner_thinking_control is Some,
{
    lemma_marks();
    reveal(stepped);
}

// ------------------------------------------------------------------ effects --

/// The run with every option of the request applied.
#[verifier::opaque]
pub open spec fn outcome(
    index: Seq<SpecView>,
    opts: Seq<(Seq<char>, ValueView)>,
    o: RunOptionsView,
    i: int,
) -> Result<RunOptionsView, Seq<char>> {
    applied_from(index, opts, o, i)
}

proof fn lemma_outcome(
    index: Seq<SpecView>,
    opts: Seq<(Seq<char>, ValueView)>,
    o: RunOptionsView,
    i: int,
)
    requires
        0 <= i <= index.len(),
    ensures
        i == index.len() ==> outcome(index, opts, o, i) == Ok::<RunOptionsView, Seq<char>>(o),
        i < index.len() ==> outcome(index, opts, o, i) == (match given(opts, index[i].name, 0) {
            None => outcome(index, opts, o, i + 1),
            Some(v) => match stepped(o, index[i], v) {
                Ok(p) => outcome(index, opts, p, i + 1),
                Err(e) => Err(e),
            },
        }),
{
    reveal(outcome);
    reveal(stepped);
}

/// Nothing but the option of this name changes that part of a run.
spec fn only_by<A>(name: Seq<char>, part: spec_fn(RunOptionsView) -> A) -> bool {
    forall|o: RunOptionsView, s: SpecView, v: ValueView|
        s.name != name && #[trigger] stepped(o, s, v) is Ok ==> part(stepped(o, s, v)->Ok_0)
            == part(o)
}

proof fn lemma_untouched<A>(
    index: Seq<SpecView>,
    opts: Seq<(Seq<char>, ValueView)>,
    o: RunOptionsView,
    i: int,
    name: Seq<char>,
    part: spec_fn(RunOptionsView) -> A,
)
    requires
        0 <= i <= index.len(),
        outcome(index, opts, o, i) is Ok,
        only_by(name, part),
        given(opts, name, 0) is None || forall|k: int|
            i <= k < index.len() ==> (#[trigger] index[k]).name != name,
    ensures
        part(outcome(index, opts, o, i)->Ok_0) == part(o),
    decreases index.len() - i,
{
    lemma_outcome(index, opts, o, i);
    if i < index.len() {
        match given(opts, index[i].name, 0) {
            None => {
                lemma_untouched(index, opts, o, i + 1, name, part);
            },
            Some(v) => {
                let p = stepped(o, index[i], v)->Ok_0;
                assert(stepped(o, index[i], v) is Ok);
                lemma_untouched(index, opts, p, i + 1, name, part);
            },
        }
    }
}

/// Where a request gives an option, the part of the run that only this option changes is
/// as the option leaves it.
proof fn lemma_touched<A>(
    index: Seq<SpecView>,
    opts: Seq<(Seq<char>, ValueView)>,
    o: RunOptionsView,
    i: int,
    at: int,
    part: spec_fn(RunOptionsView) -> A,
) -> (before: RunOptionsView)
    requires
        0 <= i <= at < index.len(),
        distinct_names(index),
        outcome(index, opts, o, i) is Ok,
        only_by(index[at].name, part),
        given(opts, index[at].name, 0) is Some,
    ensures
        stepped(before, index[at], given(opts, index[at].name, 0)->0) is Ok,
        part(outcome(index, opts, o, i)->Ok_0) == part(
            stepped(before, index[at], given(opts, index[at].name, 0)->0)->Ok_0,
        ),
    decreases index.len() - i,
{
    lemma_outcome(index, opts, o, i);
    if i == at {
        let p = stepped(o, index[i], given(opts, index[i].name, 0)->0)->Ok_0;
        assert forall|k: int| i + 1 <= k < index.len() implies (#[trigger] index[k]).name
            != index[at].name by {
            assert(index[at].name != index[k].name);
        }
        lemma_untouched(index, opts, p, i + 1, index[at].name, part);
        o
    } else {
        match given(opts, index[i].name, 0) {
            None => lemma_touched(index, opts, o, i + 1, at, part),
            Some(v) => lemma_touched(
                index,
                opts,
                stepped(o, index[i], v)->Ok_0,
                i + 1,
                at,
                part,
            ),
        }
    }
}

/// What a request leaves of one part of a run: what was there where the request does not
/// give the option, and else what the option makes of it.
proof fn lemma_part<A>(
    index: Seq<SpecView>,
    opts: Seq<(Seq<char>, ValueView)>,
    base: RunOptionsView,
    k: int,
    name: Seq<char>,
    part: spec_fn(RunOptionsView) -> A,
) -> (r: (RunOptionsView, SpecView))
    requires
        complete(index),
        outcome(index, opts, base, 0) is Ok,
        0 <= k < 31,
        entry(k).0 == name,
        only_by(name, part),
    ensures
        fits_entry(r.1, entry(k)),
        match given(opts, name, 0) {
            None => part(outcome(index, opts, base, 0)->Ok_0) == part(base),
            Some(v) => stepped(r.0, r.1, v) is Ok && part(outcome(index, opts, base, 0)->Ok_0)
                == part(stepped(r.0, r.1, v)->Ok_0),
        },
{
    reveal(complete);
    assert(has_entry(index, entry(k)));
    let i = choose|i: int| 0 <= i < index.len() && fits_entry(#[trigger] index[i], entry(k));
    if given(opts, name, 0) is None {
        lemma_untouched(index, opts, base, 0, name, part);
        (base, index[i])
    } else {
        (lemma_touched(index, opts, base, 0, i, part), index[i])
    }
}

/// A count is the preset's unless the request gives it, and else the given number, which
/// lies between `low` and `high`.
pub open spec fn count_follows(
    opts: Seq<(Seq<char>, ValueView)>,
    name: Seq<char>,
    low: int,
    high: int,
    preset: int,
    count: int,
) -> bool {
    match given(opts, name, 0) {
        None => count == preset,
        Some(v) => match v.whole {
            Some(n) => low <= n <= high && count == n,
            None => false,
        },
    }
}

/// A share is the preset's unless the request gives it, and else the given number, which
/// lies between 0 and 1.
pub open spec fn share_follows(
    opts: Seq<(Seq<char>, ValueView)>,
    name: Seq<char>,
    preset: Real,
    share: Real,
) -> bool {
    match given(opts, name, 0) {
        None => share == preset,
        Some(v) => match v.number {
            Some((x, _)) => share == x && Real { bits: 0 }.rank() <= x.rank() <= Real {
                bits: ONE,
            }.rank(),
            None => false,
        },
    }
}

/// Something is on, as the preset has it, unless the request switches it off or on.
pub open spec fn switch_follows(
    opts: Seq<(Seq<char>, ValueView)>,
    name: Seq<char>,
    preset: bool,
    on: bool,
) -> bool {
    match given(opts, name, 0) {
        None => on == preset,
        Some(v) => v.flag == Some(!on),
    }
}

/// A model's name is the server's unless the request gives one that says something.
pub open spec fn name_follows(
    opts: Seq<(Seq<char>, ValueView)>,
    name: Seq<char>,
    model: Option<Seq<char>>,
) -> bool {
    match given(opts, name, 0) {
        None => model is None,
        Some(v) => match v.text {
            Some(s) => model == (if blank(s) {
                None
            } else {
                Some(s)
            }),
            None => false,
        },
    }
}

proof fn lemma_entry_max_rounds()
    ensures
        entry(1) == ("max_rounds"@, 1int, 200int),
{
    reveal(entry);
}

proof fn lemma_entry_format()
    ensures
        entry(2) == ("format"@, 0int, -1int),
{
    reveal(entry);
}

proof fn lemma_entry_search_engines()
    ensures
        entry(3) == ("search_engines"@, 0int, -1int),
{
    reveal(entry);
}

proof fn lemma_entry_queries_per_round()
    ensures
        entry(4) == ("queries_per_round"@, 1int, 50int),
{
    reveal(entry);
}

proof fn lemma_entry_results_per_query()
    ensures
        entry(5) == ("results_per_query"@, 1int, 100int),
{
    reveal(entry);
}

proof fn lemma_entry_read_per_query()
    ensures
        entry(6) == ("read_per_query"@, 1int, 50int),
{
    reveal(entry);
}

proof fn lemma_entry_max_barren_rounds()
    ensures
        entry(7) == ("max_barren_rounds"@, 1int, 20int),
{
    reveal(entry);
}

proof fn lemma_entry_fetch_concurrency()
    ensures
        entry(8) == ("fetch_concurrency"@, 1int, 64int),
{
    reveal(entry);
}

proof fn lemma_entry_concurrency()
    ensures
        entry(9) == ("concurrency"@, 1int, 64int),
{
    reveal(entry);
}

proof fn lemma_entry_max_questions_per_request()
    ensures
        entry(10) == ("max_questions_per_request"@, 1int, 512int),
{
    reveal(entry);
}

proof fn lemma_entry_grounding_floor()
    ensures
        entry(11) == ("grounding_floor"@, 0int, -2int),
{
    reveal(entry);
}

proof fn lemma_entry_constraint_floor()
    ensures
        entry(12) == ("constraint_floor"@, 0int, -2int),
{
    reveal(entry);
}

proof fn lemma_entry_claim_floor()
    ensures
        entry(13) == ("claim_floor"@, 0int, -2int),
{
    reveal(entry);
}

proof fn lemma_entry_currency_floor()
    ensures
        entry(14) == ("currency_floor"@, 0int, -2int),
{
    reveal(entry);
}

proof fn lemma_entry_query_gate_floor()
    ensures
        entry(15) == ("query_gate_floor"@, 0int, -2int),
{
    reveal(entry);
}

proof fn lemma_entry_follow_floor()
    ensures
        entry(16) == ("follow_floor"@, 0int, -2int),
{
    reveal(entry);
}

proof fn lemma_entry_select_confidence()
    ensures
        entry(17) == ("select_confidence"@, 0int, -2int),
{
    reveal(entry);
}

proof fn lemma_entry_enrich_batch()
    ensures
        entry(18) == ("enrich_batch"@, 1int, 500int),
{
    reveal(entry);
}

proof fn lemma_entry_enrich_read()
    ensures
        entry(19) == ("enrich_read"@, 1int, 20int),
{
    reveal(entry);
}

proof fn lemma_entry_max_follow_per_page()
    ensures
        entry(20) == ("max_follow_per_page"@, 0int, 100int),
{
    reveal(entry);
}

proof fn lemma_entry_no_plan()
    ensures
        entry(21) == ("no_plan"@, 0int, -1int),
{
    reveal(entry);
}

proof fn lemma_entry_no_enrich()
    ensures
        entry(22) == ("no_enrich"@, 0int, -1int),
{
    reveal(entry);
}

proof fn lemma_entry_no_follow()
    ensures
        entry(23) == ("no_follow"@, 0int, -1int),
{
    reveal(entry);
}

proof fn lemma_entry_no_auto()
    ensures
        entry(24) == ("no_auto"@, 0int, -1int),
{
    reveal(entry);
}

proof fn lemma_entry_no_search_cache()
    ensures
        entry(25) == ("no_search_cache"@, 0int, -1int),
{
    reveal(entry);
}

proof fn lemma_entry_search_cache_ttl()
    ensures
        entry(26) == ("search_cache_ttl"@, 0int, 604800int),
{
    reveal(entry);
}

proof fn lemma_entry_llm_model()
    ensures
        entry(27) == ("llm_model"@, 0int, -1int),
{
    reveal(entry);
}

proof fn lemma_entry_planner_model()
    ensures
        entry(28) == ("planner_model"@, 0int, -1int),
{
    reveal(entry);
}

proof fn lemma_entry_thinking_control()
    ensures
        entry(29) == ("thinking_control"@, 0int, -1int),
{
    reveal(entry);
}

proof fn lemma_entry_planner_thinking_control()
    ensures
        entry(30) == ("planner_thinking_control"@, 0int, -1int),
{
    reveal(entry);
}

proof fn lemma_max_rounds(
    index: Seq<SpecView>,
    opts: Seq<(Seq<char>, ValueView)>,
    base: RunOptionsView,
    o: RunOptionsView,
)
    requires
        complete(index),
        outcome(index, opts, base, 0) == Ok::<RunOptionsView, Seq<char>>(o),
    ensures
        count_follows(opts, "max_rounds"@, 1, 200, base.tune.max_rounds as int, o.tune.max_rounds as int),
{
    let part = |x: RunOptionsView| x.tune.max_rounds;
    assert forall|a: RunOptionsView, s: SpecView, v: ValueView|
        s.name != "max_rounds"@ && #[trigger] stepped(a, s, v) is Ok implies part(
        stepped(a, s, v)->Ok_0,
    ) == part(a) by {
        lemma_frame(a, s, v);
    }
    lemma_entry_max_rounds();
    let r = lemma_part(index, opts, base, 1, "max_rounds"@, part);
    if given(opts, "max_rounds"@, 0) is Some {
        lemma_does_max_rounds(r.0, r.1, given(opts, "max_rounds"@, 0)->0);
    }
}

proof fn lemma_max_barren_rounds(
    index: Seq<SpecView>,
    opts: Seq<(Seq<char>, ValueView)>,
    base: RunOptionsView,
    o: RunOptionsView,
)
    requires
        complete(index),
        outcome(index, opts, base, 0) == Ok::<RunOptionsView, Seq<char>>(o),
    ensures
        count_follows(opts, "max_barren_rounds"@, 1, 20, base.tune.max_barren_rounds as int, o.tune.max_barren_rounds as int),
{
    let part = |x: RunOptionsView| x.tune.max_barren_rounds;
    assert forall|a: RunOptionsView, s: SpecView, v: ValueView|
        s.name != "max_barren_rounds"@ && #[trigger] stepped(a, s, v) is Ok implies part(
        stepped(a, s, v)->Ok_0,
    ) == part(a) by {
        lemma_frame(a, s, v);
    }
    lemma_entry_max_barren_rounds();
    let r = lemma_part(index, opts, base, 7, "max_barren_rounds"@, part);
    if given(opts, "max_barren_rounds"@, 0) is Some {
        lemma_does_max_barren_rounds(r.0, r.1, given(opts, "max_barren_rounds"@, 0)->0);
    }
}

proof fn lemma_queries_per_round(
    index: Seq<SpecView>,
    opts: Seq<(Seq<char>, ValueView)>,
    base: RunOptionsView,
    o: RunOptionsView,
)
    requires
        complete(index),
        outcome(index, opts, base, 0) == Ok::<RunOptionsView, Seq<char>>(o),
    ensures
        count_follows(opts, "queries_per_round"@, 1, 50, base.tune.queries_per_round as int, o.tune.queries_per_round as int),
{
    let part = |x: RunOptionsView| x.tune.queries_per_round;
    assert forall|a: RunOptionsView, s: SpecView, v: ValueView|
        s.name != "queries_per_round"@ && #[trigger] stepped(a, s, v) is Ok implies part(
        stepped(a, s, v)->Ok_0,
    ) == part(a) by {
        lemma_frame(a, s, v);
    }
    lemma_entry_queries_per_round();
    let r = lemma_part(index, opts, base, 4, "queries_per_round"@, part);
    if given(opts, "queries_per_round"@, 0) is Some {
        lemma_does_queries_per_round(r.0, r.1, given(opts, "queries_per_round"@, 0)->0);
    }
}

proof fn lemma_results_per_query(
    index: Seq<SpecView>,
    opts: Seq<(Seq<char>, ValueView)>,
    base: RunOptionsView,
    o: RunOptionsView,
)
    requires
        complete(index),
        outcome(index, opts, base, 0) == Ok::<RunOptionsView, Seq<char>>(o),
    ensures
        count_follows(opts, "results_per_query"@, 1, 100, base.tune.results_per_query as int, o.tune.results_per_query as int),
{
    let part = |x: RunOptionsView| x.tune.results_per_query;
    assert forall|a: RunOptionsView, s: SpecView, v: ValueView|
        s.name != "results_per_query"@ && #[trigger] stepped(a, s, v) is Ok implies part(
        stepped(a, s, v)->Ok_0,
    ) == part(a) by {
        lemma_frame(a, s, v);
    }
    lemma_entry_results_per_query();
    let r = lemma_part(index, opts, base, 5, "results_per_query"@, part);
    if given(opts, "results_per_query"@, 0) is Some {
        lemma_does_results_per_query(r.0, r.1, given(opts, "results_per_query"@, 0)->0);
    }
}

proof fn lemma_read_per_query(
    index: Seq<SpecView>,
    opts: Seq<(Seq<char>, ValueView)>,
    base: RunOptionsView,
    o: RunOptionsView,
)
    requires
        complete(index),
        outcome(index, opts, base, 0) == Ok::<RunOptionsView, Seq<char>>(o),
    ensures
        count_follows(opts, "read_per_query"@, 1, 50, base.tune.read_per_query as int, o.tune.read_per_query as int),
{
    let part = |x: RunOptionsView| x.tune.read_per_query;
    assert forall|a: RunOptionsView, s: SpecView, v: ValueView|
        s.name != "read_per_query"@ && #[trigger] stepped(a, s, v) is Ok implies part(
        stepped(a, s, v)->Ok_0,
    ) == part(a) by {
        lemma_frame(a, s, v);
    }
    lemma_entry_read_per_query();
    let r = lemma_part(index, opts, base, 6, "read_per_query"@, part);
    if given(opts, "read_per_query"@, 0) is Some {
        lemma_does_read_per_query(r.0, r.1, given(opts, "read_per_query"@, 0)->0);
    }
}

proof fn lemma_concurrency(
    index: Seq<SpecView>,
    opts: Seq<(Seq<char>, ValueView)>,
    base: RunOptionsView,
    o: RunOptionsView,
)
    requires
        complete(index),
        outcome(index, opts, base, 0) == Ok::<RunOptionsView, Seq<char>>(o),
    ensures
        count_follows(opts, "concurrency"@, 1, 64, base.tune.concurrency as int, o.tune.concurrency as int),
{
    let part = |x: RunOptionsView| x.tune.concurrency;
    assert forall|a: RunOptionsView, s: SpecView, v: ValueView|
        s.name != "concurrency"@ && #[trigger] stepped(a, s, v) is Ok implies part(
        stepped(a, s, v)->Ok_0,
    ) == part(a) by {
        lemma_frame(a, s, v);
    }
    lemma_entry_concurrency();
    let r = lemma_part(index, opts, base, 9, "concurrency"@, part);
    if given(opts, "concurrency"@, 0) is Some {
        lemma_does_concurrency(r.0, r.1, given(opts, "concurrency"@, 0)->0);
    }
}

proof fn lemma_max_questions_per_request(
    index: Seq<SpecView>,
    opts: Seq<(Seq<char>, ValueView)>,
    base: RunOptionsView,
    o: RunOptionsView,
)
    requires
        complete(index),
        outcome(index, opts, base, 0) == Ok::<RunOptionsView, Seq<char>>(o),
    ensures
        count_follows(opts, "max_questions_per_request"@, 1, 512, base.tune.max_questions_per_request as int, o.tune.max_questions_per_request as int),
{
    let part = |x: RunOptionsView| x.tune.max_questions_per_request;
    assert forall|a: RunOptionsView, s: SpecView, v: ValueView|
        s.name != "max_questions_per_request"@ && #[trigger] stepped(a, s, v) is Ok implies part(
        stepped(a, s, v)->Ok_0,
    ) == part(a) by {
        lemma_frame(a, s, v);
    }
    lemma_entry_max_questions_per_request();
    let r = lemma_part(index, opts, base, 10, "max_questions_per_request"@, part);
    if given(opts, "max_questions_per_request"@, 0) is Some {
        lemma_does_max_questions_per_request(r.0, r.1, given(opts, "max_questions_per_request"@, 0)->0);
    }
}

proof fn lemma_enrich_batch(
    index: Seq<SpecView>,
    opts: Seq<(Seq<char>, ValueView)>,
    base: RunOptionsView,
    o: RunOptionsView,
)
    requires
        complete(index),
        outcome(index, opts, base, 0) == Ok::<RunOptionsView, Seq<char>>(o),
    ensures
        count_follows(opts, "enrich_batch"@, 1, 500, base.tune.enrich_batch as int, o.tune.enrich_batch as int),
{
    let part = |x: RunOptionsView| x.tune.enrich_batch;
    assert forall|a: RunOptionsView, s: SpecView, v: ValueView|
        s.name != "enrich_batch"@ && #[trigger] stepped(a, s, v) is Ok implies part(
        stepped(a, s, v)->Ok_0,
    ) == part(a) by {
        lemma_frame(a, s, v);
    }
    lemma_entry_enrich_batch();
    let r = lemma_part(index, opts, base, 18, "enrich_batch"@, part);
    if given(opts, "enrich_batch"@, 0) is Some {
        lemma_does_enrich_batch(r.0, r.1, given(opts, "enrich_batch"@, 0)->0);
    }
}

proof fn lemma_enrich_read(
    index: Seq<SpecView>,
    opts: Seq<(Seq<char>, ValueView)>,
    base: RunOptionsView,
    o: RunOptionsView,
)
    requires
        complete(index),
        outcome(index, opts, base, 0) == Ok::<RunOptionsView, Seq<char>>(o),
    ensures
        count_follows(opts, "enrich_read"@, 1, 20, base.tune.enrich_read as int, o.tune.enrich_read as int),
{
    let part = |x: RunOptionsView| x.tune.enrich_read;
    assert forall|a: RunOptionsView, s: SpecView, v: ValueView|
        s.name != "enrich_read"@ && #[trigger] stepped(a, s, v) is Ok implies part(
        stepped(a, s, v)->Ok_0,
    ) == part(a) by {
        lemma_frame(a, s, v);
    }
    lemma_entry_enrich_read();
    let r = lemma_part(index, opts, base, 19, "enrich_read"@, part);
    if given(opts, "enrich_read"@, 0) is Some {
        lemma_does_enrich_read(r.0, r.1, given(opts, "enrich_read"@, 0)->0);
    }
}

proof fn lemma_max_follow_per_page(
    index: Seq<SpecView>,
    opts: Seq<(Seq<char>, ValueView)>,
    base: RunOptionsView,
    o: RunOptionsView,
)
    requires
        complete(index),
        outcome(index, opts, base, 0) == Ok::<RunOptionsView, Seq<char>>(o),
    ensures
        count_follows(opts, "max_follow_per_page"@, 0, 100, base.tune.max_follow_per_page as int, o.tune.max_follow_per_page as int),
{
    let part = |x: RunOptionsView| x.tune.max_follow_per_page;
    assert forall|a: RunOptionsView, s: SpecView, v: ValueView|
        s.name != "max_follow_per_page"@ && #[trigger] stepped(a, s, v) is Ok implies part(
        stepped(a, s, v)->Ok_0,
    ) == part(a) by {
        lemma_frame(a, s, v);
    }
    lemma_entry_max_follow_per_page();
    let r = lemma_part(index, opts, base, 20, "max_follow_per_page"@, part);
    if given(opts, "max_follow_per_page"@, 0) is Some {
        lemma_does_max_follow_per_page(r.0, r.1, given(opts, "max_follow_per_page"@, 0)->0);
    }
}

proof fn lemma_search_cache_ttl(
    index: Seq<SpecView>,
    opts: Seq<(Seq<char>, ValueView)>,
    base: RunOptionsView,
    o: RunOptionsView,
)
    requires
        complete(index),
        outcome(index, opts, base, 0) == Ok::<RunOptionsView, Seq<char>>(o),
    ensures
        count_follows(opts, "search_cache_ttl"@, 0, 604800, base.tune.search_cache_ttl as int, o.tune.search_cache_ttl as int),
{
    let part = |x: RunOptionsView| x.tune.search_cache_ttl;
    assert forall|a: RunOptionsView, s: SpecView, v: ValueView|
        s.name != "search_cache_ttl"@ && #[trigger] stepped(a, s, v) is Ok implies part(
        stepped(a, s, v)->Ok_0,
    ) == part(a) by {
        lemma_frame(a, s, v);
    }
    lemma_entry_search_cache_ttl();
    let r = lemma_part(index, opts, base, 26, "search_cache_ttl"@, part);
    if given(opts, "search_cache_ttl"@, 0) is Some {
        lemma_does_search_cache_ttl(r.0, r.1, given(opts, "search_cache_ttl"@, 0)->0);
    }
}

proof fn lemma_fetch_concurrency(
    index: Seq<SpecView>,
    opts: Seq<(Seq<char>, ValueView)>,
    base: RunOptionsView,
    o: RunOptionsView,
)
    requires
        complete(index),
        outcome(index, opts, base, 0) == Ok::<RunOptionsView, Seq<char>>(o),
    ensures
        match given(opts, "fetch_concurrency"@, 0) {
            None => o.fetch_concurrency == base.fetch_concurrency,
            Some(v) => match (v.whole, o.fetch_concurrency) {
                (Some(n), Some(m)) => 1 <= n <= 64 && m == n,
                _ => false,
            },
        },
{
    let part = |x: RunOptionsView| x.fetch_concurrency;
    assert forall|a: RunOptionsView, s: SpecView, v: ValueView|
        s.name != "fetch_concurrency"@ && #[trigger] stepped(a, s, v) is Ok implies part(
        stepped(a, s, v)->Ok_0,
    ) == part(a) by {
        lemma_frame(a, s, v);
    }
    lemma_entry_fetch_concurrency();
    let r = lemma_part(index, opts, base, 8, "fetch_concurrency"@, part);
    if given(opts, "fetch_concurrency"@, 0) is Some {
        lemma_does_fetch_concurrency(r.0, r.1, given(opts, "fetch_concurrency"@, 0)->0);
    }
}

proof fn lemma_grounding_floor(
    index: Seq<SpecView>,
    opts: Seq<(Seq<char>, ValueView)>,
    base: RunOptionsView,
    o: RunOptionsView,
)
    requires
        complete(index),
        outcome(index, opts, base, 0) == Ok::<RunOptionsView, Seq<char>>(o),
    ensures
        share_follows(opts, "grounding_floor"@, base.tune.grounding_floor, o.tune.grounding_floor),
{
    let part = |x: RunOptionsView| x.tune.grounding_floor;
    assert forall|a: RunOptionsView, s: SpecView, v: ValueView|
        s.name != "grounding_floor"@ && #[trigger] stepped(a, s, v) is Ok implies part(
        stepped(a, s, v)->Ok_0,
    ) == part(a) by {
        lemma_frame(a, s, v);
    }
    lemma_entry_grounding_floor();
    let r = lemma_part(index, opts, base, 11, "grounding_floor"@, part);
    if given(opts, "grounding_floor"@, 0) is Some {
        lemma_does_grounding_floor(r.0, r.1, given(opts, "grounding_floor"@, 0)->0);
    }
}

proof fn lemma_constraint_floor(
    index: Seq<SpecView>,
    opts: Seq<(Seq<char>, ValueView)>,
    base: RunOptionsView,
    o: RunOptionsView,
)
    requires
        complete(index),
        outcome(index, opts, base, 0) == Ok::<RunOptionsView, Seq<char>>(o),
    ensures
        share_follows(opts, "constraint_floor"@, base.tune.constraint_floor, o.tune.constraint_floor),
{
    let part = |x: RunOptionsView| x.tune.constraint_floor;
    assert forall|a: RunOptionsView, s: SpecView, v: ValueView|
        s.name != "constraint_floor"@ && #[trigger] stepped(a, s, v) is Ok implies part(
        stepped(a, s, v)->Ok_0,
    ) == part(a) by {
        lemma_frame(a, s, v);
    }
    lemma_entry_constraint_floor();
    let r = lemma_part(index, opts, base, 12, "constraint_floor"@, part);
    if given(opts, "constraint_floor"@, 0) is Some {
        lemma_does_constraint_floor(r.0, r.1, given(opts, "constraint_floor"@, 0)->0);
    }
}

proof fn lemma_claim_floor(
    index: Seq<SpecView>,
    opts: Seq<(Seq<char>, ValueView)>,
    base: RunOptionsView,
    o: RunOptionsView,
)
    requires
        complete(index),
        outcome(index, opts, base, 0) == Ok::<RunOptionsView, Seq<char>>(o),
    ensures
        share_follows(opts, "claim_floor"@, base.tune.claim_floor, o.tune.claim_floor),
{
    let part = |x: RunOptionsView| x.tune.claim_floor;
    assert forall|a: RunOptionsView, s: SpecView, v: ValueView|
        s.name != "claim_floor"@ && #[trigger] stepped(a, s, v) is Ok implies part(
        stepped(a, s, v)->Ok_0,
    ) == part(a) by {
        lemma_frame(a, s, v);
    }
    lemma_entry_claim_floor();
    let r = lemma_part(index, opts, base, 13, "claim_floor"@, part);
    if given(opts, "claim_floor"@, 0) is Some {
        lemma_does_claim_floor(r.0, r.1, given(opts, "claim_floor"@, 0)->0);
    }
}

proof fn lemma_currency_floor(
    index: Seq<SpecView>,
    opts: Seq<(Seq<char>, ValueView)>,
    base: RunOptionsView,
    o: RunOptionsView,
)
    requires
        complete(index),
        outcome(index, opts, base, 0) == Ok::<RunOptionsView, Seq<char>>(o),
    ensures
        share_follows(opts, "currency_floor"@, base.tune.currency_floor, o.tune.currency_floor),
{
    let part = |x: RunOptionsView| x.tune.currency_floor;
    assert forall|a: RunOptionsView, s: SpecView, v: ValueView|
        s.name != "currency_floor"@ && #[trigger] stepped(a, s, v) is Ok implies part(
        stepped(a, s, v)->Ok_0,
    ) == part(a) by {
        lemma_frame(a, s, v);
    }
    lemma_entry_currency_floor();
    let r = lemma_part(index, opts, base, 14, "currency_floor"@, part);
    if given(opts, "currency_floor"@, 0) is Some {
        lemma_does_currency_floor(r.0, r.1, given(opts, "currency_floor"@, 0)->0);
    }
}

proof fn lemma_query_gate_floor(
    index: Seq<SpecView>,
    opts: Seq<(Seq<char>, ValueView)>,
    base: RunOptionsView,
    o: RunOptionsView,
)
    requires
        complete(index),
        outcome(index, opts, base, 0) == Ok::<RunOptionsView, Seq<char>>(o),
    ensures
        share_follows(opts, "query_gate_floor"@, base.tune.query_gate_floor, o.tune.query_gate_floor),
{
    let part = |x: RunOptionsView| x.tune.query_gate_floor;
    assert forall|a: RunOptionsView, s: SpecView, v: ValueView|
        s.name != "query_gate_floor"@ && #[trigger] stepped(a, s, v) is Ok implies part(
        stepped(a, s, v)->Ok_0,
    ) == part(a) by {
        lemma_frame(a, s, v);
    }
    lemma_entry_query_gate_floor();
    let r = lemma_part(index, opts, base, 15, "query_gate_floor"@, part);
    if given(opts, "query_gate_floor"@, 0) is Some {
        lemma_does_query_gate_floor(r.0, r.1, given(opts, "query_gate_floor"@, 0)->0);
    }
}

proof fn lemma_follow_floor(
    index: Seq<SpecView>,
    opts: Seq<(Seq<char>, ValueView)>,
    base: RunOptionsView,
    o: RunOptionsView,
)
    requires
        complete(index),
        outcome(index, opts, base, 0) == Ok::<RunOptionsView, Seq<char>>(o),
    ensures
        share_follows(opts, "follow_floor"@, base.tune.follow_floor, o.tune.follow_floor),
{
    let part = |x: RunOptionsView| x.tune.follow_floor;
    assert forall|a: RunOptionsView, s: SpecView, v: ValueView|
        s.name != "follow_floor"@ && #[trigger] stepped(a, s, v) is Ok implies part(
        stepped(a, s, v)->Ok_0,
    ) == part(a) by {
        lemma_frame(a, s, v);
    }
    lemma_entry_follow_floor();
    let r = lemma_part(index, opts, base, 16, "follow_floor"@, part);
    if given(opts, "follow_floor"@, 0) is Some {
        lemma_does_follow_floor(r.0, r.1, given(opts, "follow_floor"@, 0)->0);
    }
}

proof fn lemma_select_confidence(
    index: Seq<SpecView>,
    opts: Seq<(Seq<char>, ValueView)>,
    base: RunOptionsView,
    o: RunOptionsView,
)
    requires
        complete(index),
        outcome(index, opts, base, 0) == Ok::<RunOptionsView, Seq<char>>(o),
    ensures
        share_follows(opts, "select_confidence"@, base.tune.select_confidence, o.tune.select_confidence),
{
    let part = |x: RunOptionsView| x.tune.select_confidence;
    assert forall|a: RunOptionsView, s: SpecView, v: ValueView|
        s.name != "select_confidence"@ && #[trigger] stepped(a, s, v) is Ok implies part(
        stepped(a, s, v)->Ok_0,
    ) == part(a) by {
        lemma_frame(a, s, v);
    }
    lemma_entry_select_confidence();
    let r = lemma_part(index, opts, base, 17, "select_confidence"@, part);
    if given(opts, "select_confidence"@, 0) is Some {
        lemma_does_select_confidence(r.0, r.1, given(opts, "select_confidence"@, 0)->0);
    }
}

proof fn lemma_no_plan(
    index: Seq<SpecView>,
    opts: Seq<(Seq<char>, ValueView)>,
    base: RunOptionsView,
    o: RunOptionsView,
)
    requires
        complete(index),
        outcome(index, opts, base, 0) == Ok::<RunOptionsView, Seq<char>>(o),
    ensures
        switch_follows(opts, "no_plan"@, base.tune.research_plan, o.tune.research_plan),
{
    let part = |x: RunOptionsView| x.tune.research_plan;
    assert forall|a: RunOptionsView, s: SpecView, v: ValueView|
        s.name != "no_plan"@ && #[trigger] stepped(a, s, v) is Ok implies part(
        stepped(a, s, v)->Ok_0,
    ) == part(a) by {
        lemma_frame(a, s, v);
    }
    lemma_entry_no_plan();
    let r = lemma_part(index, opts, base, 21, "no_plan"@, part);
    if given(opts, "no_plan"@, 0) is Some {
        lemma_does_no_plan(r.0, r.1, given(opts, "no_plan"@, 0)->0);
    }
}

proof fn lemma_no_search_cache(
    index: Seq<SpecView>,
    opts: Seq<(Seq<char>, ValueView)>,
    base: RunOptionsView,
    o: RunOptionsView,
)
    requires
        complete(index),
        outcome(index, opts, base, 0) == Ok::<RunOptionsView, Seq<char>>(o),
    ensures
        switch_follows(opts, "no_search_cache"@, base.tune.search_cache, o.tune.search_cache),
{
    let part = |x: RunOptionsView| x.tune.search_cache;
    assert forall|a: RunOptionsView, s: SpecView, v: ValueView|
        s.name != "no_search_cache"@ && #[trigger] stepped(a, s, v) is Ok implies part(
        stepped(a, s, v)->Ok_0,
    ) == part(a) by {
        lemma_frame(a, s, v);
    }
    lemma_entry_no_search_cache();
    let r = lemma_part(index, opts, base, 25, "no_search_cache"@, part);
    if given(opts, "no_search_cache"@, 0) is Some {
        lemma_does_no_search_cache(r.0, r.1, given(opts, "no_search_cache"@, 0)->0);
    }
}

proof fn lemma_no_follow(
    index: Seq<SpecView>,
    opts: Seq<(Seq<char>, ValueView)>,
    base: RunOptionsView,
    o: RunOptionsView,
)
    requires
        complete(index),
        outcome(index, opts, base, 0) == Ok::<RunOptionsView, Seq<char>>(o),
    ensures
        switch_follows(opts, "no_follow"@, base.follow, o.follow),
{
    let part = |x: RunOptionsView| x.follow;
    assert forall|a: RunOptionsView, s: SpecView, v: ValueView|
        s.name != "no_follow"@ && #[trigger] stepped(a, s, v) is Ok implies part(
        stepped(a, s, v)->Ok_0,
    ) == part(a) by {
        lemma_frame(a, s, v);
    }
    lemma_entry_no_follow();
    let r = lemma_part(index, opts, base, 23, "no_follow"@, part);
    if given(opts, "no_follow"@, 0) is Some {
        lemma_does_no_follow(r.0, r.1, given(opts, "no_follow"@, 0)->0);
    }
}

proof fn lemma_no_enrich(
    index: Seq<SpecView>,
    opts: Seq<(Seq<char>, ValueView)>,
    base: RunOptionsView,
    o: RunOptionsView,
)
    requires
        complete(index),
        outcome(index, opts, base, 0) == Ok::<RunOptionsView, Seq<char>>(o),
    ensures
        switch_follows(opts, "no_enrich"@, base.enrich, o.enrich),
{
    let part = |x: RunOptionsView| x.enrich;
    assert forall|a: RunOptionsView, s: SpecView, v: ValueView|
        s.name != "no_enrich"@ && #[trigger] stepped(a, s, v) is Ok implies part(
        stepped(a, s, v)->Ok_0,
    ) == part(a) by {
        lemma_frame(a, s, v);
    }
    lemma_entry_no_enrich();
    let r = lemma_part(index, opts, base, 22, "no_enrich"@, part);
    if given(opts, "no_enrich"@, 0) is Some {
        lemma_does_no_enrich(r.0, r.1, given(opts, "no_enrich"@, 0)->0);
    }
}

proof fn lemma_no_auto(
    index: Seq<SpecView>,
    opts: Seq<(Seq<char>, ValueView)>,
    base: RunOptionsView,
    o: RunOptionsView,
)
    requires
        complete(index),
        outcome(index, opts, base, 0) == Ok::<RunOptionsView, Seq<char>>(o),
    ensures
        switch_follows(opts, "no_auto"@, base.auto, o.auto),
{
    let part = |x: RunOptionsView| x.auto;
    assert forall|a: RunOptionsView, s: SpecView, v: ValueView|
        s.name != "no_auto"@ && #[trigger] stepped(a, s, v) is Ok implies part(
        stepped(a, s, v)->Ok_0,
    ) == part(a) by {
        lemma_frame(a, s, v);
    }
    lemma_entry_no_auto();
    let r = lemma_part(index, opts, base, 24, "no_auto"@, part);
    if given(opts, "no_auto"@, 0) is Some {
        lemma_does_no_auto(r.0, r.1, given(opts, "no_auto"@, 0)->0);
    }
}

proof fn lemma_llm_model(
    index: Seq<SpecView>,
    opts: Seq<(Seq<char>, ValueView)>,
    base: RunOptionsView,
    o: RunOptionsView,
)
    requires
        complete(index),
        outcome(index, opts, base, 0) == Ok::<RunOptionsView, Seq<char>>(o),
    ensures
        base.llm_model is None ==> name_follows(opts, "llm_model"@, o.llm_model),
{
    let part = |x: RunOptionsView| x.llm_model;
    assert forall|a: RunOptionsView, s: SpecView, v: ValueView|
        s.name != "llm_model"@ && #[trigger] stepped(a, s, v) is Ok implies part(
        stepped(a, s, v)->Ok_0,
    ) == part(a) by {
        lemma_frame(a, s, v);
    }
    lemma_entry_llm_model();
    let r = lemma_part(index, opts, base, 27, "llm_model"@, part);
    if given(opts, "llm_model"@, 0) is Some {
        lemma_does_llm_model(r.0, r.1, given(opts, "llm_model"@, 0)->0);
    }
}

proof fn lemma_planner_model(
    index: Seq<SpecView>,
    opts: Seq<(Seq<char>, ValueView)>,
    base: RunOptionsView,
    o: RunOptionsView,
)
    requires
        complete(index),
        outcome(index, opts, base, 0) == Ok::<RunOptionsView, Seq<char>>(o),
    ensures
        base.planner_model is None ==> name_follows(opts, "planner_model"@, o.planner_model),
{
    let part = |x: RunOptionsView| x.planner_model;
    assert forall|a: RunOptionsView, s: SpecView, v: ValueView|
        s.name != "planner_model"@ && #[trigger] stepped(a, s, v) is Ok implies part(
        stepped(a, s, v)->Ok_0,
    ) == part(a) by {
        lemma_frame(a, s, v);
    }
    lemma_entry_planner_model();
    let r = lemma_part(index, opts, base, 28, "planner_model"@, part);
    if given(opts, "planner_model"@, 0) is Some {
        lemma_does_planner_model(r.0, r.1, given(opts, "planner_model"@, 0)->0);
    }
}

proof fn lemma_format(
    index: Seq<SpecView>,
    opts: Seq<(Seq<char>, ValueView)>,
    base: RunOptionsView,
    o: RunOptionsView,
)
    requires
        complete(index),
        outcome(index, opts, base, 0) == Ok::<RunOptionsView, Seq<char>>(o),
    ensures
        match given(opts, "format"@, 0) {
            None => o.format == base.format,
            Some(v) => match v.text {
                Some(s) => format_named(s) == Some(o.format),
                None => false,
            },
        },
{
    let part = |x: RunOptionsView| x.format;
    assert forall|a: RunOptionsView, s: SpecView, v: ValueView|
        s.name != "format"@ && #[trigger] stepped(a, s, v) is Ok implies part(
        stepped(a, s, v)->Ok_0,
    ) == part(a) by {
        lemma_frame(a, s, v);
    }
    lemma_entry_format();
    let r = lemma_part(index, opts, base, 2, "format"@, part);
    if given(opts, "format"@, 0) is Some {
        lemma_does_format(r.0, r.1, given(opts, "format"@, 0)->0);
    }
}

proof fn lemma_engines(
    index: Seq<SpecView>,
    opts: Seq<(Seq<char>, ValueView)>,
    base: RunOptionsView,
    o: RunOptionsView,
)
    requires
        complete(index),
        outcome(index, opts, base, 0) == Ok::<RunOptionsView, Seq<char>>(o),
    ensures
        match given(opts, "search_engines"@, 0) {
            None => o.engines == base.engines,
            Some(v) => match v.text {
                Some(s) => engines_named(s) == Some(o.engines),
                None => false,
            },
        },
{
    let part = |x: RunOptionsView| x.engines;
    assert forall|a: RunOptionsView, s: SpecView, v: ValueView|
        s.name != "search_engines"@ && #[trigger] stepped(a, s, v) is Ok implies part(
        stepped(a, s, v)->Ok_0,
    ) == part(a) by {
        lemma_frame(a, s, v);
    }
    lemma_entry_search_engines();
    let r = lemma_part(index, opts, base, 3, "search_engines"@, part);
    if given(opts, "search_engines"@, 0) is Some {
        lemma_does_engines(r.0, r.1, given(opts, "search_engines"@, 0)->0);
    }
}

proof fn lemma_thinking_control(
    index: Seq<SpecView>,
    opts: Seq<(Seq<char>, ValueView)>,
    base: RunOptionsView,
    o: RunOptionsView,
)
    requires
        complete(index),
        outcome(index, opts, base, 0) == Ok::<RunOptionsView, Seq<char>>(o),
    ensures
        match given(opts, "thinking_control"@, 0) {
            None => o.thinking_control == base.thinking_control,
            Some(v) => match v.text {
                Some(s) => o.thinking_control == thinking_named(s) && o.thinking_control is Some,
                None => false,
            },
        },
{
    let part = |x: RunOptionsView| x.thinking_control;
    assert forall|a: RunOptionsView, s: SpecView, v: ValueView|
        s.name != "thinking_control"@ && #[trigger] stepped(a, s, v) is Ok implies part(
        stepped(a, s, v)->Ok_0,
    ) == part(a) by {
        lemma_frame(a, s, v);
    }
    lemma_entry_thinking_control();
    let r = lemma_part(index, opts, base, 29, "thinking_control"@, part);
    if given(opts, "thinking_control"@, 0) is Some {
        lemma_does_thinking_control(r.0, r.1, given(opts, "thinking_control"@, 0)->0);
    }
}

proof fn lemma_planner_thinking_control(
    index: Seq<SpecView>,
    opts: Seq<(Seq<char>, ValueView)>,
    base: RunOptionsView,
    o: RunOptionsView,
)
    requires
        complete(index),
        outcome(index, opts, base, 0) == Ok::<RunOptionsView, Seq<char>>(o),
    ensures
        match given(opts, "planner_thinking_control"@, 0) {
            None => o.planner_thinking_control == base.planner_thinking_control,
            Some(v) => match v.text {
                Some(s) => o.planner_thinking_control == thinking_named(s) && o.planner_thinking_control is Some,
                None => false,
            },
        },
{
    let part = |x: RunOptionsView| x.planner_thinking_control;
    assert forall|a: RunOptionsView, s: SpecView, v: ValueView|
        s.name != "planner_thinking_control"@ && #[trigger] stepped(a, s, v) is Ok implies part(
        stepped(a, s, v)->Ok_0,
    ) == part(a) by {
        lemma_frame(a, s, v);
    }
    lemma_entry_planner_thinking_control();
    let r = lemma_part(index, opts, base, 30, "planner_thinking_control"@, part);
    if given(opts, "planner_thinking_control"@, 0) is Some {
        lemma_does_planner_thinking_control(r.0, r.1, given(opts, "planner_thinking_control"@, 0)->0);
    }
}

proof fn lemma_preset(
    index: Seq<SpecView>,
    opts: Seq<(Seq<char>, ValueView)>,
    base: RunOptionsView,
    o: RunOptionsView,
)
    requires
        complete(index),
        outcome(index, opts, base, 0) == Ok::<RunOptionsView, Seq<char>>(o),
    ensures
        o.preset == base.preset,
{
    reveal(complete);
    let part = |x: RunOptionsView| x.preset;
    assert forall|a: RunOptionsView, s: SpecView, v: ValueView|
        s.name != Seq::<char>::empty() && #[trigger] stepped(a, s, v) is Ok implies part(
        stepped(a, s, v)->Ok_0,
    ) == part(a) by {
        lemma_frame(a, s, v);
    }
    lemma_untouched(index, opts, base, 0, Seq::empty(), part);
}

/// An accepted request is its preset with the options applied.
proof fn lemma_accepted(
    index: Seq<SpecView>,
    opts: Seq<(Seq<char>, ValueView)>,
    o: RunOptionsView,
) -> (p: Preset)
    requires
        folded(index, opts) == Ok::<RunOptionsView, Seq<char>>(o),
    ensures
        base_preset(opts) == Ok::<Preset, Seq<char>>(p),
        outcome(index, opts, RunOptionsView::of_preset(p), 0) == Ok::<RunOptionsView, Seq<char>>(o),
{
    reveal(outcome);
    base_preset(opts)->Ok_0
}

proof fn lemma_base(opts: Seq<(Seq<char>, ValueView)>, p: Preset)
    requires
        base_preset(opts) == Ok::<Preset, Seq<char>>(p),
    ensures
        match given(opts, "preset"@, 0) {
            None => p == Preset::Standard,
            Some(v) => v.text == Some(p.label()),
        },
{
}

proof fn lemma_counts_follow_the_request(
    index: Seq<SpecView>,
    opts: Seq<(Seq<char>, ValueView)>,
    base: RunOptionsView,
    o: RunOptionsView,
)
    requires
        complete(index),
        base == RunOptionsView::of_preset(base.preset),
        outcome(index, opts, base, 0) == Ok::<RunOptionsView, Seq<char>>(o),
    ensures
        ({
            let p = o.preset.settings();
            let t = o.tune;
            &&& count_follows(opts, "max_rounds"@, 1, 200, p.max_rounds as int, t.max_rounds as int)
            &&& count_follows(opts, "max_barren_rounds"@, 1, 20, p.max_barren_rounds as int, t.max_barren_rounds as int)
            &&& count_follows(opts, "queries_per_round"@, 1, 50, p.queries_per_round as int, t.queries_per_round as int)
            &&& count_follows(opts, "results_per_query"@, 1, 100, p.results_per_query as int, t.results_per_query as int)
            &&& count_follows(opts, "read_per_query"@, 1, 50, p.read_per_query as int, t.read_per_query as int)
            &&& count_follows(opts, "concurrency"@, 1, 64, p.concurrency as int, t.concurrency as int)
            &&& count_follows(opts, "max_questions_per_request"@, 1, 512, p.max_questions_per_request as int, t.max_questions_per_request as int)
            &&& count_follows(opts, "enrich_batch"@, 1, 500, p.enrich_batch as int, t.enrich_batch as int)
            &&& count_follows(opts, "enrich_read"@, 1, 20, p.enrich_read as int, t.enrich_read as int)
            &&& count_follows(opts, "max_follow_per_page"@, 0, 100, p.max_follow_per_page as int, t.max_follow_per_page as int)
            &&& count_follows(opts, "search_cache_ttl"@, 0, 604800, p.search_cache_ttl as int, t.search_cache_ttl as int)
        }),
        match given(opts, "fetch_concurrency"@, 0) {
            None => o.fetch_concurrency is None,
            Some(v) => match (v.whole, o.fetch_concurrency) {
                (Some(n), Some(m)) => 1 <= n <= 64 && m == n,
                _ => false,
            },
        },
{
    lemma_preset(index, opts, base, o);
    lemma_max_rounds(index, opts, base, o);
    lemma_max_barren_rounds(index, opts, base, o);
    lemma_queries_per_round(index, opts, base, o);
    lemma_results_per_query(index, opts, base, o);
    lemma_read_per_query(index, opts, base, o);
    lemma_concurrency(index, opts, base, o);
    lemma_max_questions_per_request(index, opts, base, o);
    lemma_enrich_batch(index, opts, base, o);
    lemma_enrich_read(index, opts, base, o);
    lemma_max_follow_per_page(index, opts, base, o);
    lemma_search_cache_ttl(index, opts, base, o);
    lemma_fetch_concurrency(index, opts, base, o);
}

/// Every count of an accepted request's run is the one of that very name: its preset's, or
/// what the request gives, which has to lie in the option's range.
pub proof fn law_counts_follow_the_request(
    fetch: usize,
    opts: Seq<(Seq<char>, ValueView)>,
    o: RunOptionsView,
)
    requires
        folded(index_of_options(fetch), opts) == Ok::<RunOptionsView, Seq<char>>(o),
    ensures
        ({
            let p = o.preset.settings();
            let t = o.tune;
            &&& count_follows(opts, "max_rounds"@, 1, 200, p.max_rounds as int, t.max_rounds as int)
            &&& count_follows(opts, "max_barren_rounds"@, 1, 20, p.max_barren_rounds as int, t.max_barren_rounds as int)
            &&& count_follows(opts, "queries_per_round"@, 1, 50, p.queries_per_round as int, t.queries_per_round as int)
            &&& count_follows(opts, "results_per_query"@, 1, 100, p.results_per_query as int, t.results_per_query as int)
            &&& count_follows(opts, "read_per_query"@, 1, 50, p.read_per_query as int, t.read_per_query as int)
            &&& count_follows(opts, "concurrency"@, 1, 64, p.concurrency as int, t.concurrency as int)
            &&& count_follows(opts, "max_questions_per_request"@, 1, 512, p.max_questions_per_request as int, t.max_questions_per_request as int)
            &&& count_follows(opts, "enrich_batch"@, 1, 500, p.enrich_batch as int, t.enrich_batch as int)
            &&& count_follows(opts, "enrich_read"@, 1, 20, p.enrich_read as int, t.enrich_read as int)
            &&& count_follows(opts, "max_follow_per_page"@, 0, 100, p.max_follow_per_page as int, t.max_follow_per_page as int)
            &&& count_follows(opts, "search_cache_ttl"@, 0, 604800, p.search_cache_ttl as int, t.search_cache_ttl as int)
        }),
        match given(opts, "fetch_concurrency"@, 0) {
            None => o.fetch_concurrency is None,
            Some(v) => match (v.whole, o.fetch_concurrency) {
                (Some(n), Some(m)) => 1 <= n <= 64 && m == n,
                _ => false,
            },
        },
{
    let p = lemma_accepted(index_of_options(fetch), opts, o);
    lemma_complete(fetch);
    lemma_counts_follow_the_request(index_of_options(fetch), opts, RunOptionsView::of_preset(p), o);
}

proof fn lemma_shares_follow_the_request(
    index: Seq<SpecView>,
    opts: Seq<(Seq<char>, ValueView)>,
    base: RunOptionsView,
    o: RunOptionsView,
)
    requires
        complete(index),
        base == RunOptionsView::of_preset(base.preset),
        outcome(index, opts, base, 0) == Ok::<RunOptionsView, Seq<char>>(o),
    ensures
        ({
            let p = o.preset.settings();
            let t = o.tune;
            &&& share_follows(opts, "grounding_floor"@, p.grounding_floor, t.grounding_floor)
            &&& share_follows(opts, "constraint_floor"@, p.constraint_floor, t.constraint_floor)
            &&& share_follows(opts, "claim_floor"@, p.claim_floor, t.claim_floor)
            &&& share_follows(opts, "currency_floor"@, p.currency_floor, t.currency_floor)
            &&& share_follows(opts, "query_gate_floor"@, p.query_gate_floor, t.query_gate_floor)
            &&& share_follows(opts, "follow_floor"@, p.follow_floor, t.follow_floor)
            &&& share_follows(opts, "select_confidence"@, p.select_confidence, t.select_confidence)
        }),
{
    lemma_preset(index, opts, base, o);
    lemma_grounding_floor(index, opts, base, o);
    lemma_constraint_floor(index, opts, base, o);
    lemma_claim_floor(index, opts, base, o);
    lemma_currency_floor(index, opts, base, o);
    lemma_query_gate_floor(index, opts, base, o);
    lemma_follow_floor(index, opts, base, o);
    lemma_select_confidence(index, opts, base, o);
}

/// Every share of an accepted request's run is the one of that very name: its preset's, or
/// what the request gives, from 0 to 1.
pub proof fn law_shares_follow_the_request(
    fetch: usize,
    opts: Seq<(Seq<char>, ValueView)>,
    o: RunOptionsView,
)
    requires
        folded(index_of_options(fetch), opts) == Ok::<RunOptionsView, Seq<char>>(o),
    ensures
        ({
            let p = o.preset.settings();
            let t = o.tune;
            &&& share_follows(opts, "grounding_floor"@, p.grounding_floor, t.grounding_floor)
            &&& share_follows(opts, "constraint_floor"@, p.constraint_floor, t.constraint_floor)
            &&& share_follows(opts, "claim_floor"@, p.claim_floor, t.claim_floor)
            &&& share_follows(opts, "currency_floor"@, p.currency_floor, t.currency_floor)
            &&& share_follows(opts, "query_gate_floor"@, p.query_gate_floor, t.query_gate_floor)
            &&& share_follows(opts, "follow_floor"@, p.follow_floor, t.follow_floor)
            &&& share_follows(opts, "select_confidence"@, p.select_confidence, t.select_confidence)
        }),
{
    let p = lemma_accepted(index_of_options(fetch), opts, o);
    lemma_complete(fetch);
    lemma_shares_follow_the_request(index_of_options(fetch), opts, RunOptionsView::of_preset(p), o);
}

proof fn lemma_switches_turn_off_what_they_name(
    index: Seq<SpecView>,
    opts: Seq<(Seq<char>, ValueView)>,
    base: RunOptionsView,
    o: RunOptionsView,
)
    requires
        complete(index),
        base == RunOptionsView::of_preset(base.preset),
        outcome(index, opts, base, 0) == Ok::<RunOptionsView, Seq<char>>(o),
    ensures
        switch_follows(
            opts,
            "no_plan"@,
            o.preset.settings().research_plan,
            o.tune.research_plan,
        ),
        switch_follows(
            opts,
            "no_search_cache"@,
            o.preset.settings().search_cache,
            o.tune.search_cache,
        ),
        switch_follows(opts, "no_follow"@, true, o.follow),
        switch_follows(opts, "no_enrich"@, true, o.enrich),
        switch_follows(opts, "no_auto"@, true, o.auto),
{
    lemma_preset(index, opts, base, o);
    lemma_no_plan(index, opts, base, o);
    lemma_no_search_cache(index, opts, base, o);
    lemma_no_follow(index, opts, base, o);
    lemma_no_enrich(index, opts, base, o);
    lemma_no_auto(index, opts, base, o);
}

/// Every switch of an accepted request turns off what it names, and a request that does not
/// give it leaves that as its preset has it.
pub proof fn law_switches_turn_off_what_they_name(
    fetch: usize,
    opts: Seq<(Seq<char>, ValueView)>,
    o: RunOptionsView,
)
    requires
        folded(index_of_options(fetch), opts) == Ok::<RunOptionsView, Seq<char>>(o),
    ensures
        switch_follows(
            opts,
            "no_plan"@,
            o.preset.settings().research_plan,
            o.tune.research_plan,
        ),
        switch_follows(
            opts,
            "no_search_cache"@,
            o.preset.settings().search_cache,
            o.tune.search_cache,
        ),
        switch_follows(opts, "no_follow"@, true, o.follow),
        switch_follows(opts, "no_enrich"@, true, o.enrich),
        switch_follows(opts, "no_auto"@, true, o.auto),
{
    let p = lemma_accepted(index_of_options(fetch), opts, o);
    lemma_complete(fetch);
    lemma_switches_turn_off_what_they_name(index_of_options(fetch), opts, RunOptionsView::of_preset(p), o);
}

proof fn lemma_choices_follow_the_request(
    index: Seq<SpecView>,
    opts: Seq<(Seq<char>, ValueView)>,
    base: RunOptionsView,
    o: RunOptionsView,
)
    requires
        complete(index),
        base == RunOptionsView::of_preset(base.preset),
        outcome(index, opts, base, 0) == Ok::<RunOptionsView, Seq<char>>(o),
    ensures
        match given(opts, "format"@, 0) {
            None => o.format == Format::Markdown,
            Some(v) => match v.text {
                Some(s) => format_named(s) == Some(o.format),
                None => false,
            },
        },
        match given(opts, "search_engines"@, 0) {
            None => o.engines == SearchEngines::Auto,
            Some(v) => v.text == Some(
                match o.engines {
                    SearchEngines::Auto => "auto"@,
                    SearchEngines::Ddg => "ddg"@,
                    SearchEngines::Jina => "jina"@,
                },
            ),
        },
        name_follows(opts, "llm_model"@, o.llm_model),
        name_follows(opts, "planner_model"@, o.planner_model),
        match given(opts, "thinking_control"@, 0) {
            None => o.thinking_control is None,
            Some(v) => match v.text {
                Some(s) => o.thinking_control == thinking_named(s) && o.thinking_control is Some,
                None => false,
            },
        },
        match given(opts, "planner_thinking_control"@, 0) {
            None => o.planner_thinking_control is None,
            Some(v) => match v.text {
                Some(s) => o.planner_thinking_control == thinking_named(s)
                    && o.planner_thinking_control is Some,
                None => false,
            },
        },
{
    lemma_preset(index, opts, base, o);
    lemma_format(index, opts, base, o);
    lemma_engines(index, opts, base, o);
    lemma_llm_model(index, opts, base, o);
    lemma_planner_model(index, opts, base, o);
    lemma_thinking_control(index, opts, base, o);
    lemma_planner_thinking_control(index, opts, base, o);
}

/// An accepted request's run has the preset, the format, the engines, the models and the
/// modes that the request names, each by its own option, and else what a run has by
/// default.
pub proof fn law_choices_follow_the_request(
    fetch: usize,
    opts: Seq<(Seq<char>, ValueView)>,
    o: RunOptionsView,
)
    requires
        folded(index_of_options(fetch), opts) == Ok::<RunOptionsView, Seq<char>>(o),
    ensures
        match given(opts, "preset"@, 0) {
            None => o.preset == Preset::Standard,
            Some(v) => v.text == Some(o.preset.label()),
        },
        match given(opts, "format"@, 0) {
            None => o.format == Format::Markdown,
            Some(v) => match v.text {
                Some(s) => format_named(s) == Some(o.format),
                None => false,
            },
        },
        match given(opts, "search_engines"@, 0) {
            None => o.engines == SearchEngines::Auto,
            Some(v) => v.text == Some(
                match o.engines {
                    SearchEngines::Auto => "auto"@,
                    SearchEngines::Ddg => "ddg"@,
                    SearchEngines::Jina => "jina"@,
                },
            ),
        },
        name_follows(opts, "llm_model"@, o.llm_model),
        name_follows(opts, "planner_model"@, o.planner_model),
        match given(opts, "thinking_control"@, 0) {
            None => o.thinking_control is None,
            Some(v) => match v.text {
                Some(s) => o.thinking_control == thinking_named(s) && o.thinking_control is Some,
                None => false,
            },
        },
        match given(opts, "planner_thinking_control"@, 0) {
            None => o.planner_thinking_control is None,
            Some(v) => match v.text {
                Some(s) => o.planner_thinking_control == thinking_named(s)
                    && o.planner_thinking_control is Some,
                None => false,
            },
        },
{
    let p = lemma_accepted(index_of_options(fetch), opts, o);
    lemma_base(opts, p);
    lemma_complete(fetch);
    lemma_preset(index_of_options(fetch), opts, RunOptionsView::of_preset(p), o);
    lemma_choices_follow_the_request(index_of_options(fetch), opts, RunOptionsView::of_preset(p), o);
}

/// A count that is in the range of the option of this name.
pub open spec fn count_in_range(name: Seq<char>, n: int) -> bool {
    ||| name == "max_rounds"@ && 1 <= n <= 200
    ||| name == "max_barren_rounds"@ && 1 <= n <= 20
    ||| name == "queries_per_round"@ && 1 <= n <= 50
    ||| name == "results_per_query"@ && 1 <= n <= 100
    ||| name == "read_per_query"@ && 1 <= n <= 50
    ||| name == "concurrency"@ && 1 <= n <= 64
    ||| name == "max_questions_per_request"@ && 1 <= n <= 512
    ||| name == "enrich_batch"@ && 1 <= n <= 500
    ||| name == "enrich_read"@ && 1 <= n <= 20
    ||| name == "max_follow_per_page"@ && 0 <= n <= 100
    ||| name == "fetch_concurrency"@ && 1 <= n <= 64
    ||| name == "search_cache_ttl"@ && 0 <= n <= 604800
}

proof fn lemma_in_range(name: Seq<char>, n: int) -> (k: int)
    requires
        count_in_range(name, n),
    ensures
        0 < k < 31,
        entry(k).0 == name,
        entry(k).1 <= n <= entry(k).2,
{
    reveal(entry);
    if name == "max_rounds"@ && 1 <= n <= 200 {
        1
    } else if name == "max_barren_rounds"@ && 1 <= n <= 20 {
        7
    } else if name == "queries_per_round"@ && 1 <= n <= 50 {
        4
    } else if name == "results_per_query"@ && 1 <= n <= 100 {
        5
    } else if name == "read_per_query"@ && 1 <= n <= 50 {
        6
    } else if name == "concurrency"@ && 1 <= n <= 64 {
        9
    } else if name == "max_questions_per_request"@ && 1 <= n <= 512 {
        10
    } else if name == "enrich_batch"@ && 1 <= n <= 500 {
        18
    } else if name == "enrich_read"@ && 1 <= n <= 20 {
        19
    } else if name == "max_follow_per_page"@ && 0 <= n <= 100 {
        20
    } else if name == "fetch_concurrency"@ && 1 <= n <= 64 {
        8
    } else if name == "search_cache_ttl"@ && 0 <= n <= 604800 {
        26
    } else {
        0
    }
}

proof fn lemma_count_accepted(o: RunOptionsView, s: SpecView, v: ValueView, n: u64)
    requires
        count_in_range(s.name, n as int),
        v.whole == Some(n),
        whole_min(s) <= n <= whole_max(s),
    ensures
        stepped(o, s, v) is Ok,
        s.name != "preset"@,
{
    lemma_marks();
    reveal(stepped);
}

proof fn lemma_one_given(
    index: Seq<SpecView>,
    opts: Seq<(Seq<char>, ValueView)>,
    o: RunOptionsView,
    i: int,
    n: u64,
)
    requires
        0 <= i <= index.len(),
        opts.len() == 1,
        count_in_range(opts[0].0, n as int),
        opts[0].1.whole == Some(n),
        forall|k: int|
            0 <= k < index.len() && (#[trigger] index[k]).name == opts[0].0 ==> whole_min(index[k])
                <= n <= whole_max(index[k]),
    ensures
        outcome(index, opts, o, i) is Ok,
    decreases index.len() - i,
{
    lemma_outcome(index, opts, o, i);
    if i < index.len() {
        reveal_with_fuel(given, 2);
        if index[i].name == opts[0].0 {
            lemma_count_accepted(o, index[i], opts[0].1, n);
            lemma_one_given(index, opts, stepped(o, index[i], opts[0].1)->Ok_0, i + 1, n);
        } else {
            lemma_one_given(index, opts, o, i + 1, n);
        }
    }
}

proof fn lemma_one_accepted(
    index: Seq<SpecView>,
    opts: Seq<(Seq<char>, ValueView)>,
    at: int,
)
    requires
        opts.len() == 1,
        0 <= at < index.len(),
        index[at].name == opts[0].0,
        opts[0].0 != "preset"@,
        outcome(index, opts, RunOptionsView::of_preset(Preset::Standard), 0) is Ok,
    ensures
        folded(index, opts) is Ok,
{
    reveal(outcome);
    reveal_with_fuel(given, 2);
    reveal_with_fuel(not_offered, 2);
    assert(offered(index, opts[0].0));
    assert(not_offered(index, opts, 0).len() == 0);
    assert(not_offered(index, opts, 1).len() == 0);
    assert(given(opts, "preset"@, 0) is None);
}

/// A request that gives one count in its range is accepted.
pub proof fn law_a_count_in_range_is_accepted(fetch: usize, name: Seq<char>, v: ValueView, n: u64)
    requires
        count_in_range(name, n as int),
        v.whole == Some(n),
    ensures
        folded(index_of_options(fetch), seq![(name, v)]) is Ok,
{
    let index = index_of_options(fetch);
    let opts = seq![(name, v)];
    let k = lemma_in_range(name, n as int);
    lemma_complete(fetch);
    lemma_accepts(index, opts, k, n);
}

proof fn lemma_accepts(index: Seq<SpecView>, opts: Seq<(Seq<char>, ValueView)>, k: int, n: u64)
    requires
        complete(index),
        0 < k < 31,
        opts.len() == 1,
        entry(k).0 == opts[0].0,
        entry(k).1 <= n <= entry(k).2,
        count_in_range(opts[0].0, n as int),
        opts[0].1.whole == Some(n),
    ensures
        folded(index, opts) is Ok,
{
    reveal(complete);
    assert(has_entry(index, entry(k)));
    let at = choose|i: int| 0 <= i < index.len() && fits_entry(#[trigger] index[i], entry(k));
    assert forall|j: int| 0 <= j < index.len() && (#[trigger] index[j]).name == opts[0].0 implies whole_min(
        index[j],
    ) <= n <= whole_max(index[j]) by {
        if j < at {
            assert(index[j].name != index[at].name);
        }
        if at < j {
            assert(index[at].name != index[j].name);
        }
    }
    let base = RunOptionsView::of_preset(Preset::Standard);
    lemma_one_given(index, opts, base, 0, n);
    lemma_count_accepted(base, index[at], opts[0].1, n);
    lemma_one_accepted(index, opts, at);
}

/// An option of this name is offered with this default.
pub open spec fn offers(specs: Seq<SpecView>, name: Seq<char>, default: SettingView) -> bool {
    exists|i: int|
        0 <= i < specs.len() && (#[trigger] specs[i]).name == name && specs[i].default == default
}

/// What a form shows as an option's default is what a run has without the option: the standard
/// setting of that very name.
pub proof fn law_defaults_are_the_standard_settings(fetch: usize)
    ensures
        ({
            let t = Tunables::standard();
            let a = advanced_specs(fetch);
            &&& offers(a, "max_barren_rounds"@, SettingView::Whole(t.max_barren_rounds as int))
            &&& offers(a, "queries_per_round"@, SettingView::Whole(t.queries_per_round as int))
            &&& offers(a, "results_per_query"@, SettingView::Whole(t.results_per_query as int))
            &&& offers(a, "read_per_query"@, SettingView::Whole(t.read_per_query as int))
            &&& offers(a, "concurrency"@, SettingView::Whole(t.concurrency as int))
            &&& offers(a, "max_questions_per_request"@, SettingView::Whole(t.max_questions_per_request as int))
            &&& offers(a, "enrich_batch"@, SettingView::Whole(t.enrich_batch as int))
            &&& offers(a, "enrich_read"@, SettingView::Whole(t.enrich_read as int))
            &&& offers(a, "max_follow_per_page"@, SettingView::Whole(t.max_follow_per_page as int))
            &&& offers(a, "search_cache_ttl"@, SettingView::Whole(t.search_cache_ttl as int))
            &&& offers(a, "grounding_floor"@, SettingView::Number(t.grounding_floor))
            &&& offers(a, "constraint_floor"@, SettingView::Number(t.constraint_floor))
            &&& offers(a, "claim_floor"@, SettingView::Number(t.claim_floor))
            &&& offers(a, "currency_floor"@, SettingView::Number(t.currency_floor))
            &&& offers(a, "query_gate_floor"@, SettingView::Number(t.query_gate_floor))
            &&& offers(a, "follow_floor"@, SettingView::Number(t.follow_floor))
            &&& offers(a, "select_confidence"@, SettingView::Number(t.select_confidence))
            &&& offers(a, "no_plan"@, SettingView::Flag(false))
            &&& offers(a, "no_search_cache"@, SettingView::Flag(false))
            &&& offers(a, "no_follow"@, SettingView::Flag(false))
            &&& offers(a, "no_enrich"@, SettingView::Flag(false))
            &&& offers(a, "no_auto"@, SettingView::Flag(false))
            &&& offers(a, "fetch_concurrency"@, SettingView::Whole(fetch as int))
            &&& offers(basic_specs(), "max_rounds"@, SettingView::Whole(t.max_rounds as int))
            &&& offers(basic_specs(), "preset"@, SettingView::Text("standard"@))
            &&& offers(basic_specs(), "format"@, SettingView::Text("markdown"@))
            &&& offers(basic_specs(), "search_engines"@, SettingView::Text("auto"@))
        }),
{
    let t = Tunables::standard();
    let a = advanced_specs(fetch);
    let b = basic_specs();
    assert(a[0].name == "queries_per_round"@);
    assert(a[1].name == "results_per_query"@);
    assert(a[2].name == "read_per_query"@);
    assert(a[3].name == "max_barren_rounds"@);
    assert(a[4].name == "fetch_concurrency"@);
    assert(a[5].name == "concurrency"@);
    assert(a[6].name == "max_questions_per_request"@);
    assert(a[7].name == "grounding_floor"@);
    assert(a[8].name == "constraint_floor"@);
    assert(a[9].name == "claim_floor"@);
    assert(a[10].name == "currency_floor"@);
    assert(a[11].name == "query_gate_floor"@);
    assert(a[12].name == "follow_floor"@);
    assert(a[13].name == "select_confidence"@);
    assert(a[14].name == "enrich_batch"@);
    assert(a[15].name == "enrich_read"@);
    assert(a[16].name == "max_follow_per_page"@);
    assert(a[17].name == "no_plan"@);
    assert(a[18].name == "no_enrich"@);
    assert(a[19].name == "no_follow"@);
    assert(a[20].name == "no_auto"@);
    assert(a[21].name == "no_search_cache"@);
    assert(a[22].name == "search_cache_ttl"@);
    assert(a[23].name == "llm_model"@);
    assert(a[24].name == "planner_model"@);
    assert(a[25].name == "thinking_control"@);
    assert(a[26].name == "planner_thinking_control"@);
    assert(b[0].name == "preset"@);
    assert(b[1].name == "max_rounds"@);
    assert(b[2].name == "format"@);
    assert(b[3].name == "search_engines"@);
}

} // verus!
