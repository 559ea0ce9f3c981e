//! Search results from several engines as one ranked list.
use vstd::prelude::*;
use vstd::string::*;
use crate::scan::{blank, char_views, is_blank_str, split_words, words};
use crate::text::{byte_len, byte_length, copy_strings, has_text, str_eq, to_chars, views};
use crate::types::Hit;
use crate::urls::{canonical, canonical_url, title_identity, title_key, unwrap_redirect, unwrapped};

verus! {

/// A hit as a value.
pub struct HitView {
    pub title: Seq<char>,
    pub url: Seq<char>,
    pub snippet: Seq<char>,
    pub engines: Seq<Seq<char>>,
}

impl View for Hit {
    type V = HitView;

    open spec fn view(&self) -> HitView {
        HitView {
            title: self.title@,
            url: self.url@,
            snippet: self.snippet@,
            engines: views(self.engines@),
        }
    }
}

/// Hits as values.
pub open spec fn hits_view(v: Seq<Hit>) -> Seq<HitView> {
    Seq::new(v.len(), |i: int| v[i]@)
}

impl Hit {
    /// A copy of this hit.
    pub fn duplicate(&self) -> (r: Hit)
        ensures
            r@ == self@,
    {
        Hit {
            title: self.title.clone(),
            url: self.url.clone(),
            snippet: self.snippet.clone(),
            engines: copy_strings(&self.engines),
        }
    }
}

// ---------------------------------------------------------------- budget --

/// How many waves a batch needs: a zero concurrency reads as one, and there is
/// never less than one wave.
pub open spec fn waves(queries: nat, concurrency: nat) -> nat {
    let c = if concurrency == 0 {
        1
    } else {
        concurrency
    };
    let w = (queries + c - 1) as nat / c;
    if w == 0 {
        1
    } else {
        w
    }
}

/// A lane's deadline for one batch, in milliseconds: the per-wave deadline times
/// the number of waves the batch needs.
pub fn lane_budget(per_wave_ms: u64, queries: usize, concurrency: usize) -> (r: u64)
    requires
        per_wave_ms * waves(queries as nat, concurrency as nat) <= u64::MAX,
    ensures
        r == per_wave_ms * waves(queries as nat, concurrency as nat),
{
    let c: u128 = if concurrency == 0 {
        1
    } else {
        concurrency as u128
    };
    let whole: u128 = (queries as u128 + c - 1) / c;
    let n: u128 = if whole == 0 {
        1
    } else {
        whole
    };
    assert(n == waves(queries as nat, concurrency as nat));
    proof {
        assert(n <= queries as u128 + 1) by {
            vstd::arithmetic::div_mod::lemma_div_is_ordered_by_denominator(
                queries + c - 1,
                1,
                c as int,
            );
            if c >= 1 && queries > 0 {
                vstd::arithmetic::div_mod::lemma_fundamental_div_mod(queries + c - 1, c as int);
                assert((queries + c - 1) / c as int <= queries) by (nonlinear_arith)
                    requires
                        c >= 1,
                        queries >= 1,
                ;
            } else {
                vstd::arithmetic::div_mod::lemma_basic_div(c - 1, c as int);
            }
        }
        assert(per_wave_ms as u128 * n <= 0xFFFF_FFFF_FFFF_FFFF);
    }
    (per_wave_ms as u128 * n) as u64
}

// ----------------------------------------------------------------- dedupe --

/// The identities of these hits.
pub open spec fn keys_of(hits: Seq<HitView>) -> Seq<Seq<char>> {
    Seq::new(hits.len(), |i: int| canonical(hits[i].url))
}

/// The hits from the `k`-th on, added to `out`: redirects unwrapped, empty and
/// repeated ones dropped, up to the limit (0 is no limit).
pub open spec fn deduped_from(
    hits: Seq<HitView>,
    k: int,
    limit: nat,
    out: Seq<HitView>,
) -> Seq<HitView>
    decreases hits.len() - k,
{
    if k < 0 || k >= hits.len() {
        out
    } else {
        let hit = HitView { url: unwrapped(hits[k].url), ..hits[k] };
        if hit.url.len() == 0 || keys_of(out).contains(canonical(hit.url)) {
            deduped_from(hits, k + 1, limit, out)
        } else if limit > 0 && out.len() + 1 >= limit {
            out.push(hit)
        } else {
            deduped_from(hits, k + 1, limit, out.push(hit))
        }
    }
}

/// Unwrap redirects and drop duplicates, preserving rank order. Duplicates are
/// judged by the identity of the page, not by the raw address.
pub fn dedupe_hits(hits: &Vec<Hit>, limit: usize) -> (r: Vec<Hit>)
    ensures
        hits_view(r@) == deduped_from(hits_view(hits@), 0, limit as nat, Seq::empty()),
{
    let ghost all = hits_view(hits@);
    let mut out: Vec<Hit> = Vec::new();
    let mut seen: Vec<String> = Vec::new();
    let mut k: usize = 0;
    assert(hits_view(out@) =~= Seq::<HitView>::empty());
    assert(views(seen@) =~= keys_of(hits_view(out@)));
    while k < hits.len()
        invariant
            k <= hits@.len(),
            all == hits_view(hits@),
            out@.len() <= k,
            views(seen@) == keys_of(hits_view(out@)),
            deduped_from(all, k as int, limit as nat, hits_view(out@)) == deduped_from(
                all,
                0,
                limit as nat,
                Seq::empty(),
            ),
        decreases hits@.len() - k,
    {
        let url = unwrap_redirect(hits[k].url.as_str());
        let key = canonical_url(url.as_str());
        if url.as_str().unicode_len() == 0 || has_text(&seen, key.as_str()) {
            k += 1;
            continue;
        }
        let hit = Hit {
            title: hits[k].title.clone(),
            url,
            snippet: hits[k].snippet.clone(),
            engines: copy_strings(&hits[k].engines),
        };
        let ghost before = hits_view(out@);
        let ghost h = HitView { url: unwrapped(all[k as int].url), ..all[k as int] };
        let ghost seen_before = views(seen@);
        let ghost kv = key@;
        assert(hit@ == h);
        out.push(hit);
        seen.push(key);
        proof {
            assert(hits_view(out@) =~= before.push(h));
            assert(views(seen@) =~= seen_before.push(kv));
            assert(keys_of(before.push(h)) =~= keys_of(before).push(canonical(h.url)));
        }
        if limit > 0 && out.len() >= limit {
            return out;
        }
        k += 1;
    }
    out
}

/// No two hits that deduplication keeps are the same page, and there are no more
/// of them than the limit allows.
pub proof fn law_deduped_hits_are_distinct(
    hits: Seq<HitView>,
    k: int,
    limit: nat,
    out: Seq<HitView>,
)
    requires
        0 <= k,
        keys_of(out).no_duplicates(),
        limit > 0 ==> out.len() < limit,
    ensures
        keys_of(deduped_from(hits, k, limit, out)).no_duplicates(),
        limit > 0 ==> deduped_from(hits, k, limit, out).len() <= limit,
        out.is_prefix_of(deduped_from(hits, k, limit, out)),
    decreases hits.len() - k,
{
    if k < hits.len() {
        let hit = HitView { url: unwrapped(hits[k].url), ..hits[k] };
        if hit.url.len() == 0 || keys_of(out).contains(canonical(hit.url)) {
            law_deduped_hits_are_distinct(hits, k + 1, limit, out);
        } else {
            let next = out.push(hit);
            assert(keys_of(next) =~= keys_of(out).push(canonical(hit.url)));
            if !(limit > 0 && out.len() + 1 >= limit) {
                law_deduped_hits_are_distinct(hits, k + 1, limit, next);
            }
        }
    }
}

/// The hit at `k` at its own address.
pub open spec fn resolved(hits: Seq<HitView>, k: int) -> HitView {
    HitView { url: unwrapped(hits[k].url), ..hits[k] }
}

/// `out` came from these places of `hits`, in order, and every page with an address that
/// stands before such a place came out before it.
pub open spec fn picked(hits: Seq<HitView>, out: Seq<HitView>, places: Seq<int>) -> bool {
    &&& places.len() == out.len()
    &&& forall|i: int|
        0 <= i < places.len() ==> 0 <= #[trigger] places[i] < hits.len() && out[i] == resolved(
            hits,
            places[i],
        )
    &&& forall|i: int, j: int|
        0 <= i < j < places.len() ==> #[trigger] places[i] < #[trigger] places[j]
    &&& forall|i: int, j: int|
        0 <= i < places.len() && 0 <= j < #[trigger] places[i] && (#[trigger] resolved(
            hits,
            j,
        )).url.len() > 0 ==> keys_of(out.take(i)).contains(canonical(resolved(hits, j).url))
}

proof fn lemma_deduped(
    hits: Seq<HitView>,
    k: int,
    limit: nat,
    out: Seq<HitView>,
    at: Seq<int>,
) -> (places: Seq<int>)
    requires
        0 <= k <= hits.len(),
        limit > 0 ==> out.len() < limit,
        picked(hits, out, at),
        forall|i: int| 0 <= i < at.len() ==> #[trigger] at[i] < k,
        forall|j: int|
            0 <= j < k && (#[trigger] resolved(hits, j)).url.len() > 0 ==> keys_of(out).contains(
                canonical(resolved(hits, j).url),
            ),
    ensures
        picked(hits, deduped_from(hits, k, limit, out), places),
        forall|j: int|
            0 <= j < hits.len() && (#[trigger] resolved(hits, j)).url.len() > 0 && !keys_of(
                deduped_from(hits, k, limit, out),
            ).contains(canonical(resolved(hits, j).url)) ==> limit > 0 && places.len() == limit,
    decreases hits.len() - k,
{
    if k == hits.len() {
        at
    } else {
        let hit = resolved(hits, k);
        let key = canonical(hit.url);
        if hit.url.len() == 0 || keys_of(out).contains(key) {
            lemma_deduped(hits, k + 1, limit, out, at)
        } else {
            let next = out.push(hit);
            let more = at.push(k);
            assert(keys_of(next) =~= keys_of(out).push(key));
            assert forall|j: int|
                0 <= j < k + 1 && (#[trigger] resolved(hits, j)).url.len() > 0 implies keys_of(
                next,
            ).contains(canonical(resolved(hits, j).url)) by {
                if j < k {
                    let i = keys_of(out).index_of(canonical(resolved(hits, j).url));
                    assert(keys_of(next)[i] == keys_of(out)[i]);
                } else {
                    assert(keys_of(next)[out.len() as int] == key);
                }
            }
            assert forall|i: int, j: int|
                0 <= i < more.len() && 0 <= j < #[trigger] more[i] && (#[trigger] resolved(
                    hits,
                    j,
                )).url.len() > 0 implies keys_of(next.take(i)).contains(
                canonical(resolved(hits, j).url),
            ) by {
                if i < at.len() {
                    assert(more[i] == at[i]);
                    assert(next.take(i) =~= out.take(i));
                } else {
                    assert(next.take(i) =~= out);
                }
            }
            assert(picked(hits, next, more));
            if limit > 0 && out.len() + 1 >= limit {
                more
            } else {
                lemma_deduped(hits, k + 1, limit, next, more)
            }
        }
    }
}

/// Deduplication hands on the best ranked copy of every page until the limit is
/// reached, and nothing else: what it gives are given hits at their own addresses, in
/// the order they came, the first of each page; a page with an address is left out only
/// where the limit is full.
pub proof fn law_deduplication_leaves_out_only_what_it_must(hits: Seq<HitView>, limit: nat)
    ensures
        keys_of(deduped_from(hits, 0, limit, Seq::empty())).no_duplicates(),
        limit > 0 ==> deduped_from(hits, 0, limit, Seq::empty()).len() <= limit,
        exists|places: Seq<int>|
            #[trigger] picked(hits, deduped_from(hits, 0, limit, Seq::empty()), places),
        forall|j: int|
            0 <= j < hits.len() && unwrapped((#[trigger] hits[j]).url).len() > 0 && !keys_of(
                deduped_from(hits, 0, limit, Seq::empty()),
            ).contains(canonical(unwrapped(hits[j].url))) ==> limit > 0 && deduped_from(
                hits,
                0,
                limit,
                Seq::empty(),
            ).len() == limit,
{
    law_deduped_hits_are_distinct(hits, 0, limit, Seq::empty());
    let kept = deduped_from(hits, 0, limit, Seq::empty());
    let places = lemma_deduped(hits, 0, limit, Seq::empty(), Seq::empty());
    assert(picked(hits, kept, places));
    assert forall|j: int|
        0 <= j < hits.len() && unwrapped((#[trigger] hits[j]).url).len() > 0 && !keys_of(
            kept,
        ).contains(canonical(unwrapped(hits[j].url))) implies limit > 0 && kept.len() == limit by {
        assert(resolved(hits, j).url == unwrapped(hits[j].url));
    }
}

// ------------------------------------------------------------------ merge --

/// One page in the making: its best position, what is known of it, and its
/// identity.
pub struct SlotView {
    pub best: nat,
    pub hit: HitView,
    pub key: Seq<char>,
}

/// The pages so far, and the headlines they claimed.
pub struct MergeView {
    pub slots: Seq<SlotView>,
    pub titles: Seq<Seq<char>>,
}

/// The first slot from `i` on with this identity.
pub open spec fn slot_from(slots: Seq<SlotView>, key: Seq<char>, i: int) -> Option<int>
    decreases slots.len() - i,
{
    if i < 0 || i >= slots.len() {
        None
    } else if slots[i].key == key {
        Some(i)
    } else {
        slot_from(slots, key, i + 1)
    }
}

/// `a` with every engine of `b` that it lacks, in order.
pub open spec fn united(a: Seq<Seq<char>>, b: Seq<Seq<char>>) -> Seq<Seq<char>>
    decreases b.len(),
{
    if b.len() == 0 {
        a
    } else {
        let u = united(a, b.drop_last());
        if u.contains(b.last()) {
            u
        } else {
            u.push(b.last())
        }
    }
}

/// The same page seen again: the better position, the engines of both, the
/// longer snippet, and a title where there was none.
pub open spec fn absorbed(slot: SlotView, pos: nat, hit: HitView) -> SlotView {
    SlotView {
        best: if pos < slot.best {
            pos
        } else {
            slot.best
        },
        hit: HitView {
            title: if blank(slot.hit.title) && !blank(hit.title) {
                hit.title
            } else {
                slot.hit.title
            },
            url: slot.hit.url,
            snippet: if byte_len(hit.snippet) > byte_len(slot.hit.snippet) {
                hit.snippet
            } else {
                slot.hit.snippet
            },
            engines: united(slot.hit.engines, hit.engines),
        },
        key: slot.key,
    }
}

/// One more hit at position `pos` of its lane. A headline of four words or more
/// that another page claimed marks a syndicated copy.
pub open spec fn merge_step(m: MergeView, pos: nat, hit: HitView) -> MergeView {
    let key = canonical(hit.url);
    let tkey = title_identity(hit.title);
    if hit.url.len() == 0 {
        m
    } else {
        match slot_from(m.slots, key, 0) {
            Some(i) => MergeView {
                slots: m.slots.update(i, absorbed(m.slots[i], pos, hit)),
                titles: m.titles,
            },
            None => if words(tkey).len() >= 4 && m.titles.contains(tkey) {
                m
            } else {
                MergeView {
                    slots: m.slots.push(SlotView { best: pos, hit, key }),
                    titles: if tkey.len() > 0 {
                        m.titles.push(tkey)
                    } else {
                        m.titles
                    },
                }
            },
        }
    }
}

/// After the first `k` hits of a lane.
pub open spec fn merge_lane(m: MergeView, lane: Seq<HitView>, k: nat) -> MergeView
    decreases k,
{
    if k == 0 {
        m
    } else {
        merge_step(merge_lane(m, lane, (k - 1) as nat), (k - 1) as nat, lane[k - 1])
    }
}

/// After the first `n` lanes.
pub open spec fn merge_lanes(lanes: Seq<Seq<HitView>>, n: nat) -> MergeView
    decreases n,
{
    if n == 0 {
        MergeView { slots: Seq::empty(), titles: Seq::empty() }
    } else {
        merge_lane(merge_lanes(lanes, (n - 1) as nat), lanes[n - 1], lanes[n - 1].len())
    }
}

/// `a` ranks before `b`: a better position, or the same one and more engines.
pub open spec fn ranks_before(a: SlotView, b: SlotView) -> bool {
    a.best < b.best || (a.best == b.best && a.hit.engines.len() > b.hit.engines.len())
}

/// `x` put into a ranked list, behind everything it does not rank before.
pub open spec fn place(s: Seq<SlotView>, x: SlotView) -> Seq<SlotView>
    decreases s.len(),
{
    if s.len() == 0 || !ranks_before(x, s.last()) {
        s.push(x)
    } else {
        place(s.drop_last(), x).push(s.last())
    }
}

/// The slots by rank; equals keep their order.
pub open spec fn ranked(s: Seq<SlotView>) -> Seq<SlotView>
    decreases s.len(),
{
    if s.len() == 0 {
        s
    } else {
        place(ranked(s.drop_last()), s.last())
    }
}

/// The hits of these slots.
pub open spec fn slot_hits(s: Seq<SlotView>) -> Seq<HitView> {
    Seq::new(s.len(), |i: int| s[i].hit)
}

/// The first `limit` of them; 0 is no limit.
pub open spec fn limited(s: Seq<HitView>, limit: nat) -> Seq<HitView> {
    if limit > 0 && s.len() > limit {
        s.take(limit as int)
    } else {
        s
    }
}

pub open spec fn lanes_view(v: Seq<Vec<Hit>>) -> Seq<Seq<HitView>> {
    Seq::new(v.len(), |i: int| hits_view(v[i]@))
}

/// One query's hits from several lanes as one ranked list.
pub open spec fn merged_hits(lanes: Seq<Seq<HitView>>, limit: nat) -> Seq<HitView> {
    limited(slot_hits(ranked(merge_lanes(lanes, lanes.len()).slots)), limit)
}

struct Slot {
    best: usize,
    hit: Hit,
    key: String,
}

impl View for Slot {
    type V = SlotView;

    closed spec fn view(&self) -> SlotView {
        SlotView { best: self.best as nat, hit: self.hit@, key: self.key@ }
    }
}

spec fn slots_view(v: Seq<Slot>) -> Seq<SlotView> {
    Seq::new(v.len(), |i: int| v[i]@)
}

fn find_slot(slots: &Vec<Slot>, key: &str) -> (r: Option<usize>)
    ensures
        match r {
            Some(i) => i < slots@.len() && slot_from(slots_view(slots@), key@, 0) == Some(i as int),
            None => slot_from(slots_view(slots@), key@, 0) is None,
        },
{
    let mut i: usize = 0;
    while i < slots.len()
        invariant
            i <= slots@.len(),
            slot_from(slots_view(slots@), key@, i as int) == slot_from(
                slots_view(slots@),
                key@,
                0,
            ),
        decreases slots@.len() - i,
    {
        if str_eq(slots[i].key.as_str(), key) {
            return Some(i);
        }
        i += 1;
    }
    None
}

fn unite(a: &Vec<String>, b: &Vec<String>) -> (r: Vec<String>)
    ensures
        views(r@) == united(views(a@), views(b@)),
{
    let mut out = copy_strings(a);
    let mut i: usize = 0;
    assert(views(b@).take(0) =~= Seq::empty());
    while i < b.len()
        invariant
            i <= b@.len(),
            views(out@) == united(views(a@), views(b@).take(i as int)),
        decreases b@.len() - i,
    {
        let ghost before = views(out@);
        if !has_text(&out, b[i].as_str()) {
            out.push(b[i].clone());
            assert(views(out@) =~= before.push(b@[i as int]@));
        }
        i += 1;
        assert(views(b@).take(i as int).drop_last() =~= views(b@).take(i - 1));
    }
    assert(views(b@).take(i as int) =~= views(b@));
    out
}

fn absorb(slot: &Slot, pos: usize, hit: &Hit) -> (r: Slot)
    ensures
        r@ == absorbed(slot@, pos as nat, hit@),
{
    let title = if is_blank_str(slot.hit.title.as_str()) && !is_blank_str(hit.title.as_str()) {
        hit.title.clone()
    } else {
        slot.hit.title.clone()
    };
    let snippet = if byte_length(hit.snippet.as_str()) > byte_length(slot.hit.snippet.as_str()) {
        hit.snippet.clone()
    } else {
        slot.hit.snippet.clone()
    };
    Slot {
        best: if pos < slot.best {
            pos
        } else {
            slot.best
        },
        hit: Hit {
            title,
            url: slot.hit.url.clone(),
            snippet,
            engines: unite(&slot.hit.engines, &hit.engines),
        },
        key: slot.key.clone(),
    }
}

fn merge_one(slots: &mut Vec<Slot>, titles: &mut Vec<String>, pos: usize, hit: &Hit)
    ensures
        (MergeView { slots: slots_view(final(slots)@), titles: views(final(titles)@) })
            == merge_step(
            MergeView { slots: slots_view(old(slots)@), titles: views(old(titles)@) },
            pos as nat,
            hit@,
        ),
{
    if hit.url.as_str().unicode_len() == 0 {
        return;
    }
    let key = canonical_url(hit.url.as_str());
    let tkey = title_key(hit.title.as_str());
    match find_slot(slots, key.as_str()) {
        Some(i) => {
            let merged = absorb(&slots[i], pos, hit);
            let ghost before = slots_view(slots@);
            let ghost m = merged@;
            slots.set(i, merged);
            assert(slots_view(slots@) =~= before.update(i as int, m));
        },
        None => {
            let tchars = to_chars(tkey.as_str());
            let w = split_words(&tchars);
            assert(char_views(w@).len() == w@.len());
            if w.len() >= 4 && has_text(titles, tkey.as_str()) {
                return;
            }
            let ghost before = slots_view(slots@);
            let slot = Slot { best: pos, hit: hit.duplicate(), key };
            let ghost s = slot@;
            slots.push(slot);
            assert(slots_view(slots@) =~= before.push(s));
            if tkey.as_str().unicode_len() > 0 {
                let ghost tbefore = views(titles@);
                let ghost t = tkey@;
                titles.push(tkey);
                assert(views(titles@) =~= tbefore.push(t));
            }
        },
    }
}

fn rank_slots(slots: &Vec<Slot>) -> (r: Vec<usize>)
    ensures
        r@.len() == slots@.len(),
        forall|i: int| 0 <= i < r@.len() ==> #[trigger] r@[i] < slots@.len(),
        Seq::new(r@.len(), |i: int| slots_view(slots@)[r@[i] as int]) == ranked(
            slots_view(slots@),
        ),
{
    let ghost all = slots_view(slots@);
    let mut order: Vec<usize> = Vec::new();
    let mut i: usize = 0;
    assert(Seq::new(order@.len(), |k: int| all[order@[k] as int]) =~= ranked(all.take(0)));
    while i < slots.len()
        invariant
            i <= slots@.len(),
            all == slots_view(slots@),
            order@.len() == i,
            forall|k: int| 0 <= k < order@.len() ==> #[trigger] order@[k] < i,
            Seq::new(order@.len(), |k: int| all[order@[k] as int]) == ranked(all.take(i as int)),
        decreases slots@.len() - i,
    {
        let ghost before = Seq::new(order@.len(), |k: int| all[order@[k] as int]);
        let ghost x = all[i as int];
        let mut k: usize = order.len();
        assert(before.take(k as int) =~= before);
        assert(place(before.take(k as int), x) + before.subrange(k as int, before.len() as int)
            =~= place(before, x));
        while k > 0 && ranks_first(&slots[i], &slots[order[k - 1]])
            invariant
                k <= order@.len(),
                i < slots@.len(),
                all == slots_view(slots@),
                x == all[i as int],
                forall|j: int| 0 <= j < order@.len() ==> #[trigger] order@[j] < i,
                before == Seq::new(order@.len(), |j: int| all[order@[j] as int]),
                place(before.take(k as int), x) + before.subrange(k as int, before.len() as int)
                    == place(before, x),
            decreases k,
        {
            proof {
                let head = before.take(k as int);
                assert(head.drop_last() =~= before.take(k - 1));
                assert(place(head, x) == place(before.take(k - 1), x).push(head.last()));
                assert(place(before.take(k - 1), x).push(head.last()) + before.subrange(
                    k as int,
                    before.len() as int,
                ) =~= place(before.take(k - 1), x) + before.subrange(k - 1, before.len() as int));
            }
            k -= 1;
        }
        proof {
            let head = before.take(k as int);
            assert(place(head, x) == head.push(x));
        }
        let ghost old_order = order@;
        order.insert(k, i);
        i += 1;
        proof {
            let now = Seq::new(order@.len(), |j: int| all[order@[j] as int]);
            assert(now =~= before.take(k as int).push(x) + before.subrange(
                k as int,
                before.len() as int,
            ));
            assert(all.take(i as int).drop_last() =~= all.take(i - 1));
        }
    }
    assert(all.take(i as int) =~= all);
    order
}

fn ranks_first(a: &Slot, b: &Slot) -> (r: bool)
    ensures
        r == ranks_before(a@, b@),
{
    assert(a@.hit.engines.len() == a.hit.engines@.len());
    assert(b@.hit.engines.len() == b.hit.engines@.len());
    a.best < b.best || (a.best == b.best && a.hit.engines.len() > b.hit.engines.len())
}

/// Merge one query's hits from several lanes into one ranked list.
///
/// Identity is the page's. When two lanes return the same page the engines are
/// united, the best position wins, the longer snippet is kept and an empty title
/// is filled. A hit whose headline a different page already claimed is dropped.
pub fn merge_hits(per_lane: &Vec<Vec<Hit>>, limit: usize) -> (r: Vec<Hit>)
    ensures
        hits_view(r@) == merged_hits(lanes_view(per_lane@), limit as nat),
{
    let ghost lanes = lanes_view(per_lane@);
    let mut slots: Vec<Slot> = Vec::new();
    let mut titles: Vec<String> = Vec::new();
    let mut n: usize = 0;
    assert(slots_view(slots@) =~= Seq::empty());
    assert(views(titles@) =~= Seq::empty());
    while n < per_lane.len()
        invariant
            n <= per_lane@.len(),
            lanes == lanes_view(per_lane@),
            (MergeView { slots: slots_view(slots@), titles: views(titles@) }) == merge_lanes(
                lanes,
                n as nat,
            ),
        decreases per_lane@.len() - n,
    {
        let lane = &per_lane[n];
        let ghost start = merge_lanes(lanes, n as nat);
        let mut k: usize = 0;
        while k < lane.len()
            invariant
                k <= lane@.len(),
                n < per_lane@.len(),
                lane == per_lane@[n as int],
                lanes == lanes_view(per_lane@),
                (MergeView { slots: slots_view(slots@), titles: views(titles@) }) == merge_lane(
                    start,
                    lanes[n as int],
                    k as nat,
                ),
            decreases lane@.len() - k,
        {
            assert(lanes[n as int][k as int] == lane@[k as int]@);
            merge_one(&mut slots, &mut titles, k, &lane[k]);
            k += 1;
        }
        assert(lanes[n as int].len() == lane@.len());
        n += 1;
    }
    let order = rank_slots(&slots);
    let ghost all = slots_view(slots@);
    let ghost best = slot_hits(ranked(all));
    let count: usize = if limit > 0 && order.len() > limit {
        limit
    } else {
        order.len()
    };
    let mut out: Vec<Hit> = Vec::new();
    let mut i: usize = 0;
    while i < count
        invariant
            i <= count <= order@.len(),
            order@.len() == slots@.len(),
            all == slots_view(slots@),
            forall|j: int| 0 <= j < order@.len() ==> #[trigger] order@[j] < slots@.len(),
            Seq::new(order@.len(), |j: int| all[order@[j] as int]) == ranked(all),
            best == slot_hits(ranked(all)),
            hits_view(out@) == best.take(i as int),
        decreases count - i,
    {
        let hit = slots[order[i]].hit.duplicate();
        proof {
            assert(Seq::new(order@.len(), |j: int| all[order@[j] as int])[i as int]
                == all[order@[i as int] as int]);
            assert(best[i as int] == hit@);
        }
        let ghost h = hit@;
        let ghost before = hits_view(out@);
        out.push(hit);
        i += 1;
        assert(hits_view(out@) =~= before.push(h));
        assert(hits_view(out@) =~= best.take(i as int));
    }
    assert(best.len() == order@.len());
    assert(best.take(count as int) =~= limited(best, limit as nat));
    out
}

// ------------------------------------------------------------------- laws --

/// The identities of these slots.
pub open spec fn slot_keys(s: Seq<SlotView>) -> Seq<Seq<char>> {
    Seq::new(s.len(), |i: int| s[i].key)
}

/// Every slot stands for a page of its own.
pub open spec fn slots_distinct(s: Seq<SlotView>) -> bool {
    &&& slot_keys(s).no_duplicates()
    &&& forall|i: int|
        0 <= i < s.len() ==> (#[trigger] s[i]).key == canonical(s[i].hit.url) && s[i].hit.url.len()
            > 0
}

proof fn lemma_slot_from(slots: Seq<SlotView>, key: Seq<char>, i: int)
    requires
        0 <= i,
    ensures
        match slot_from(slots, key, i) {
            Some(k) => i <= k < slots.len() && slots[k].key == key,
            None => forall|k: int| i <= k < slots.len() ==> (#[trigger] slots[k]).key != key,
        },
    decreases slots.len() - i,
{
    if i < slots.len() && slots[i].key != key {
        lemma_slot_from(slots, key, i + 1);
    }
}

proof fn lemma_merge_step(m: MergeView, pos: nat, hit: HitView)
    requires
        slots_distinct(m.slots),
    ensures
        slots_distinct(merge_step(m, pos, hit).slots),
{
    let key = canonical(hit.url);
    let next = merge_step(m, pos, hit);
    if hit.url.len() > 0 {
        lemma_slot_from(m.slots, key, 0);
        match slot_from(m.slots, key, 0) {
            Some(i) => {
                assert(slot_keys(next.slots) =~= slot_keys(m.slots));
            },
            None => {
                if next.slots.len() > m.slots.len() {
                    assert(slot_keys(next.slots) =~= slot_keys(m.slots).push(key));
                    assert forall|k: int| 0 <= k < m.slots.len() implies slot_keys(m.slots)[k]
                        != key by {
                        assert(m.slots[k].key != key);
                    }
                }
            },
        }
    }
}

proof fn lemma_merge_lane(m: MergeView, lane: Seq<HitView>, k: nat)
    requires
        slots_distinct(m.slots),
    ensures
        slots_distinct(merge_lane(m, lane, k).slots),
    decreases k,
{
    if k > 0 {
        lemma_merge_lane(m, lane, (k - 1) as nat);
        lemma_merge_step(merge_lane(m, lane, (k - 1) as nat), (k - 1) as nat, lane[k - 1]);
    }
}

proof fn lemma_merge_lanes(lanes: Seq<Seq<HitView>>, n: nat)
    ensures
        slots_distinct(merge_lanes(lanes, n).slots),
    decreases n,
{
    if n > 0 {
        lemma_merge_lanes(lanes, (n - 1) as nat);
        lemma_merge_lane(
            merge_lanes(lanes, (n - 1) as nat),
            lanes[n - 1],
            lanes[n - 1].len(),
        );
    }
}

/// Nobody ranks before somebody who stands earlier.
pub open spec fn in_rank_order(s: Seq<SlotView>) -> bool {
    forall|i: int, j: int|
        0 <= i < j < s.len() ==> !ranks_before(#[trigger] s[j], #[trigger] s[i])
}

proof fn lemma_place(s: Seq<SlotView>, x: SlotView)
    requires
        in_rank_order(s),
    ensures
        in_rank_order(place(s, x)),
        place(s, x).to_multiset() == s.to_multiset().insert(x),
        forall|q: SlotView|
            (forall|i: int| 0 <= i < s.len() ==> !ranks_before(q, #[trigger] s[i]))
                && !ranks_before(q, x) ==> forall|i: int|
                0 <= i < place(s, x).len() ==> !ranks_before(q, #[trigger] place(s, x)[i]),
    decreases s.len(),
{
    broadcast use vstd::seq_lib::group_to_multiset_ensures;

    if s.len() == 0 || !ranks_before(x, s.last()) {
        let r = s.push(x);
        assert forall|i: int, j: int| 0 <= i < j < r.len() implies !ranks_before(
            #[trigger] r[j],
            #[trigger] r[i],
        ) by {
            if j == s.len() && i < s.len() - 1 {
                assert(!ranks_before(s[s.len() - 1], s[i]));
            }
        }
    } else {
        let h = s.drop_last();
        assert(in_rank_order(h)) by {
            assert forall|i: int, j: int| 0 <= i < j < h.len() implies !ranks_before(
                #[trigger] h[j],
                #[trigger] h[i],
            ) by {
                assert(h[i] == s[i] && h[j] == s[j]);
            }
        }
        lemma_place(h, x);
        let g = place(h, x);
        let r = g.push(s.last());
        assert forall|i: int| 0 <= i < h.len() implies !ranks_before(s.last(), #[trigger] h[i]) by {
            assert(!ranks_before(s[s.len() - 1], s[i]));
        }
        assert(!ranks_before(s.last(), x));
        assert forall|i: int, j: int| 0 <= i < j < r.len() implies !ranks_before(
            #[trigger] r[j],
            #[trigger] r[i],
        ) by {
            if j < g.len() {
                assert(r[i] == g[i] && r[j] == g[j]);
            } else {
                assert(r[i] == g[i]);
            }
        }
        assert(s =~= h.push(s.last()));
        assert(r.to_multiset() =~= s.to_multiset().insert(x));
        assert forall|q: SlotView|
            (forall|i: int| 0 <= i < s.len() ==> !ranks_before(q, #[trigger] s[i]))
                && !ranks_before(q, x) implies forall|i: int|
            0 <= i < r.len() ==> !ranks_before(q, #[trigger] r[i]) by {
            assert forall|i: int| 0 <= i < h.len() implies !ranks_before(q, #[trigger] h[i]) by {
                assert(!ranks_before(q, s[i]));
            }
            assert forall|i: int| 0 <= i < r.len() implies !ranks_before(q, #[trigger] r[i]) by {
                if i < g.len() {
                    assert(r[i] == g[i]);
                } else {
                    assert(!ranks_before(q, s[s.len() - 1]));
                }
            }
        }
    }
}

/// Ranking keeps every slot, and nobody ranks before somebody who stands earlier.
pub proof fn law_ranking_orders_the_same_slots(s: Seq<SlotView>)
    ensures
        in_rank_order(ranked(s)),
        ranked(s).to_multiset() == s.to_multiset(),
        ranked(s).len() == s.len(),
    decreases s.len(),
{
    broadcast use vstd::seq_lib::group_to_multiset_ensures;

    if s.len() > 0 {
        law_ranking_orders_the_same_slots(s.drop_last());
        lemma_place(ranked(s.drop_last()), s.last());
        assert(s =~= s.drop_last().push(s.last()));
    }
    assert(ranked(s).len() == ranked(s).to_multiset().len());
    assert(s.len() == s.to_multiset().len());
}

/// No two hits of a merge are the same page, none has an empty address, and there
/// are no more of them than the limit allows.
pub proof fn law_merged_hits_are_distinct(lanes: Seq<Seq<HitView>>, limit: nat)
    ensures
        keys_of(merged_hits(lanes, limit)).no_duplicates(),
        forall|i: int|
            0 <= i < merged_hits(lanes, limit).len() ==> (#[trigger] merged_hits(
                lanes,
                limit,
            )[i]).url.len() > 0,
        limit > 0 ==> merged_hits(lanes, limit).len() <= limit,
{
    broadcast use vstd::seq_lib::group_to_multiset_ensures;

    let s = merge_lanes(lanes, lanes.len()).slots;
    lemma_merge_lanes(lanes, lanes.len());
    law_ranking_orders_the_same_slots(s);
    let r = ranked(s);
    assert forall|i: int| 0 <= i < r.len() implies s.contains(#[trigger] r[i]) by {
        assert(r.to_multiset().count(r[i]) > 0);
    }
    assert(s.no_duplicates()) by {
        assert forall|i: int, j: int| 0 <= i < s.len() && 0 <= j < s.len() && i != j implies s[i]
            != s[j] by {
            assert(slot_keys(s)[i] != slot_keys(s)[j]);
        }
    }
    s.lemma_multiset_has_no_duplicates();
    r.lemma_multiset_has_no_duplicates_conv();
    let out = merged_hits(lanes, limit);
    assert forall|i: int, j: int|
        0 <= i < keys_of(out).len() && 0 <= j < keys_of(out).len() && i != j implies keys_of(out)[i]
        != keys_of(out)[j] by {
        assert(s.contains(r[i]) && s.contains(r[j]) && r[i] != r[j]);
        let a = choose|a: int| 0 <= a < s.len() && s[a] == r[i];
        let b = choose|b: int| 0 <= b < s.len() && s[b] == r[j];
        assert(slot_keys(s)[a] != slot_keys(s)[b]);
    }
    assert forall|i: int| 0 <= i < out.len() implies (#[trigger] out[i]).url.len() > 0 by {
        assert(s.contains(r[i]));
        let a = choose|a: int| 0 <= a < s.len() && s[a] == r[i];
        assert(s[a].hit.url.len() > 0);
    }
}

proof fn lemma_united(a: Seq<Seq<char>>, b: Seq<Seq<char>>)
    ensures
        forall|e: Seq<char>| #[trigger]
            united(a, b).contains(e) <==> a.contains(e) || b.contains(e),
    decreases b.len(),
{
    if b.len() > 0 {
        let h = b.drop_last();
        lemma_united(a, h);
        let u = united(a, h);
        assert forall|e: Seq<char>| #[trigger] united(a, b).contains(e) <==> a.contains(e)
            || b.contains(e) by {
            assert(u.contains(e) <==> a.contains(e) || h.contains(e));
            if b.contains(e) {
                let i = choose|i: int| 0 <= i < b.len() && b[i] == e;
                if i < h.len() {
                    assert(h[i] == e);
                }
            }
            if h.contains(e) {
                let i = choose|i: int| 0 <= i < h.len() && h[i] == e;
                assert(b[i] == e);
            }
            assert(b[b.len() - 1] == b.last());
            if !u.contains(b.last()) {
                let w = u.push(b.last());
                assert(w[u.len() as int] == b.last());
                if u.contains(e) {
                    let i = choose|i: int| 0 <= i < u.len() && u[i] == e;
                    assert(w[i] == e);
                }
                if w.contains(e) && e != b.last() {
                    let i = choose|i: int| 0 <= i < w.len() && w[i] == e;
                    assert(u[i] == e);
                }
            }
        }
    }
}

/// Seeing a page again only adds to what is known of it: its engines are those of
/// both, its position the better one, its snippet as long as the longer one, and it
/// has a title if either had one.
pub proof fn law_seeing_a_page_again_only_adds(slot: SlotView, pos: nat, hit: HitView)
    ensures
        ({
            let s = absorbed(slot, pos, hit);
            &&& s.key == slot.key
            &&& s.hit.url == slot.hit.url
            &&& s.best <= slot.best && s.best <= pos && (s.best == slot.best || s.best == pos)
            &&& forall|e: Seq<char>| #[trigger]
                s.hit.engines.contains(e) <==> slot.hit.engines.contains(e) || hit.engines.contains(
                    e,
                )
            &&& byte_len(s.hit.snippet) >= byte_len(slot.hit.snippet) && byte_len(s.hit.snippet)
                >= byte_len(hit.snippet)
            &&& blank(s.hit.title) <==> blank(slot.hit.title) && blank(hit.title)
        }),
{
    lemma_united(slot.hit.engines, hit.engines);
}

/// The first slot is that page, at the top of its lane, and no other is.
spec fn leads(s: Seq<SlotView>, key: Seq<char>) -> bool {
    &&& s.len() > 0
    &&& s[0].key == key
    &&& s[0].best == 0
    &&& forall|i: int| 0 < i < s.len() ==> (#[trigger] s[i]).best > 0
}

proof fn lemma_leads_step(m: MergeView, pos: nat, hit: HitView, key: Seq<char>)
    requires
        slots_distinct(m.slots),
        leads(m.slots, key),
        pos == 0 ==> canonical(hit.url) == key && hit.url.len() > 0,
    ensures
        leads(merge_step(m, pos, hit).slots, key),
{
    lemma_slot_from(m.slots, canonical(hit.url), 0);
    if pos == 0 {
        assert(slot_from(m.slots, key, 0) == Some(0int));
    }
}

proof fn lemma_leads_lane(m: MergeView, lane: Seq<HitView>, k: nat, key: Seq<char>)
    requires
        slots_distinct(m.slots),
        m.slots.len() == 0 || leads(m.slots, key),
        m.slots.len() == 0 ==> m.titles.len() == 0,
        0 < k <= lane.len(),
        canonical(lane[0].url) == key,
        lane[0].url.len() > 0,
    ensures
        leads(merge_lane(m, lane, k).slots, key),
    decreases k,
{
    reveal_with_fuel(merge_lane, 2);
    if k == 1 {
        if m.slots.len() == 0 {
            assert(slot_from(m.slots, key, 0) is None);
        } else {
            lemma_leads_step(m, 0, lane[0], key);
        }
    } else {
        let before = merge_lane(m, lane, (k - 1) as nat);
        lemma_leads_lane(m, lane, (k - 1) as nat, key);
        lemma_merge_lane(m, lane, (k - 1) as nat);
        lemma_leads_step(before, (k - 1) as nat, lane[k - 1], key);
    }
}

proof fn lemma_leads_lanes(lanes: Seq<Seq<HitView>>, n: nat, key: Seq<char>)
    requires
        n <= lanes.len(),
        forall|i: int|
            0 <= i < lanes.len() ==> (#[trigger] lanes[i]).len() > 0 && canonical(lanes[i][0].url)
                == key && lanes[i][0].url.len() > 0,
    ensures
        n == 0 ==> merge_lanes(lanes, n).slots.len() == 0 && merge_lanes(lanes, n).titles.len()
            == 0,
        n > 0 ==> leads(merge_lanes(lanes, n).slots, key),
    decreases n,
{
    if n > 0 {
        lemma_leads_lanes(lanes, (n - 1) as nat, key);
        lemma_merge_lanes(lanes, (n - 1) as nat);
        assert(lanes[n - 1].len() > 0);
        lemma_leads_lane(
            merge_lanes(lanes, (n - 1) as nat),
            lanes[n - 1],
            lanes[n - 1].len(),
            key,
        );
    }
}

proof fn lemma_place_keeps_first(s: Seq<SlotView>, x: SlotView)
    requires
        s.len() > 0,
        s[0].best == 0,
        x.best > 0,
    ensures
        place(s, x).len() > 0,
        place(s, x)[0] == s[0],
    decreases s.len(),
{
    if ranks_before(x, s.last()) {
        if s.len() > 1 {
            lemma_place_keeps_first(s.drop_last(), x);
        }
    }
}

proof fn lemma_ranked_keeps_leader(s: Seq<SlotView>, key: Seq<char>)
    requires
        leads(s, key),
    ensures
        ranked(s).len() > 0,
        ranked(s)[0] == s[0],
    decreases s.len(),
{
    if s.len() == 1 {
        assert(s.drop_last().len() == 0);
        assert(ranked(s.drop_last()).len() == 0);
    } else {
        let h = s.drop_last();
        assert forall|i: int| 0 < i < h.len() implies (#[trigger] h[i]).best > 0 by {
            assert(h[i] == s[i]);
        }
        lemma_ranked_keeps_leader(h, key);
        assert(s[s.len() - 1].best > 0);
        lemma_place_keeps_first(ranked(h), s.last());
    }
}

/// A page that every lane ranks first stays first.
pub proof fn law_a_unanimous_first_stays_first(
    lanes: Seq<Seq<HitView>>,
    limit: nat,
    key: Seq<char>,
)
    requires
        lanes.len() > 0,
        forall|i: int|
            0 <= i < lanes.len() ==> (#[trigger] lanes[i]).len() > 0 && canonical(lanes[i][0].url)
                == key && lanes[i][0].url.len() > 0,
    ensures
        merged_hits(lanes, limit).len() > 0,
        canonical(merged_hits(lanes, limit)[0].url) == key,
{
    let s = merge_lanes(lanes, lanes.len()).slots;
    lemma_leads_lanes(lanes, lanes.len(), key);
    lemma_merge_lanes(lanes, lanes.len());
    lemma_ranked_keeps_leader(s, key);
    assert(s[0].key == canonical(s[0].hit.url));
}

/// A hit as its lane ranks it.
pub struct Sighting {
    pub pos: nat,
    pub hit: HitView,
}

/// The first `k` hits of a lane, each with its position.
pub open spec fn lane_sightings(lane: Seq<HitView>, k: nat) -> Seq<Sighting> {
    Seq::new(k, |i: int| Sighting { pos: i as nat, hit: lane[i] })
}

/// The hits of the first `n` lanes, lane by lane.
pub open spec fn sightings(lanes: Seq<Seq<HitView>>, n: nat) -> Seq<Sighting>
    decreases n,
{
    if n == 0 {
        Seq::empty()
    } else {
        sightings(lanes, (n - 1) as nat) + lane_sightings(lanes[n - 1], lanes[n - 1].len())
    }
}

/// The hit is of this page.
pub open spec fn shows(x: Sighting, key: Seq<char>) -> bool {
    x.hit.url.len() > 0 && canonical(x.hit.url) == key
}

/// A slot holds what these hits say of its page: the address seen first, the best
/// position, the engines of all, a longest snippet, and a title if any had one.
pub open spec fn gathered(slot: SlotView, s: Seq<Sighting>) -> bool {
    &&& exists|i: int|
        0 <= i < s.len() && shows(#[trigger] s[i], slot.key) && s[i].hit.url == slot.hit.url
            && forall|j: int| 0 <= j < i ==> !shows(#[trigger] s[j], slot.key)
    &&& exists|i: int|
        0 <= i < s.len() && shows(#[trigger] s[i], slot.key) && s[i].pos == slot.best
    &&& exists|i: int|
        0 <= i < s.len() && shows(#[trigger] s[i], slot.key) && s[i].hit.snippet
            == slot.hit.snippet
    &&& exists|i: int|
        0 <= i < s.len() && shows(#[trigger] s[i], slot.key) && s[i].hit.title == slot.hit.title
    &&& forall|i: int|
        0 <= i < s.len() && shows(#[trigger] s[i], slot.key) ==> slot.best <= s[i].pos && byte_len(
            s[i].hit.snippet,
        ) <= byte_len(slot.hit.snippet) && (blank(slot.hit.title) ==> blank(s[i].hit.title))
    &&& forall|e: Seq<char>| #[trigger]
        slot.hit.engines.contains(e) <==> exists|i: int|
            0 <= i < s.len() && shows(#[trigger] s[i], slot.key) && s[i].hit.engines.contains(e)
}

/// No two pages share a headline that would mark a syndicated copy.
pub open spec fn unsyndicated(s: Seq<Sighting>) -> bool {
    forall|i: int, j: int|
        0 <= i < s.len() && 0 <= j < s.len() && s[i].hit.url.len() > 0 && s[j].hit.url.len() > 0
            && words(title_identity(s[i].hit.title)).len() >= 4 && title_identity(s[i].hit.title)
            == title_identity(s[j].hit.title) ==> canonical((#[trigger] s[i]).hit.url) == canonical(
            (#[trigger] s[j]).hit.url,
        )
}

/// The merge so far has one slot for each page of these hits, and its headlines are
/// theirs.
spec fn tells(m: MergeView, s: Seq<Sighting>) -> bool {
    &&& slots_distinct(m.slots)
    &&& forall|k: int| 0 <= k < m.slots.len() ==> gathered(#[trigger] m.slots[k], s)
    &&& forall|i: int|
        0 <= i < s.len() && (#[trigger] s[i]).hit.url.len() > 0 ==> slot_keys(m.slots).contains(
            canonical(s[i].hit.url),
        )
    &&& forall|t: Seq<char>| #[trigger]
        m.titles.contains(t) ==> exists|i: int|
            0 <= i < s.len() && (#[trigger] s[i]).hit.url.len() > 0 && title_identity(
                s[i].hit.title,
            ) == t
}

/// A hit of another page leaves a slot as it is.
proof fn lemma_gathered_other(slot: SlotView, s: Seq<Sighting>, x: Sighting)
    requires
        gathered(slot, s),
        !shows(x, slot.key),
    ensures
        gathered(slot, s.push(x)),
{
    let t = s.push(x);
    let key = slot.key;
    let a = choose|i: int|
        0 <= i < s.len() && shows(#[trigger] s[i], key) && s[i].hit.url == slot.hit.url
            && forall|j: int| 0 <= j < i ==> !shows(#[trigger] s[j], key);
    assert(t[a] == s[a]);
    assert forall|j: int| 0 <= j < a implies !shows(#[trigger] t[j], key) by {
        assert(t[j] == s[j]);
    }
    let b = choose|i: int|
        0 <= i < s.len() && shows(#[trigger] s[i], key) && s[i].pos == slot.best;
    assert(t[b] == s[b]);
    let c = choose|i: int|
        0 <= i < s.len() && shows(#[trigger] s[i], key) && s[i].hit.snippet == slot.hit.snippet;
    assert(t[c] == s[c]);
    let d = choose|i: int|
        0 <= i < s.len() && shows(#[trigger] s[i], key) && s[i].hit.title == slot.hit.title;
    assert(t[d] == s[d]);
    assert forall|i: int| 0 <= i < t.len() && shows(#[trigger] t[i], key) implies slot.best
        <= t[i].pos && byte_len(t[i].hit.snippet) <= byte_len(slot.hit.snippet) && (blank(
        slot.hit.title,
    ) ==> blank(t[i].hit.title)) by {
        assert(i < s.len());
        assert(t[i] == s[i]);
    }
    assert forall|e: Seq<char>| #[trigger] slot.hit.engines.contains(e) <==> exists|i: int|
        0 <= i < t.len() && shows(#[trigger] t[i], key) && t[i].hit.engines.contains(e) by {
        if slot.hit.engines.contains(e) {
            let i = choose|i: int|
                0 <= i < s.len() && shows(#[trigger] s[i], key) && s[i].hit.engines.contains(e);
            assert(t[i] == s[i]);
        }
        if exists|i: int|
            0 <= i < t.len() && shows(#[trigger] t[i], key) && t[i].hit.engines.contains(e) {
            let i = choose|i: int|
                0 <= i < t.len() && shows(#[trigger] t[i], key) && t[i].hit.engines.contains(e);
            assert(t[i] == s[i]);
        }
    }
}

/// A hit of the same page is absorbed.
proof fn lemma_gathered_again(slot: SlotView, s: Seq<Sighting>, x: Sighting)
    requires
        gathered(slot, s),
        shows(x, slot.key),
    ensures
        gathered(absorbed(slot, x.pos, x.hit), s.push(x)),
{
    let t = s.push(x);
    let key = slot.key;
    let n = s.len() as int;
    let new = absorbed(slot, x.pos, x.hit);
    law_seeing_a_page_again_only_adds(slot, x.pos, x.hit);
    assert(t[n] == x);
    let a = choose|i: int|
        0 <= i < s.len() && shows(#[trigger] s[i], key) && s[i].hit.url == slot.hit.url
            && forall|j: int| 0 <= j < i ==> !shows(#[trigger] s[j], key);
    assert(t[a] == s[a]);
    assert forall|j: int| 0 <= j < a implies !shows(#[trigger] t[j], key) by {
        assert(t[j] == s[j]);
    }
    let b = choose|i: int|
        0 <= i < s.len() && shows(#[trigger] s[i], key) && s[i].pos == slot.best;
    assert(t[b] == s[b]);
    let c = choose|i: int|
        0 <= i < s.len() && shows(#[trigger] s[i], key) && s[i].hit.snippet == slot.hit.snippet;
    assert(t[c] == s[c]);
    let d = choose|i: int|
        0 <= i < s.len() && shows(#[trigger] s[i], key) && s[i].hit.title == slot.hit.title;
    assert(t[d] == s[d]);
    assert forall|i: int| 0 <= i < t.len() && shows(#[trigger] t[i], key) implies new.best
        <= t[i].pos && byte_len(t[i].hit.snippet) <= byte_len(new.hit.snippet) && (blank(
        new.hit.title,
    ) ==> blank(t[i].hit.title)) by {
        if i < n {
            assert(t[i] == s[i]);
        }
    }
    assert forall|e: Seq<char>| #[trigger] new.hit.engines.contains(e) <==> exists|i: int|
        0 <= i < t.len() && shows(#[trigger] t[i], key) && t[i].hit.engines.contains(e) by {
        if slot.hit.engines.contains(e) {
            let i = choose|i: int|
                0 <= i < s.len() && shows(#[trigger] s[i], key) && s[i].hit.engines.contains(e);
            assert(t[i] == s[i]);
        }
        if exists|i: int|
            0 <= i < t.len() && shows(#[trigger] t[i], key) && t[i].hit.engines.contains(e) {
            let i = choose|i: int|
                0 <= i < t.len() && shows(#[trigger] t[i], key) && t[i].hit.engines.contains(e);
            if i < n {
                assert(t[i] == s[i]);
                assert(slot.hit.engines.contains(e));
            }
        }
    }
}

/// A page that no hit showed before starts from its first one.
proof fn lemma_gathered_first(s: Seq<Sighting>, x: Sighting)
    requires
        x.hit.url.len() > 0,
        forall|i: int| 0 <= i < s.len() ==> !shows(#[trigger] s[i], canonical(x.hit.url)),
    ensures
        gathered(SlotView { best: x.pos, hit: x.hit, key: canonical(x.hit.url) }, s.push(x)),
{
    let t = s.push(x);
    let key = canonical(x.hit.url);
    let n = s.len() as int;
    assert(t[n] == x && shows(t[n], key));
    assert forall|j: int| 0 <= j < n implies !shows(#[trigger] t[j], key) by {
        assert(t[j] == s[j]);
    }
}

proof fn lemma_tells_step(m: MergeView, s: Seq<Sighting>, x: Sighting)
    requires
        tells(m, s),
        unsyndicated(s.push(x)),
    ensures
        tells(merge_step(m, x.pos, x.hit), s.push(x)),
{
    let t = s.push(x);
    let n = s.len() as int;
    let key = canonical(x.hit.url);
    let tkey = title_identity(x.hit.title);
    let next = merge_step(m, x.pos, x.hit);
    lemma_merge_step(m, x.pos, x.hit);
    lemma_slot_from(m.slots, key, 0);
    assert(t[n] == x);
    let at = slot_from(m.slots, key, 0);
    if x.hit.url.len() > 0 && at is None {
        assert forall|i: int| 0 <= i < s.len() implies !shows(#[trigger] s[i], key) by {
            if shows(s[i], key) {
                let k = choose|k: int| 0 <= k < m.slots.len() && slot_keys(m.slots)[k] == key;
                assert(m.slots[k].key == key);
            }
        }
        if words(tkey).len() >= 4 && m.titles.contains(tkey) {
            let i = choose|i: int|
                0 <= i < s.len() && (#[trigger] s[i]).hit.url.len() > 0 && title_identity(
                    s[i].hit.title,
                ) == tkey;
            assert(t[i] == s[i]);
            assert(canonical(t[i].hit.url) == canonical(t[n].hit.url));
            assert(shows(s[i], key));
        }
        lemma_gathered_first(s, x);
    }
    assert forall|k: int| 0 <= k < next.slots.len() implies gathered(#[trigger] next.slots[k], t) by {
        if k < m.slots.len() {
            if x.hit.url.len() > 0 && m.slots[k].key == key {
                assert(at is Some);
                assert(slot_keys(m.slots)[at->0] == slot_keys(m.slots)[k]);
                assert(k == at->0);
                lemma_gathered_again(m.slots[k], s, x);
            } else {
                lemma_gathered_other(m.slots[k], s, x);
            }
        }
    }
    assert forall|i: int| 0 <= i < t.len() && (#[trigger] t[i]).hit.url.len() > 0 implies slot_keys(
        next.slots,
    ).contains(canonical(t[i].hit.url)) by {
        if i < n {
            assert(t[i] == s[i]);
            let k = choose|k: int|
                0 <= k < m.slots.len() && slot_keys(m.slots)[k] == canonical(s[i].hit.url);
            assert(slot_keys(next.slots)[k] == m.slots[k].key);
        } else {
            match at {
                Some(k) => {
                    assert(slot_keys(next.slots)[k] == key);
                },
                None => {
                    assert(slot_keys(next.slots)[m.slots.len() as int] == key);
                },
            }
        }
    }
    assert forall|q: Seq<char>| #[trigger] next.titles.contains(q) implies exists|i: int|
        0 <= i < t.len() && (#[trigger] t[i]).hit.url.len() > 0 && title_identity(t[i].hit.title)
            == q by {
        if m.titles.contains(q) {
            let i = choose|i: int|
                0 <= i < s.len() && (#[trigger] s[i]).hit.url.len() > 0 && title_identity(
                    s[i].hit.title,
                ) == q;
            assert(t[i] == s[i]);
        } else {
            let j = choose|j: int| 0 <= j < next.titles.len() && next.titles[j] == q;
            if j < m.titles.len() {
                assert(m.titles[j] == q);
            }
            assert(title_identity(t[n].hit.title) == q);
        }
    }
}

proof fn lemma_tells_lane(m: MergeView, s: Seq<Sighting>, lane: Seq<HitView>, k: nat)
    requires
        tells(m, s),
        k <= lane.len(),
        unsyndicated(s + lane_sightings(lane, k)),
    ensures
        tells(merge_lane(m, lane, k), s + lane_sightings(lane, k)),
    decreases k,
{
    let all = s + lane_sightings(lane, k);
    if k == 0 {
        assert(all =~= s);
    } else {
        let j = (k - 1) as nat;
        let before = s + lane_sightings(lane, j);
        let x = Sighting { pos: j, hit: lane[k - 1] };
        assert(all =~= before.push(x));
        assert(unsyndicated(before)) by {
            assert forall|a: int| 0 <= a < before.len() implies before[a] == all[a] by {}
        }
        lemma_tells_lane(m, s, lane, j);
        lemma_tells_step(merge_lane(m, lane, j), before, x);
    }
}

proof fn lemma_tells_lanes(lanes: Seq<Seq<HitView>>, n: nat)
    requires
        unsyndicated(sightings(lanes, n)),
    ensures
        tells(merge_lanes(lanes, n), sightings(lanes, n)),
    decreases n,
{
    if n > 0 {
        let j = (n - 1) as nat;
        let all = sightings(lanes, n);
        let before = sightings(lanes, j);
        assert(unsyndicated(before)) by {
            assert forall|a: int| 0 <= a < before.len() implies before[a] == all[a] by {}
        }
        lemma_tells_lanes(lanes, j);
        lemma_tells_lane(merge_lanes(lanes, j), before, lanes[n - 1], lanes[n - 1].len());
    }
}

/// Where no headline marks a syndicated copy, a merge gives every page of its lanes
/// once and no other, each with all that its hits say of it, by the best position that
/// a lane gave it, and by the number of its engines where that is equal; a limit keeps
/// the first ones.
pub proof fn law_a_merge_gathers_every_page_once(lanes: Seq<Seq<HitView>>, limit: nat)
    requires
        unsyndicated(sightings(lanes, lanes.len())),
    ensures
        ({
            let all = sightings(lanes, lanes.len());
            let slots = ranked(merge_lanes(lanes, lanes.len()).slots);
            &&& merged_hits(lanes, limit) == limited(slot_hits(slots), limit)
            &&& keys_of(slot_hits(slots)).no_duplicates()
            &&& in_rank_order(slots)
            &&& forall|k: int|
                0 <= k < slots.len() ==> gathered(#[trigger] slots[k], all) && slots[k].key
                    == canonical(slots[k].hit.url)
            &&& forall|i: int|
                0 <= i < all.len() && (#[trigger] all[i]).hit.url.len() > 0 ==> keys_of(
                    slot_hits(slots),
                ).contains(canonical(all[i].hit.url))
        }),
{
    broadcast use vstd::seq_lib::group_to_multiset_ensures;

    let all = sightings(lanes, lanes.len());
    let m = merge_lanes(lanes, lanes.len()).slots;
    let slots = ranked(m);
    lemma_tells_lanes(lanes, lanes.len());
    law_ranking_orders_the_same_slots(m);
    law_merged_hits_are_distinct(lanes, 0);
    assert forall|k: int| 0 <= k < slots.len() implies gathered(#[trigger] slots[k], all)
        && slots[k].key == canonical(slots[k].hit.url) by {
        assert(slots.to_multiset().count(slots[k]) > 0);
        assert(m.contains(slots[k]));
        let j = choose|j: int| 0 <= j < m.len() && m[j] == slots[k];
        assert(gathered(m[j], all));
    }
    assert forall|i: int| 0 <= i < all.len() && (#[trigger] all[i]).hit.url.len() > 0 implies keys_of(
        slot_hits(slots),
    ).contains(canonical(all[i].hit.url)) by {
        let j = choose|j: int|
            0 <= j < m.len() && slot_keys(m)[j] == canonical(all[i].hit.url);
        assert(m.to_multiset().count(m[j]) > 0);
        assert(slots.contains(m[j]));
        let k = choose|k: int| 0 <= k < slots.len() && slots[k] == m[j];
        assert(keys_of(slot_hits(slots))[k] == canonical(slots[k].hit.url));
    }
}

/// Merging nothing gives nothing.
pub proof fn lemma_merging_nothing(limit: nat)
    ensures
        merged_hits(Seq::<Seq<HitView>>::empty(), limit) =~= Seq::<HitView>::empty(),
{
}

proof fn lemma_filter_push(s: Seq<SlotView>, x: SlotView, f: spec_fn(SlotView) -> bool)
    ensures
        s.push(x).filter(f) == (if f(x) {
            s.filter(f).push(x)
        } else {
            s.filter(f)
        }),
{
    reveal(Seq::filter);
    assert(s.push(x).drop_last() =~= s);
}

proof fn lemma_place_stable(s: Seq<SlotView>, x: SlotView, best: nat, engines: nat)
    requires
        in_rank_order(s),
    ensures
        ({
            let f = |y: SlotView| y.best == best && y.hit.engines.len() == engines;
            place(s, x).filter(f) == s.push(x).filter(f)
        }),
    decreases s.len(),
{
    let f = |y: SlotView| y.best == best && y.hit.engines.len() == engines;
    if s.len() == 0 || !ranks_before(x, s.last()) {
    } else {
        let t = s.drop_last();
        assert(in_rank_order(t)) by {
            assert forall|i: int, j: int| 0 <= i < j < t.len() implies !ranks_before(
                #[trigger] t[j],
                #[trigger] t[i],
            ) by {
                assert(t[i] == s[i] && t[j] == s[j]);
            }
        }
        lemma_place_stable(t, x, best, engines);
        lemma_filter_push(place(t, x), s.last(), f);
        lemma_filter_push(t, x, f);
        assert(s =~= t.push(s.last()));
        lemma_filter_push(t, s.last(), f);
        lemma_filter_push(s, x, f);
    }
}

/// A merge is ranked by the best position that any lane gave a page, then by how many engines
/// found it; pages that are equal in both keep the order in which they were first seen.
pub proof fn law_better_positions_come_first(s: Seq<SlotView>, best: nat, engines: nat)
    ensures
        forall|i: int, j: int|
            0 <= i < j < s.len() ==> (#[trigger] ranked(s)[i]).best <= (#[trigger] ranked(
                s,
            )[j]).best,
        forall|i: int, j: int|
            0 <= i < j < s.len() && (#[trigger] ranked(s)[i]).best == (#[trigger] ranked(s)[j]).best
                ==> ranked(s)[i].hit.engines.len() >= ranked(s)[j].hit.engines.len(),
        ({
            let equal = |y: SlotView| y.best == best && y.hit.engines.len() == engines;
            ranked(s).filter(equal) == s.filter(equal)
        }),
    decreases s.len(),
{
    law_ranking_orders_the_same_slots(s);
    assert forall|i: int, j: int| 0 <= i < j < s.len() implies (#[trigger] ranked(s)[i]).best <= (
    #[trigger] ranked(s)[j]).best && (ranked(s)[i].best == ranked(s)[j].best ==> ranked(
        s,
    )[i].hit.engines.len() >= ranked(s)[j].hit.engines.len()) by {
        assert(!ranks_before(ranked(s)[j], ranked(s)[i]));
    }
    let equal = |y: SlotView| y.best == best && y.hit.engines.len() == engines;
    if s.len() > 0 {
        let t = s.drop_last();
        law_better_positions_come_first(t, best, engines);
        law_ranking_orders_the_same_slots(t);
        lemma_place_stable(ranked(t), s.last(), best, engines);
        lemma_filter_push(ranked(t), s.last(), equal);
        lemma_filter_push(t, s.last(), equal);
        assert(s =~= t.push(s.last()));
    }
}

/// A limit cuts a merge and does nothing else: what it gives are the first hits of the merge
/// without a limit, as many as the limit or all of them.
pub proof fn law_a_limit_keeps_the_first_hits(lanes: Seq<Seq<HitView>>, limit: nat)
    ensures
        merged_hits(lanes, limit).is_prefix_of(merged_hits(lanes, 0)),
        merged_hits(lanes, 0).len() == merge_lanes(lanes, lanes.len()).slots.len(),
        merged_hits(lanes, limit).len() == (if limit == 0 || merged_hits(lanes, 0).len() < limit {
            merged_hits(lanes, 0).len()
        } else {
            limit
        }),
{
    law_ranking_orders_the_same_slots(merge_lanes(lanes, lanes.len()).slots);
}

/// A page under a headline of four words or more that another page of the merge already has
/// is a syndicated copy and is left out; under a shorter headline, or another one, both pages
/// are kept.
pub proof fn law_syndicated_copies_are_left_out(a: HitView, b: HitView)
    requires
        a.url.len() > 0,
        b.url.len() > 0,
        canonical(a.url) != canonical(b.url),
    ensures
        title_identity(a.title) == title_identity(b.title) && words(title_identity(a.title)).len()
            >= 4 ==> merged_hits(seq![seq![a, b]], 0) == seq![a],
        title_identity(a.title) != title_identity(b.title) || words(title_identity(a.title)).len()
            < 4 ==> merged_hits(seq![seq![a, b]], 0) == seq![a, b],
{
    let lane = seq![a, b];
    let lanes = seq![lane];
    assert(lanes[0] == lane && lane[0] == a && lane[1] == b);
    reveal_with_fuel(merge_lanes, 2);
    reveal_with_fuel(merge_lane, 3);
    reveal_with_fuel(slot_from, 2);
    let none = MergeView { slots: Seq::empty(), titles: Seq::empty() };
    assert(merge_lanes(lanes, 0) == none);
    let x = SlotView { best: 0, hit: a, key: canonical(a.url) };
    let y = SlotView { best: 1, hit: b, key: canonical(b.url) };
    let one = merge_step(none, 0, a);
    assert(one.slots =~= seq![x]);
    let ka = title_identity(a.title);
    let kb = title_identity(b.title);
    if ka.len() > 0 {
        assert(one.titles =~= seq![ka]);
        assert(seq![ka][0] == ka);
    } else {
        assert(one.titles =~= Seq::<Seq<char>>::empty());
    }
    let two = merge_step(one, 1, b);
    assert(slot_from(one.slots, canonical(b.url), 0) is None);
    assert(merge_lanes(lanes, 1) == two);
    reveal_with_fuel(ranked, 3);
    reveal_with_fuel(place, 3);
    if ka == kb && words(ka).len() >= 4 {
        if ka.len() == 0 {
            reveal_with_fuel(crate::scan::words_from, 2);
            assert(words(ka).len() == 0);
        }
        assert(two == one);
        assert(seq![x].drop_last() =~= Seq::<SlotView>::empty());
        assert(ranked(seq![x]) =~= seq![x]);
        assert(slot_hits(seq![x]) =~= seq![a]);
    } else {
        assert(two.slots =~= seq![x, y]);
        assert(seq![x, y].drop_last() =~= seq![x]);
        assert(seq![x].drop_last() =~= Seq::<SlotView>::empty());
        assert(ranked(seq![x]) =~= seq![x]);
        assert(ranked(seq![x, y]) =~= seq![x, y]);
        assert(slot_hits(seq![x, y]) =~= seq![a, b]);
    }
}

/// A batch gets as many waves as its queries take, and not one more: all of them fit in the
/// waves, and not in one wave less, unless one is all there is.
pub proof fn law_waves_are_enough_and_no_more(queries: nat, concurrency: nat)
    ensures
        waves(queries, concurrency) >= 1,
        concurrency > 0 ==> waves(queries, concurrency) * concurrency >= queries,
        concurrency > 0 && waves(queries, concurrency) > 1 ==> (waves(queries, concurrency) - 1)
            * concurrency < queries,
        waves(queries, 0) == waves(queries, 1),
{
    if concurrency > 0 {
        let c = concurrency as int;
        let n = queries + c - 1;
        let w = n / c;
        assert(w * c <= n < w * c + c) by (nonlinear_arith)
            requires
                c > 0,
                w == n / c,
        ;
        assert((w - 1) * c == w * c - c) by (nonlinear_arith);
        if w == 0 {
            assert(1 * c == c);
        }
    }
}

} // verus!
