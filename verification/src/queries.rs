//! What the limiter reports: the status of a limit, the list of limits, the
//! history of a key, the busiest keys and the storage report.

use vstd::prelude::*;

use crate::algo::{
    bucket_at, check_fixed_window_preview, check_sliding_window_preview, current_bucket,
    fixed_preview, sliding_preview, token_bucket_result, token_outcome, KeyModel,
    KeyRecord, Outcome,
};
use crate::state::{
    count_key, counters_fit, metrics_of, put, record_of, well_ordered, State, StateModel,
};
use crate::types::{
    events_view, Algorithm, ConfigModel, ItemModel, DoctorReport, Event, EventModel, LimitConfig,
    LimitMetrics, LimitSummary, TopBy, TopEntry,
};

verus! {

/// The record `k` as a status query at `now` leaves it: a token bucket is
/// refilled (and created, full, if it was missing); nothing else changes.
pub open spec fn touched(k: KeyModel, now: i64) -> KeyModel {
    match k.config {
        Some(c) => if c.algorithm == Algorithm::TokenBucket {
            KeyModel { bucket: Some(bucket_at(k.bucket, c, now)), ..k }
        } else {
            k
        },
        None => k,
    }
}

/// What the status of the limit `c` on the record `k` reports at `now`: the
/// units left without taking any, and when the limit frees up.
pub open spec fn status_outcome(k: KeyModel, c: ConfigModel, now: i64) -> Outcome {
    match c.algorithm {
        Algorithm::TokenBucket => token_outcome(bucket_at(k.bucket, c, now), c, true, now),
        Algorithm::SlidingWindowLog => sliding_preview(k.sliding, c, now, 0),
        Algorithm::FixedWindowCounter => fixed_preview(k.fixed, c, now, 0),
    }
}

/// Whether `s` summarizes the limit `c` on the record `k` at `now`.
pub open spec fn summarizes(s: LimitSummary, k: KeyModel, c: ConfigModel, now: i64) -> bool {
    let o = status_outcome(k, c, now);
    let mt = metrics_of(k);
    &&& s.key@ == c.key
    &&& s.rate == c.rate
    &&& s.per_millis == c.per_millis
    &&& s.algorithm == c.algorithm
    &&& s.remaining == o.remaining
    &&& s.reset_at == o.reset_at
    &&& s.total_allowed == mt.total_allowed
    &&& s.total_denied == mt.total_denied
    &&& s.total_allowed_cost == mt.total_allowed_cost
    &&& s.total_denied_cost == mt.total_denied_cost
    &&& s.last_allowed_at == mt.last_allowed_at
    &&& s.last_denied_at == mt.last_denied_at
    &&& s.last_reset_at == mt.last_reset_at
}

/// The summary of the limit `c` on the record `rec` at `now`.
fn summary_of(rec: &KeyRecord, c: &LimitConfig, now: i64) -> (s: LimitSummary)
    ensures
        summarizes(s, rec@, c@, now),
{
    let result = match c.algorithm {
        Algorithm::TokenBucket => {
            let b = current_bucket(rec.bucket, c, now);
            token_bucket_result(c, &b, true, 0, now)
        },
        Algorithm::SlidingWindowLog => {
            let entries = match &rec.sliding {
                Some(e) => Some(e),
                None => None,
            };
            check_sliding_window_preview(entries, c, now, 0)
        },
        Algorithm::FixedWindowCounter => check_fixed_window_preview(rec.fixed, c, now, 0),
    };
    let mt = match rec.metrics {
        Some(mt) => mt,
        None => LimitMetrics::zero(),
    };
    LimitSummary {
        key: c.key.clone(),
        rate: c.rate,
        per_millis: c.per_millis,
        algorithm: c.algorithm,
        remaining: result.remaining,
        reset_at: result.reset_at,
        total_allowed: mt.total_allowed,
        total_denied: mt.total_denied,
        total_allowed_cost: mt.total_allowed_cost,
        total_denied_cost: mt.total_denied_cost,
        last_allowed_at: mt.last_allowed_at,
        last_denied_at: mt.last_denied_at,
        last_reset_at: mt.last_reset_at,
    }
}

/// Whether one of `items` is for `key`.
pub open spec fn names_key(items: Seq<ItemModel>, key: Seq<char>) -> bool {
    exists|i: int| 0 <= i < items.len() && (#[trigger] items[i]).key == key
}

/// Whether the event `e` concerns `key`: an all-or-nothing check concerns each
/// of its keys.
pub open spec fn event_matches_key(e: EventModel, key: Seq<char>) -> bool {
    match e {
        EventModel::LimitConfigured { config } => config.key == key,
        EventModel::Allow { key: k, .. } => k == key,
        EventModel::AllowAll { items, .. } => names_key(items, key),
        EventModel::Deny { key: k, .. } => k == key,
        EventModel::Reset { key: k, .. } => k == key,
    }
}

/// The events of `h` that concern `key`, in order.
pub open spec fn events_for(h: Seq<EventModel>, key: Seq<char>) -> Seq<EventModel>
    decreases h.len(),
{
    if h.len() == 0 {
        Seq::empty()
    } else if event_matches_key(h.last(), key) {
        events_for(h.drop_last(), key).push(h.last())
    } else {
        events_for(h.drop_last(), key)
    }
}

/// Whether `e` concerns `key`.
pub fn event_matches(e: &Event, key: &String) -> (res: bool)
    ensures
        res == event_matches_key(e@, key@),
{
    match e {
        Event::LimitConfigured { config } => config.key == *key,
        Event::Allow { key: k, .. } => *k == *key,
        Event::Deny { key: k, .. } => *k == *key,
        Event::Reset { key: k, .. } => *k == *key,
        Event::AllowAll { items, at } => {
            let mut i: usize = 0;
            while i < items.len()
                invariant
                    i <= items@.len(),
                    e@ == (EventModel::AllowAll { items: crate::types::items_view(items@), at: *at }),
                    forall|j: int| 0 <= j < i ==> items@[j].key@ != key@,
                decreases items@.len() - i,
            {
                if items[i].key == *key {
                    proof {
                        let iv = crate::types::items_view(items@);
                        assert(iv.len() == items@.len());
                        assert(iv[i as int].key == key@);
                        assert(e@ == EventModel::AllowAll { items: iv, at: *at });
                        assert(names_key(iv, key@));
                    }
                    return true;
                }
                i = i + 1;
            }
            proof {
                assert forall|j: int| 0 <= j < items@.len() implies crate::types::items_view(
                    items@,
                )[j].key != key@ by {
                    assert(crate::types::items_view(items@)[j] == items@[j]@);
                }
            }
            false
        },
    }
}

/// How many of `flags` are set.
pub open spec fn count_set(flags: Seq<bool>) -> nat
    decreases flags.len(),
{
    if flags.len() == 0 {
        0
    } else {
        count_set(flags.drop_last()) + if flags.last() {
            1nat
        } else {
            0nat
        }
    }
}

proof fn lemma_count_set_clear(flags: Seq<bool>, i: int)
    requires
        0 <= i < flags.len(),
        flags[i],
    ensures
        count_set(flags.update(i, false)) + 1 == count_set(flags),
    decreases flags.len(),
{
    if i == flags.len() - 1 {
        assert(flags.update(i, false).drop_last() =~= flags.drop_last());
    } else {
        lemma_count_set_clear(flags.drop_last(), i);
        assert(flags.update(i, false).drop_last() =~= flags.drop_last().update(i, false));
    }
}

proof fn lemma_count_set_some(flags: Seq<bool>) -> (i: int)
    requires
        count_set(flags) > 0,
    ensures
        0 <= i < flags.len(),
        flags[i],
    decreases flags.len(),
{
    if flags.last() {
        flags.len() - 1
    } else {
        lemma_count_set_some(flags.drop_last())
    }
}

proof fn lemma_count_set_push(flags: Seq<bool>, b: bool)
    ensures
        count_set(flags.push(b)) == count_set(flags) + if b {
            1nat
        } else {
            0nat
        },
{
    assert(flags.push(b).drop_last() =~= flags);
}

/// Which keys of the order hold a limit.
pub open spec fn config_flags(m: StateModel) -> Seq<bool> {
    Seq::new(m.order.len(), |i: int| record_of(m, m.order[i]).config is Some)
}

/// Which keys of the order hold counters.
pub open spec fn metric_flags(m: StateModel) -> Seq<bool> {
    Seq::new(m.order.len(), |i: int| record_of(m, m.order[i]).metrics is Some)
}

/// The counter of the record `k` that `by` ranks by.
pub open spec fn rank(k: KeyModel, by: TopBy) -> u64 {
    match by {
        TopBy::Allowed => metrics_of(k).total_allowed,
        TopBy::Denied => metrics_of(k).total_denied,
    }
}

/// The counter of the entry `e` that `by` ranks by.
pub open spec fn entry_rank(e: TopEntry, by: TopBy) -> u64 {
    match by {
        TopBy::Allowed => e.total_allowed,
        TopBy::Denied => e.total_denied,
    }
}

/// Whether `entries` are the busiest keys of `m` by `by`, at most `limit` of
/// them: each is a key with counters, reported with its counters; no key comes
/// twice; they come busiest first; and no key left out is busier than one
/// that is in.
pub open spec fn ranks_top(m: StateModel, by: TopBy, limit: usize, entries: Seq<TopEntry>) -> bool {
    let n = count_set(metric_flags(m));
    &&& entries.len() == if limit < n {
        limit as nat
    } else {
        n
    }
    &&& forall|i: int|
        0 <= i < entries.len() ==> {
            let k = record_of(m, (#[trigger] entries[i]).key@);
            &&& m.limits.contains_key(entries[i].key@)
            &&& k.metrics is Some
            &&& entries[i].total_allowed == metrics_of(k).total_allowed
            &&& entries[i].total_denied == metrics_of(k).total_denied
        }
    &&& forall|i: int, j: int|
        0 <= i < j < entries.len() ==> (#[trigger] entries[i]).key@ != (#[trigger] entries[j]).key@
    &&& forall|i: int, j: int|
        0 <= i < j < entries.len() ==> entry_rank(#[trigger] entries[i], by) >= entry_rank(
            #[trigger] entries[j],
            by,
        )
    &&& forall|key: Seq<char>|
        #[trigger] m.limits.contains_key(key) && m.limits[key].metrics is Some && (forall|i: int|
            0 <= i < entries.len() ==> entries[i].key@ != key) && entries.len() > 0 ==> rank(
            m.limits[key],
            by,
        ) <= entry_rank(entries[entries.len() - 1], by)
}

/// The keys among `keys` that hold a limit in `m`, in order.
pub open spec fn configured_in(m: StateModel, keys: Seq<Seq<char>>) -> Seq<Seq<char>>
    decreases keys.len(),
{
    if keys.len() == 0 {
        Seq::empty()
    } else if record_of(m, keys.last()).config is Some {
        configured_in(m, keys.drop_last()).push(keys.last())
    } else {
        configured_in(m, keys.drop_last())
    }
}

/// Whether `res` lists the limits of `m` at `now`: one summary for each key
/// that holds a limit, in the order of the keys.
pub open spec fn lists(m: StateModel, now: i64, res: Seq<LimitSummary>) -> bool {
    let ks = configured_in(m, m.order);
    &&& res.len() == ks.len()
    &&& forall|j: int|
        0 <= j < res.len() ==> summarizes(
            #[trigger] res[j],
            record_of(m, ks[j]),
            record_of(m, ks[j]).config.unwrap(),
            now,
        )
}

/// How many of `items` are for `key` (see [`count_key`]).
fn count_items_for(items: &Vec<crate::types::MultiCheckItem>, key: &String) -> (c: usize)
    ensures
        c == count_key(crate::types::items_view(items@), key@),
{
    let ghost iv = crate::types::items_view(items@);
    let mut c: usize = 0;
    let mut i: usize = 0;
    while i < items.len()
        invariant
            iv == crate::types::items_view(items@),
            i <= items@.len(),
            c == count_key(iv.take(i as int), key@),
            c <= i,
        decreases items@.len() - i,
    {
        proof {
            assert(iv.take(i + 1).drop_last() =~= iv.take(i as int));
            assert(iv[i as int] == items@[i as int]@);
        }
        if items[i].key == *key {
            c = c + 1;
        }
        i = i + 1;
    }
    proof {
        assert(iv.take(items@.len() as int) =~= iv);
    }
    c
}

impl State {
    /// The summary of the limit of `key` at `now`, or `None` for a key without a
    /// limit. Reading the status of a token bucket refills it.
    pub fn status(&mut self, key: &str, now: i64) -> (res: Option<LimitSummary>)
        ensures
            match record_of(old(self)@, key@).config {
                None => res is None && final(self)@ == old(self)@,
                Some(c) => res matches Some(s) && summarizes(s, record_of(old(self)@, key@), c, now)
                    && final(self)@ == put(old(self)@, key@, touched(record_of(old(self)@, key@), now)),
            },
    {
        let k = key.to_owned();
        let i = match self.position(&k) {
            Some(i) => i,
            None => {
                return None;
            },
        };
        self.touch_at(i, now)
    }

    /// The summaries of every limit at `now`, in the order in which their keys
    /// arrived. Every token bucket is refilled on the way.
    pub fn list(&mut self, now: i64) -> (res: Vec<LimitSummary>)
        ensures
            lists(old(self)@, now, res@),
            final(self)@.order == old(self)@.order,
            final(self)@.history == old(self)@.history,
            final(self)@.limits == old(self)@.limits.map_values(|k: KeyModel| touched(k, now)),
    {
        self.order_facts();
        let ghost before = self@;
        let n = self.key_count();
        let mut out: Vec<LimitSummary> = Vec::new();
        let mut i: usize = 0;
        while i < n
            invariant
                n == before.order.len(),
                i <= n,
                well_ordered(before),
                self@.order == before.order,
                self@.history == before.history,
                self@.limits.dom() == before.limits.dom(),
                forall|j: int|
                    0 <= j < i ==> self@.limits[#[trigger] before.order[j]] == touched(
                        before.limits[before.order[j]],
                        now,
                    ),
                forall|j: int|
                    i <= j < n ==> self@.limits[#[trigger] before.order[j]]
                        == before.limits[before.order[j]],
                out@.len() == configured_in(before, before.order.take(i as int)).len(),
                forall|j: int|
                    0 <= j < out@.len() ==> {
                        let ks = configured_in(before, before.order.take(i as int));
                        summarizes(
                            #[trigger] out@[j],
                            record_of(before, ks[j]),
                            record_of(before, ks[j]).config.unwrap(),
                            now,
                        )
                    },
            decreases n - i,
        {
            let ghost mid = self@;
            let ghost key = before.order[i as int];
            proof {
                assert(before.order.contains(key));
                assert(mid.limits[key] == before.limits[key]);
                assert(record_of(mid, key) == record_of(before, key));
            }
            let got = self.touch_at(i, now);
            let ghost ks0 = configured_in(before, before.order.take(i as int));
            proof {
                assert(before.order.take(i + 1).drop_last() =~= before.order.take(i as int));
                assert(before.order.take(i + 1).last() == key);
                assert forall|j: int| 0 <= j < n && j != i implies before.order[j] != key by {
                    assert(before.order.no_duplicates());
                }
            }
            match got {
                Some(s) => {
                    out.push(s);
                    proof {
                        let ks = configured_in(before, before.order.take(i + 1));
                        assert(ks == ks0.push(key));
                        assert forall|j: int| 0 <= j < out@.len() implies {
                            let ks = configured_in(before, before.order.take(i + 1));
                            summarizes(
                                #[trigger] out@[j],
                                record_of(before, ks[j]),
                                record_of(before, ks[j]).config.unwrap(),
                                now,
                            )
                        } by {
                            if j < out@.len() - 1 {
                                assert(ks[j] == ks0[j]);
                            }
                        }
                    }
                },
                None => {
                    proof {
                        assert(configured_in(before, before.order.take(i + 1)) == ks0);
                    }
                },
            }
            proof {
                assert(self@.limits.dom() =~= before.limits.dom());
                assert forall|j: int| 0 <= j <= i implies self@.limits[#[trigger] before.order[j]]
                    == touched(before.limits[before.order[j]], now) by {
                    if j < i {
                        assert(before.order[j] != key);
                    }
                }
                assert forall|j: int| i + 1 <= j < n implies self@.limits[#[trigger] before.order[j]]
                    == before.limits[before.order[j]] by {
                    assert(before.order[j] != key);
                }
            }
            i = i + 1;
        }
        proof {
            assert(before.order.take(n as int) =~= before.order);
            assert forall|k: Seq<char>| #[trigger] self@.limits.contains_key(k) implies self@.limits[k]
                == touched(before.limits[k], now) by {
                assert(before.order.contains(k));
                let j = choose|j: int| 0 <= j < before.order.len() && before.order[j] == k;
                assert(self@.limits[before.order[j]] == touched(before.limits[before.order[j]], now));
            }
            assert(self@.limits =~= before.limits.map_values(|k: KeyModel| touched(k, now)));
        }
        out
    }

    /// Refreshes every token bucket at `now`, as before a snapshot.
    pub fn refresh_all_summaries(&mut self, now: i64)
        ensures
            final(self)@.order == old(self)@.order,
            final(self)@.history == old(self)@.history,
            final(self)@.limits == old(self)@.limits.map_values(|k: KeyModel| touched(k, now)),
    {
        let _ = self.list(now);
    }

    /// The events that concern `key`, oldest first.
    pub fn history(&self, key: &str) -> (res: Vec<Event>)
        ensures
            events_view(res@) == events_for(self@.history, key@),
    {
        let k = key.to_owned();
        let h = self.events();
        let mut out: Vec<Event> = Vec::new();
        let mut i: usize = 0;
        while i < h.len()
            invariant
                i <= h@.len(),
                k@ == key@,
                events_view(h@) == self@.history,
                events_view(out@) == events_for(events_view(h@).take(i as int), key@),
            decreases h@.len() - i,
        {
            let ghost hv = events_view(h@);
            proof {
                assert(hv.take(i + 1).drop_last() =~= hv.take(i as int));
                assert(hv.take(i + 1).last() == h@[i as int]@);
            }
            if event_matches(&h[i], &k) {
                let ghost before = out@;
                out.push(h[i].clone());
                proof {
                    assert(events_view(out@) =~= events_view(before).push(h@[i as int]@));
                    assert(events_for(hv.take(i + 1), key@) == events_for(hv.take(i as int), key@).push(
                        h@[i as int]@,
                    ));
                }
            } else {
                proof {
                    assert(events_for(hv.take(i + 1), key@) == events_for(hv.take(i as int), key@));
                }
            }
            i = i + 1;
        }
        proof {
            assert(events_view(h@).take(h@.len() as int) =~= events_view(h@));
        }
        out
    }

    /// The busiest keys by `by`, at most `limit` of them, busiest first (see
    /// [`ranks_top`]).
    pub fn top(&self, by: TopBy, limit: usize) -> (res: Vec<TopEntry>)
        ensures
            ranks_top(self@, by, limit, res@),
    {
        self.order_facts();
        let ghost m = self@;
        let ghost flags = metric_flags(m);
        let n = self.key_count();
        let mut avail: Vec<bool> = Vec::new();
        let mut i: usize = 0;
        while i < n
            invariant
                n == m.order.len(),
                m == self@,
                flags == metric_flags(m),
                i <= n,
                avail@ == flags.take(i as int),
            decreases n - i,
        {
            let has = self.record_at(i).metrics.is_some();
            avail.push(has);
            proof {
                assert(avail@ =~= flags.take(i + 1));
            }
            i = i + 1;
        }
        proof {
            assert(avail@ =~= flags);
        }
        let mut out: Vec<TopEntry> = Vec::new();
        let ghost mut picked: Seq<int> = Seq::empty();
        while out.len() < limit
            invariant
                n == m.order.len(),
                m == self@,
                flags == metric_flags(m),
                well_ordered(m),
                avail@.len() == n,
                out@.len() == picked.len(),
                out@.len() <= limit,
                count_set(avail@) + out@.len() == count_set(flags),
                forall|j: int| 0 <= j < n && #[trigger] avail@[j] ==> flags[j],
                forall|a: int| 0 <= a < picked.len() ==> {
                    let p = #[trigger] picked[a];
                    &&& 0 <= p < n
                    &&& flags[p]
                    &&& !avail@[p]
                    &&& out@[a].key@ == m.order[p]
                    &&& out@[a].total_allowed == metrics_of(record_of(m, m.order[p])).total_allowed
                    &&& out@[a].total_denied == metrics_of(record_of(m, m.order[p])).total_denied
                },
                forall|a: int, b: int| 0 <= a < b < picked.len() ==> #[trigger] picked[a] != #[trigger] picked[b],
                forall|j: int| 0 <= j < n && flags[j] && !(#[trigger] avail@[j]) ==> picked.contains(j),
                forall|a: int, b: int|
                    0 <= a < b < out@.len() ==> entry_rank(#[trigger] out@[a], by) >= entry_rank(
                        #[trigger] out@[b],
                        by,
                    ),
                out@.len() > 0 ==> forall|j: int|
                    0 <= j < n && #[trigger] avail@[j] ==> rank(record_of(m, m.order[j]), by)
                        <= entry_rank(out@[out@.len() - 1], by),
            ensures
                out@.len() >= limit || count_set(avail@) == 0,
            decreases count_set(avail@),
        {
            let mut best: usize = n;
            let mut best_rank: u64 = 0;
            let mut j: usize = 0;
            while j < n
                invariant
                    n == m.order.len(),
                    m == self@,
                    avail@.len() == n,
                    j <= n,
                    best == n || (best < j && avail@[best as int] && best_rank == rank(
                        record_of(m, m.order[best as int]),
                        by,
                    )),
                    best == n ==> forall|x: int| 0 <= x < j ==> !(#[trigger] avail@[x]),
                    best < n ==> forall|x: int|
                        0 <= x < j && #[trigger] avail@[x] ==> rank(record_of(m, m.order[x]), by)
                            <= best_rank,
                decreases n - j,
            {
                if avail[j] {
                    let mt = match self.record_at(j).metrics {
                        Some(mt) => mt,
                        None => LimitMetrics::zero(),
                    };
                    let r = match by {
                        TopBy::Allowed => mt.total_allowed,
                        TopBy::Denied => mt.total_denied,
                    };
                    if best == n || r > best_rank {
                        best = j;
                        best_rank = r;
                    }
                }
                j = j + 1;
            }
            if best == n {
                proof {
                    if count_set(avail@) > 0 {
                        let x = lemma_count_set_some(avail@);
                        assert(avail@[x]);
                    }
                }
                break;
            }
            let key = self.key_at(best).clone();
            let mt = match self.record_at(best).metrics {
                Some(mt) => mt,
                None => LimitMetrics::zero(),
            };
            let entry = TopEntry { key, total_allowed: mt.total_allowed, total_denied: mt.total_denied };
            proof {
                lemma_count_set_clear(avail@, best as int);
                assert(entry_rank(entry, by) == best_rank);
            }
            let ghost old_avail = avail@;
            let ghost old_out = out@;
            let ghost old_picked = picked;
            avail.set(best, false);
            out.push(entry);
            proof {
                picked = picked.push(best as int);
                assert forall|a: int| 0 <= a < picked.len() implies {
                    let p = #[trigger] picked[a];
                    &&& 0 <= p < n
                    &&& flags[p]
                    &&& !avail@[p]
                    &&& out@[a].key@ == m.order[p]
                    &&& out@[a].total_allowed == metrics_of(record_of(m, m.order[p])).total_allowed
                    &&& out@[a].total_denied == metrics_of(record_of(m, m.order[p])).total_denied
                } by {
                    if a < picked.len() - 1 {
                        assert(out@[a] == old_out[a]);
                    }
                }
                assert forall|a: int, b: int| 0 <= a < b < picked.len() implies #[trigger] picked[a]
                    != #[trigger] picked[b] by {
                    if b == picked.len() - 1 {
                        assert(!old_avail[picked[a]]);
                    }
                }
                assert forall|x: int| 0 <= x < n && flags[x] && !(#[trigger] avail@[x]) implies picked.contains(x) by {
                    if x == best {
                        assert(picked[picked.len() - 1] == x);
                    } else {
                        assert(!old_avail[x]);
                        assert(old_picked.contains(x));
                        let a = choose|a: int| 0 <= a < old_picked.len() && old_picked[a] == x;
                        assert(picked[a] == x);
                    }
                }
                assert forall|a: int, b: int| 0 <= a < b < out@.len() implies entry_rank(
                    #[trigger] out@[a],
                    by,
                ) >= entry_rank(#[trigger] out@[b], by) by {
                    if b == out@.len() - 1 {
                        assert(out@[a] == old_out[a]);
                        if old_out.len() > 0 {
                            assert(old_avail[best as int]);
                            assert(entry_rank(old_out[a], by) >= entry_rank(old_out[old_out.len() - 1], by)
                                || a == old_out.len() - 1);
                        }
                    } else {
                        assert(out@[a] == old_out[a]);
                        assert(out@[b] == old_out[b]);
                    }
                }
            }
        }
        proof {
            let total = count_set(flags);
            assert forall|key: Seq<char>|
                #[trigger] m.limits.contains_key(key) && m.limits[key].metrics is Some && (forall|a: int|
                    0 <= a < out@.len() ==> out@[a].key@ != key) && out@.len() > 0 implies rank(
                m.limits[key],
                by,
            ) <= entry_rank(out@[out@.len() - 1], by) by {
                assert(m.order.contains(key));
                let x = choose|x: int| 0 <= x < m.order.len() && m.order[x] == key;
                assert(flags[x]);
                if !avail@[x] {
                    assert(picked.contains(x));
                    let a = choose|a: int| 0 <= a < picked.len() && picked[a] == x;
                    assert(out@[a].key@ == key);
                }
            }
            assert forall|a: int| 0 <= a < out@.len() implies {
                let k = record_of(m, (#[trigger] out@[a]).key@);
                &&& m.limits.contains_key(out@[a].key@)
                &&& k.metrics is Some
                &&& out@[a].total_allowed == metrics_of(k).total_allowed
                &&& out@[a].total_denied == metrics_of(k).total_denied
            } by {
                let p = picked[a];
                assert(m.order.contains(m.order[p]));
            }
            assert forall|a: int, b: int| 0 <= a < b < out@.len() implies (#[trigger] out@[a]).key@
                != (#[trigger] out@[b]).key@ by {
                let pa = picked[a];
                let pb = picked[b];
                assert(m.order.no_duplicates());
            }
            if out@.len() < limit {
                if count_set(avail@) > 0 {
                    assert(false);
                }
            }
        }
        out
    }

    /// What `doctor` reports of the state, given what the caller found of the
    /// log and the snapshot: the number of limits and of recorded events.
    pub fn doctor_report(&self, aof_bytes: u64, snapshot_exists: bool) -> (r: DoctorReport)
        ensures
            r.ok,
            r.limits == count_set(config_flags(self@)),
            r.history_events == self@.history.len(),
            r.aof_bytes == aof_bytes,
            r.snapshot_exists == snapshot_exists,
    {
        let ghost flags = config_flags(self@);
        let n = self.key_count();
        let mut count: usize = 0;
        let mut i: usize = 0;
        while i < n
            invariant
                n == self@.order.len(),
                flags == config_flags(self@),
                i <= n,
                count == count_set(flags.take(i as int)),
                count <= i,
            decreases n - i,
        {
            proof {
                assert(flags.take(i + 1) =~= flags.take(i as int).push(flags[i as int]));
                lemma_count_set_push(flags.take(i as int), flags[i as int]);
            }
            if self.record_at(i).config.is_some() {
                count = count + 1;
            }
            i = i + 1;
        }
        proof {
            assert(flags.take(n as int) =~= flags);
        }
        let h = self.events();
        proof {
            assert(events_view(h@).len() == h@.len());
        }
        DoctorReport { ok: true, limits: count, history_events: h.len(), aof_bytes, snapshot_exists }
    }

    /// Whether applying `e` keeps every counter of checks within `u64`.
    pub fn can_apply(&self, e: &Event) -> (res: bool)
        ensures
            res == counters_fit(self@, e@),
    {
        match e {
            Event::Allow { key, .. } => {
                let mt = match self.record(key) {
                    Some(r) => match r.metrics {
                        Some(mt) => mt,
                        None => LimitMetrics::zero(),
                    },
                    None => LimitMetrics::zero(),
                };
                mt.total_allowed < u64::MAX
            },
            Event::Deny { key, .. } => {
                let mt = match self.record(key) {
                    Some(r) => match r.metrics {
                        Some(mt) => mt,
                        None => LimitMetrics::zero(),
                    },
                    None => LimitMetrics::zero(),
                };
                mt.total_denied < u64::MAX
            },
            Event::AllowAll { items, at } => {
                let ghost iv = crate::types::items_view(items@);
                let n = items.len();
                let mut i: usize = 0;
                while i < n
                    invariant
                        n == items@.len(),
                        iv == crate::types::items_view(items@),
                        e@ == (EventModel::AllowAll { items: iv, at: *at }),
                        i <= n,
                        forall|x: int|
                            0 <= x < i ==> metrics_of(record_of(self@, #[trigger] iv[x].key)).total_allowed
                                + count_key(iv, iv[x].key) <= u64::MAX,
                    decreases n - i,
                {
                    let mt = match self.record(&items[i].key) {
                        Some(r) => match r.metrics {
                            Some(mt) => mt,
                            None => LimitMetrics::zero(),
                        },
                        None => LimitMetrics::zero(),
                    };
                    proof {
                        assert(iv[i as int] == items@[i as int]@);
                    }
                    let c = count_items_for(items, &items[i].key);
                    if mt.total_allowed as u128 + c as u128 > u64::MAX as u128 {
                        proof {
                            assert(metrics_of(record_of(self@, iv[i as int].key)).total_allowed
                                + count_key(iv, iv[i as int].key) > u64::MAX);
                        }
                        return false;
                    }
                    i = i + 1;
                }
                true
            },
            _ => true,
        }
    }

    /// The summary of the limit of the key at position `i`, if it has one, and
    /// the state as the query leaves it.
    fn touch_at(&mut self, i: usize, now: i64) -> (res: Option<LimitSummary>)
        requires
            i < old(self)@.order.len(),
        ensures
            ({
                let key = old(self)@.order[i as int];
                match record_of(old(self)@, key).config {
                    None => res is None && final(self)@ == old(self)@,
                    Some(c) => res matches Some(s) && summarizes(s, record_of(old(self)@, key), c, now)
                        && final(self)@ == put(old(self)@, key, touched(record_of(old(self)@, key), now)),
                }
            }),
    {
        let ghost before = self@;
        let ghost key = before.order[i as int];
        let rec = self.record_at(i);
        let c = match &rec.config {
            Some(c) => c.clone(),
            None => {
                return None;
            },
        };
        let s = summary_of(rec, &c, now);
        if c.algorithm == Algorithm::TokenBucket {
            let b = current_bucket(rec.bucket, &c, now);
            self.set_bucket_at(i, b);
        } else {
            proof {
                assert(before.limits.insert(key, record_of(before, key)) =~= before.limits);
            }
        }
        Some(s)
    }
}

} // verus!
