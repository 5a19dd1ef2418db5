//! Properties of the limiter as a whole, proved over the model.

use vstd::prelude::*;

use crate::algo::{
    bucket_at, capacity, consumed, fresh_bucket, live_entries, preview, refilled, rescaled,
    scale_of, window_at, window_ms, KeyModel,
};
use crate::decide::{check_event, check_outcome, cost_of_key, cost_refusal, multi_scan, MultiScan};
use crate::state::{
    allow_items, allow_one, apply_model, effect, initial_model, metrics_of, put, record_of, replay,
    StateModel,
};
use crate::types::{Algorithm, EventModel};

verus! {

/// The state that applying `events` in order to `m` gives.
pub open spec fn replay_onto(m: StateModel, events: Seq<EventModel>) -> StateModel
    decreases events.len(),
{
    if events.len() == 0 {
        m
    } else {
        apply_model(replay_onto(m, events.drop_last()), events.last())
    }
}

proof fn lemma_allow_items_history(m: StateModel, items: Seq<crate::types::ItemModel>, at: i64)
    ensures
        allow_items(m, items, at).history == m.history,
    decreases items.len(),
{
    if items.len() > 0 {
        lemma_allow_items_history(m, items.drop_last(), at);
    }
}

proof fn lemma_effect_history(m: StateModel, e: EventModel)
    ensures
        effect(m, e).history == m.history,
{
    match e {
        EventModel::AllowAll { items, at } => lemma_allow_items_history(m, items, at),
        _ => {},
    }
}

/// Replaying a log records every event of it, in order, as the history.
pub proof fn replay_records_the_log(events: Seq<EventModel>)
    ensures
        replay(events).history == events,
    decreases events.len(),
{
    if events.len() > 0 {
        replay_records_the_log(events.drop_last());
        lemma_effect_history(replay(events.drop_last()), events.last());
        assert(events.drop_last().push(events.last()) =~= events);
    }
}

/// A state that was rebuilt from a log can be rebuilt again from the history
/// that it recorded: replaying the history gives the same state back.
pub proof fn replaying_history_rebuilds_state(events: Seq<EventModel>)
    ensures
        replay(replay(events).history) == replay(events),
{
    replay_records_the_log(events);
}

/// Replaying a log from the start is replaying it onto the initial state.
pub proof fn replay_is_replay_onto_initial(events: Seq<EventModel>)
    ensures
        replay(events) == replay_onto(initial_model(), events),
    decreases events.len(),
{
    if events.len() > 0 {
        replay_is_replay_onto_initial(events.drop_last());
    }
}

/// Recovery from a snapshot: the state saved after the events `before`, with
/// only the events `after` of the log's tail replayed onto it, is the state that
/// replaying the whole log gives.
pub proof fn snapshot_then_tail_is_full_replay(before: Seq<EventModel>, after: Seq<EventModel>)
    ensures
        replay_onto(replay(before), after) == replay(before + after),
    decreases after.len(),
{
    if after.len() == 0 {
        assert(before + after =~= before);
    } else {
        snapshot_then_tail_is_full_replay(before, after.drop_last());
        assert((before + after).drop_last() =~= before + after.drop_last());
        assert((before + after).last() == after.last());
    }
}


/// What a record holds for rate limiting, apart from its counters.
pub open spec fn quota(k: KeyModel) -> (Option<crate::types::ConfigModel>, Option<crate::types::BucketState>, Option<crate::types::FixedWindowState>, Option<Seq<i64>>) {
    (k.config, k.bucket, k.fixed, k.sliding)
}

proof fn lemma_full_bucket(c: crate::types::ConfigModel)
    ensures
        capacity(c) <= u128::MAX,
        capacity(c) / scale_of(c.per_millis) == c.rate,
        rescaled(capacity(c), scale_of(c.per_millis), scale_of(c.per_millis)) == capacity(c),
{
    let s: int = scale_of(c.per_millis) as int;
    let r: int = c.rate as int;
    assert(capacity(c) <= u64::MAX * u64::MAX) by (nonlinear_arith)
        requires
            capacity(c) == c.rate * s,
            c.rate <= u64::MAX,
            s <= u64::MAX,
    ;
    assert((r * s) / s == r) by (nonlinear_arith)
        requires
            s >= 1,
    ;
    assert((r * s) * s / s == r * s) by (nonlinear_arith)
        requires
            s >= 1,
    ;
}

/// A reset gives a limit its full capacity back: right after it, the status of
/// the limit reports `rate` units left, whatever the algorithm.
pub proof fn reset_restores_full_capacity(m: StateModel, key: Seq<char>, at: i64)
    requires
        record_of(m, key).config is Some,
    ensures
        ({
            let c = record_of(m, key).config.unwrap();
            let k = record_of(apply_model(m, EventModel::Reset { key, at }), key);
            crate::queries::status_outcome(k, c, at).remaining == c.rate
        }),
{
    let c = record_of(m, key).config.unwrap();
    lemma_full_bucket(c);
}

/// Right after a reset, any check whose cost is within the rate is allowed.
pub proof fn reset_allows_any_valid_cost(m: StateModel, key: Seq<char>, at: i64, cost: u64)
    requires
        record_of(m, key).config matches Some(c) && cost <= c.rate,
    ensures
        ({
            let c = record_of(m, key).config.unwrap();
            let k = record_of(apply_model(m, EventModel::Reset { key, at }), key);
            preview(k, c, at, cost).allowed
        }),
{
    let c = record_of(m, key).config.unwrap();
    lemma_full_bucket(c);
    let s = scale_of(c.per_millis);
    assert(cost * s <= c.rate * s) by (nonlinear_arith)
        requires
            cost <= c.rate,
    ;
}

/// A denied check takes nothing from any limit: only the counters of the
/// denied key change.
pub proof fn denial_takes_nothing(m: StateModel, key: Seq<char>, at: i64, cost: u64, other: Seq<char>)
    ensures
        quota(record_of(apply_model(m, EventModel::Deny { key, at, cost }), other)) == quota(
            record_of(m, other),
        ),
        other != key ==> record_of(apply_model(m, EventModel::Deny { key, at, cost }), other)
            == record_of(m, other),
{
}

/// Whether no two items of `items` name the same key.
pub open spec fn distinct_keys(items: Seq<crate::types::ItemModel>) -> bool {
    forall|i: int, j: int| 0 <= i < j < items.len() ==> (#[trigger] items[i]).key != (#[trigger] items[j]).key
}

/// The counters of a key after `cost` units were allowed at `at`.
pub open spec fn counted_allow(mt: crate::types::LimitMetrics, at: i64, cost: u64) -> crate::types::LimitMetrics {
    crate::types::LimitMetrics {
        total_allowed: (mt.total_allowed + 1) as u64,
        total_allowed_cost: crate::algo::sat_add(mt.total_allowed_cost, cost),
        last_allowed_at: Some(at),
        ..mt
    }
}

/// The counters of a key after a check of `cost` units was denied at `at`.
pub open spec fn counted_deny(mt: crate::types::LimitMetrics, at: i64, cost: u64) -> crate::types::LimitMetrics {
    crate::types::LimitMetrics {
        total_denied: (mt.total_denied + 1) as u64,
        total_denied_cost: crate::algo::sat_add(mt.total_denied_cost, cost),
        last_denied_at: Some(at),
        ..mt
    }
}

/// An all-or-nothing check that passes takes each item's cost from its own
/// limit, as a check of that item alone would, counts each item as one allowed
/// check of its cost, and leaves every other key alone.
pub proof fn allowed_check_all_takes_every_item(m: StateModel, items: Seq<crate::types::ItemModel>, at: i64)
    requires
        distinct_keys(items),
    ensures
        forall|i: int|
            0 <= i < items.len() ==> metrics_of(record_of(allow_items(m, items, at), (#[trigger] items[i]).key))
                == counted_allow(metrics_of(record_of(m, items[i].key)), at, items[i].cost),
        forall|i: int|
            0 <= i < items.len() ==> quota(record_of(allow_items(m, items, at), (#[trigger] items[i]).key))
                == quota(consumed(record_of(m, items[i].key), at, items[i].cost)),
        forall|k: Seq<char>|
            (forall|i: int| 0 <= i < items.len() ==> (#[trigger] items[i]).key != k) ==> record_of(
                allow_items(m, items, at),
                k,
            ) == record_of(m, k),
    decreases items.len(),
{
    if items.len() > 0 {
        let init = items.drop_last();
        let last = items.last();
        assert(distinct_keys(init)) by {
            assert forall|i: int, j: int| 0 <= i < j < init.len() implies (#[trigger] init[i]).key
                != (#[trigger] init[j]).key by {
                assert(init[i] == items[i] && init[j] == items[j]);
            }
        }
        allowed_check_all_takes_every_item(m, init, at);
        let prev = allow_items(m, init, at);
        assert forall|i: int| 0 <= i < init.len() implies (#[trigger] init[i]).key != last.key by {
            assert(init[i] == items[i]);
            assert(items[i].key != items[items.len() - 1].key);
        }
        assert(record_of(prev, last.key) == record_of(m, last.key));
        assert forall|i: int| 0 <= i < items.len() implies metrics_of(
            record_of(allow_items(m, items, at), (#[trigger] items[i]).key),
        ) == counted_allow(metrics_of(record_of(m, items[i].key)), at, items[i].cost) by {
            if i < items.len() - 1 {
                assert(items[i] == init[i]);
                assert(items[i].key != last.key);
            }
        }
        assert forall|i: int| 0 <= i < items.len() implies quota(
            record_of(allow_items(m, items, at), (#[trigger] items[i]).key),
        ) == quota(consumed(record_of(m, items[i].key), at, items[i].cost)) by {
            if i < items.len() - 1 {
                assert(items[i] == init[i]);
                assert(items[i].key != last.key);
            }
        }
        assert forall|k: Seq<char>|
            (forall|i: int| 0 <= i < items.len() ==> (#[trigger] items[i]).key != k) implies record_of(
            allow_items(m, items, at),
            k,
        ) == record_of(m, k) by {
            assert(items[items.len() - 1].key != k);
            assert forall|i: int| 0 <= i < init.len() implies (#[trigger] init[i]).key != k by {
                assert(init[i] == items[i]);
            }
        }
    }
}

/// A fixed window frees up once its period is over: a check within the rate is
/// then allowed.
pub proof fn fixed_window_frees_after_period(m: StateModel, key: Seq<char>, now: i64, cost: u64)
    requires
        record_of(m, key).config matches Some(c) && c.algorithm == Algorithm::FixedWindowCounter
            && cost <= c.rate,
        record_of(m, key).fixed matches Some(w) && now >= w.window_start + window_ms(
            record_of(m, key).config.unwrap().per_millis,
        ),
    ensures
        preview(record_of(m, key), record_of(m, key).config.unwrap(), now, cost).allowed,
{
}

proof fn lemma_all_expired(s: Seq<i64>, cutoff: int)
    requires
        forall|i: int| 0 <= i < s.len() ==> #[trigger] s[i] <= cutoff,
    ensures
        crate::algo::expired_count(s, cutoff) == s.len(),
    decreases s.len(),
{
    if s.len() > 0 {
        assert forall|i: int| 0 <= i < s.drop_first().len() implies #[trigger] s.drop_first()[i] <= cutoff by {
            assert(s.drop_first()[i] == s[i + 1]);
        }
        lemma_all_expired(s.drop_first(), cutoff);
    }
}

/// A sliding window frees up once a whole period has passed since its newest
/// entry: a check within the rate is then allowed.
pub proof fn sliding_window_frees_after_period(m: StateModel, key: Seq<char>, now: i64, cost: u64)
    requires
        record_of(m, key).config matches Some(c) && c.algorithm == Algorithm::SlidingWindowLog
            && cost <= c.rate,
        record_of(m, key).sliding matches Some(entries) && forall|i: int|
            0 <= i < entries.len() ==> #[trigger] entries[i] + window_ms(
                record_of(m, key).config.unwrap().per_millis,
            ) <= now,
    ensures
        preview(record_of(m, key), record_of(m, key).config.unwrap(), now, cost).allowed,
{
    let c = record_of(m, key).config.unwrap();
    let entries = record_of(m, key).sliding.unwrap();
    lemma_all_expired(entries, now - window_ms(c.per_millis));
}

/// A token bucket fills up again once a whole period has passed since it was
/// last refilled: a check within the rate is then allowed.
pub proof fn token_bucket_refills_after_period(m: StateModel, key: Seq<char>, now: i64, cost: u64)
    requires
        record_of(m, key).config matches Some(c) && c.algorithm == Algorithm::TokenBucket
            && cost <= c.rate,
        record_of(m, key).bucket matches Some(b) && b.last_refill + record_of(m, key).config.unwrap().per_millis <= now
            && b.last_refill < now,
    ensures
        preview(record_of(m, key), record_of(m, key).config.unwrap(), now, cost).allowed,
{
    let c = record_of(m, key).config.unwrap();
    let b = record_of(m, key).bucket.unwrap();
    let s = scale_of(c.per_millis);
    lemma_full_bucket(c);
    if c.per_millis > 0 {
        assert((now - b.last_refill) * c.rate >= c.rate * s) by (nonlinear_arith)
            requires
                now - b.last_refill >= c.per_millis,
                s == c.per_millis,
        ;
    }
    assert(cost * s <= c.rate * s) by (nonlinear_arith)
        requires
            cost <= c.rate,
    ;
    let r = refilled(b, c, now);
    assert(r.tokens == capacity(c));
}


/// The units that the limit of `key` can still give at `now`: whole tokens in
/// its bucket, or the rate less the units its window has used (negative when
/// the window is over its rate).
pub open spec fn available(m: StateModel, key: Seq<char>, now: i64) -> int {
    let k = record_of(m, key);
    let c = k.config.unwrap();
    match c.algorithm {
        Algorithm::TokenBucket => (bucket_at(k.bucket, c, now).tokens as int) / (scale_of(c.per_millis) as int),
        Algorithm::SlidingWindowLog => c.rate - live_entries(k.sliding, c, now).len(),
        Algorithm::FixedWindowCounter => c.rate - window_at(k.fixed, c, now).count,
    }
}

/// The total cost allowed when checks of `costs` against `key` are made one
/// after the other at the same instant `now`, each recorded before the next.
pub open spec fn allowed_total(m: StateModel, key: Seq<char>, now: i64, costs: Seq<u64>) -> nat
    decreases costs.len(),
{
    if costs.len() == 0 {
        0
    } else {
        let o = check_outcome(m, key, now, costs[0]);
        let next = apply_model(m, check_event(key, now, costs[0], o.allowed));
        (if o.allowed {
            costs[0] as nat
        } else {
            0
        }) + allowed_total(next, key, now, costs.drop_first())
    }
}

/// What keeps checks at one instant exact: the limit's configuration `c`, a
/// rate below `u64::MAX`, a period of at least one millisecond, a bucket kept
/// in the units of the limit, and a window that counts its entries in `u64`.
pub open spec fn steady(m: StateModel, key: Seq<char>, now: i64, c: crate::types::ConfigModel) -> bool {
    let k = record_of(m, key);
    &&& k.config == Some(c)
    &&& c.rate < u64::MAX
    &&& c.per_millis >= 1
    &&& (k.bucket matches Some(b) ==> b.scale == c.per_millis)
    &&& live_entries(k.sliding, c, now).len() <= u64::MAX
}

proof fn lemma_rescale_same(t: nat, s: nat)
    requires
        s >= 1,
        t <= u128::MAX,
    ensures
        rescaled(t, s, s) == t,
{
    assert(t * s / s == t) by (nonlinear_arith)
        requires
            s >= 1,
    ;
}

proof fn lemma_floor_step(t: int, cost: int, s: int)
    requires
        s >= 1,
        t >= 0,
        cost >= 0,
    ensures
        (t >= cost * s) == (t / s >= cost),
        t >= cost * s ==> (t - cost * s) / s == t / s - cost,
{
    assert((t >= cost * s) == (t / s >= cost)) by (nonlinear_arith)
        requires
            s >= 1,
            t >= 0,
            cost >= 0,
    ;
    if t >= cost * s {
        assert((t - cost * s) / s == t / s - cost) by (nonlinear_arith)
            requires
                s >= 1,
                t >= cost * s,
        ;
    }
}

proof fn lemma_pruned_fresh(live: Seq<i64>, cost: nat, now: i64, cutoff: int)
    requires
        cutoff < now,
        live.len() > 0 ==> live[0] > cutoff,
    ensures
        crate::algo::pruned(live + Seq::new(cost, |i: int| now), cutoff) == live + Seq::new(cost, |i: int| now),
{
    let all = live + Seq::new(cost, |i: int| now);
    if all.len() > 0 {
        assert(all[0] > cutoff);
    }
    assert(all.skip(0) =~= all);
}

proof fn lemma_expired_le(s: Seq<i64>, cutoff: int)
    ensures
        crate::algo::expired_count(s, cutoff) <= s.len(),
    decreases s.len(),
{
    if s.len() > 0 && s[0] <= cutoff {
        lemma_expired_le(s.drop_first(), cutoff);
    }
}

proof fn lemma_live_front(entries: Seq<i64>, cutoff: int)
    ensures
        ({
            let live = crate::algo::pruned(entries, cutoff);
            live.len() > 0 ==> live[0] > cutoff
        }),
    decreases entries.len(),
{
    if entries.len() > 0 && entries[0] <= cutoff {
        lemma_live_front(entries.drop_first(), cutoff);
        let n = crate::algo::expired_count(entries.drop_first(), cutoff);
        lemma_expired_le(entries.drop_first(), cutoff);
        assert(entries.skip(1 + n as int) =~= entries.drop_first().skip(n as int));
    } else {
        assert(entries.skip(0) =~= entries);
    }
}

/// One check at `now` keeps the limit steady, gives what its decision said, and
/// takes exactly the allowed cost from what is available.
proof fn lemma_check_step(m: StateModel, key: Seq<char>, now: i64, cost: u64, c: crate::types::ConfigModel)
    requires
        steady(m, key, now, c),
    ensures
        ({
            let o = check_outcome(m, key, now, cost);
            let next = apply_model(m, check_event(key, now, cost, o.allowed));
            &&& steady(next, key, now, c)
            &&& o.allowed ==> cost <= available(m, key, now) && available(next, key, now) == available(m, key, now) - cost
            &&& !o.allowed ==> available(next, key, now) == available(m, key, now)
        }),
{
    let k = record_of(m, key);
    let o = check_outcome(m, key, now, cost);
    let s = scale_of(c.per_millis);
    let w = window_ms(c.per_millis);
    match c.algorithm {
        Algorithm::TokenBucket => {
            let b = bucket_at(k.bucket, c, now);
            lemma_full_bucket(c);
            match k.bucket {
                Some(b0) => {
                    lemma_rescale_same(b0.tokens as nat, s);
                },
                None => {
                    lemma_rescale_same(capacity(c), s);
                },
            }
            assert(b.scale == s);
            assert(b.last_refill >= now);
            lemma_floor_step(b.tokens as int, cost as int, s as int);
            if o.allowed {
                let nb = crate::types::BucketState { tokens: (b.tokens - cost * s) as u128, ..b };
                lemma_rescale_same(nb.tokens as nat, s);
                assert(bucket_at(Some(nb), c, now) == nb);
            }
        },
        Algorithm::SlidingWindowLog => {
            let live = live_entries(k.sliding, c, now);
            lemma_live_front(
                match k.sliding {
                    Some(e) => e,
                    None => Seq::empty(),
                },
                now - w,
            );
            if o.allowed {
                lemma_pruned_fresh(live, cost as nat, now, now - w);
            }
        },
        Algorithm::FixedWindowCounter => {},
    }
}

proof fn lemma_total_bounded(m: StateModel, key: Seq<char>, now: i64, costs: Seq<u64>, c: crate::types::ConfigModel)
    requires
        steady(m, key, now, c),
    ensures
        allowed_total(m, key, now, costs) <= if available(m, key, now) > 0 {
            available(m, key, now)
        } else {
            0
        },
    decreases costs.len(),
{
    if costs.len() > 0 {
        let o = check_outcome(m, key, now, costs[0]);
        let next = apply_model(m, check_event(key, now, costs[0], o.allowed));
        lemma_check_step(m, key, now, costs[0], c);
        lemma_total_bounded(next, key, now, costs.drop_first(), c);
    }
}

/// Checks made at one instant never allow more than the rate in total: once a
/// limit is spent, every further check at that instant is denied, however
/// many there are. This holds for a limit whose bucket holds no more than a
/// full bucket, whose period is at least a millisecond and whose rate is below
/// `u64::MAX`.
pub proof fn checks_at_one_instant_never_exceed_rate(m: StateModel, key: Seq<char>, now: i64, costs: Seq<u64>)
    requires
        record_of(m, key).config matches Some(c) && c.rate < u64::MAX && c.per_millis >= 1,
        record_of(m, key).bucket matches Some(b) ==> b.scale == record_of(m, key).config.unwrap().per_millis
            && b.tokens <= capacity(record_of(m, key).config.unwrap()),
        live_entries(record_of(m, key).sliding, record_of(m, key).config.unwrap(), now).len() <= u64::MAX,
    ensures
        allowed_total(m, key, now, costs) <= record_of(m, key).config.unwrap().rate,
{
    let c = record_of(m, key).config.unwrap();
    let k = record_of(m, key);
    lemma_full_bucket(c);
    match k.bucket {
        Some(b) => {
            lemma_rescale_same(b.tokens as nat, c.per_millis as nat);
        },
        None => {},
    }
    lemma_total_bounded(m, key, now, costs, c);
    if c.algorithm == Algorithm::TokenBucket {
        let b = bucket_at(k.bucket, c, now);
        assert(b.tokens <= capacity(c));
        assert((b.tokens as int) / (c.per_millis as int) <= c.rate) by (nonlinear_arith)
            requires
                b.tokens <= c.rate * c.per_millis,
                c.per_millis >= 1,
        ;
    }
}

/// Where a scan of an all-or-nothing check from position `i` stops at a
/// denial, the denied item lies after `i`.
proof fn lemma_denied_position(m: StateModel, items: Seq<crate::types::ItemModel>, now: i64, i: int)
    requires
        0 <= i,
        multi_scan(m, items, now, i) is Denied,
    ensures
        i < multi_scan(m, items, now, i)->Denied_0 <= items.len(),
    decreases items.len() - i,
{
    if i < items.len() && multi_scan(m, items, now, i + 1) is Denied && multi_scan(m, items, now, i)
        == multi_scan(m, items, now, i + 1) {
        lemma_denied_position(m, items, now, i + 1);
    }
}

/// An all-or-nothing check that is denied charges no limit: the `Deny` event
/// that it records for its denied item leaves what every key has left as it
/// was.
pub proof fn denied_check_all_charges_nothing(
    m: StateModel,
    items: Seq<crate::types::ItemModel>,
    now: i64,
    other: Seq<char>,
)
    requires
        multi_scan(m, items, now, 0) is Denied,
    ensures
        ({
            let n = multi_scan(m, items, now, 0)->Denied_0;
            let key = items[n - 1].key;
            &&& 1 <= n <= items.len()
            &&& quota(
                record_of(
                    apply_model(m, EventModel::Deny { key, at: now, cost: cost_of_key(items, key) }),
                    other,
                ),
            ) == quota(record_of(m, other))
        }),
{
    lemma_denied_position(m, items, now, 0);
    let n = multi_scan(m, items, now, 0)->Denied_0;
    let key = items[n - 1].key;
    denial_takes_nothing(m, key, now, cost_of_key(items, key), other);
}

/// The total cost allowed when the checks `checks`, each a time and a cost,
/// are made against `key` one after the other, each recorded before the next.
pub open spec fn allowed_over(m: StateModel, key: Seq<char>, checks: Seq<(i64, u64)>) -> nat
    decreases checks.len(),
{
    if checks.len() == 0 {
        0
    } else {
        let t = checks[0].0;
        let cost = checks[0].1;
        let o = check_outcome(m, key, t, cost);
        let next = apply_model(m, check_event(key, t, cost, o.allowed));
        (if o.allowed {
            cost as nat
        } else {
            0
        }) + allowed_over(next, key, checks.drop_first())
    }
}

/// Whether the times of `checks` never go backwards and lie between `t1` and `t2`.
pub open spec fn times_within(checks: Seq<(i64, u64)>, t1: int, t2: int) -> bool {
    &&& forall|i: int| 0 <= i < checks.len() ==> t1 <= #[trigger] checks[i].0 <= t2
    &&& forall|i: int, j: int| 0 <= i < j < checks.len() ==> (#[trigger] checks[i]).0 <= (#[trigger] checks[j]).0
}

/// Whether `key` holds the token-bucket limit `c`, with a period of at least
/// one millisecond, and a bucket, if it has one, kept in the units of the
/// limit, no fuller than a full bucket and last refilled no later than `t`.
pub open spec fn bucket_steady(m: StateModel, key: Seq<char>, c: crate::types::ConfigModel, t: int) -> bool {
    let k = record_of(m, key);
    &&& k.config == Some(c)
    &&& c.algorithm == Algorithm::TokenBucket
    &&& c.per_millis >= 1
    &&& (k.bucket matches Some(b) ==> b.scale == c.per_millis && b.tokens <= capacity(c)
        && b.last_refill <= t)
}

proof fn lemma_times_rest(checks: Seq<(i64, u64)>, t1: int, t2: int)
    requires
        checks.len() > 0,
        times_within(checks, t1, t2),
    ensures
        times_within(checks.drop_first(), checks[0].0 as int, t2),
{
    let r = checks.drop_first();
    assert forall|i: int| 0 <= i < r.len() implies checks[0].0 <= #[trigger] r[i].0 <= t2 by {
        assert(r[i] == checks[i + 1]);
    }
    assert forall|i: int, j: int| 0 <= i < j < r.len() implies (#[trigger] r[i]).0 <= (#[trigger] r[j]).0 by {
        assert(r[i] == checks[i + 1] && r[j] == checks[j + 1]);
    }
}

/// Refilling later gives at most the refill of the time between.
proof fn lemma_refill_growth(k: KeyModel, c: crate::types::ConfigModel, t0: i64, t: i64)
    requires
        c.per_millis >= 1,
        t0 <= t,
        k.bucket matches Some(b) ==> b.scale == c.per_millis && b.tokens <= capacity(c) && b.last_refill <= t0,
    ensures
        bucket_at(k.bucket, c, t).tokens <= bucket_at(k.bucket, c, t0).tokens + (t - t0) * c.rate,
        bucket_at(k.bucket, c, t).tokens <= capacity(c),
        bucket_at(k.bucket, c, t).scale == c.per_millis,
        bucket_at(k.bucket, c, t).last_refill == t,
{
    let s = scale_of(c.per_millis);
    lemma_full_bucket(c);
    assert((t - t0) * c.rate >= 0) by (nonlinear_arith)
        requires
            t - t0 >= 0,
            c.rate >= 0,
    ;
    match k.bucket {
        None => {},
        Some(b) => {
            lemma_rescale_same(b.tokens as nat, s);
            if t0 > b.last_refill {
                assert((t - b.last_refill) * c.rate == (t0 - b.last_refill) * c.rate + (t - t0) * c.rate)
                    by (nonlinear_arith);
                assert((t0 - b.last_refill) * c.rate >= 0) by (nonlinear_arith)
                    requires
                        t0 - b.last_refill >= 0,
                        c.rate >= 0,
                ;
            } else if t > b.last_refill {
                assert(b.last_refill == t0);
            }
        },
    }
}

/// The bound of a token bucket over time, carried from one check to the next.
proof fn lemma_bucket_over(m: StateModel, key: Seq<char>, checks: Seq<(i64, u64)>, c: crate::types::ConfigModel, t0: i64, t2: int)
    requires
        bucket_steady(m, key, c, t0 as int),
        times_within(checks, t0 as int, t2),
        t0 <= t2,
    ensures
        allowed_over(m, key, checks) * c.per_millis <= bucket_at(record_of(m, key).bucket, c, t0).tokens
            + (t2 - t0) * c.rate,
    decreases checks.len(),
{
    let k = record_of(m, key);
    let s = scale_of(c.per_millis);
    lemma_full_bucket(c);
    if checks.len() == 0 {
        assert((t2 - t0) * c.rate >= 0) by (nonlinear_arith)
            requires
                t2 - t0 >= 0,
                c.rate >= 0,
        ;
        assert(allowed_over(m, key, checks) == 0);
    } else {
        let t = checks[0].0;
        let cost = checks[0].1;
        let o = check_outcome(m, key, t, cost);
        let next = apply_model(m, check_event(key, t, cost, o.allowed));
        lemma_refill_growth(k, c, t0, t);
        let b = bucket_at(k.bucket, c, t);
        let need = cost * s;
        let nk = record_of(next, key);
        if o.allowed {
            assert(b.tokens >= need);
            let nb = crate::types::BucketState { tokens: (b.tokens - need) as u128, ..b };
            assert(nk.bucket == Some(nb));
            lemma_rescale_same(nb.tokens as nat, s);
            assert(bucket_at(nk.bucket, c, t) == nb);
        } else {
            assert(nk.bucket == k.bucket);
        }
        assert(bucket_steady(next, key, c, t as int));
        lemma_times_rest(checks, t0 as int, t2);
        lemma_bucket_over(next, key, checks.drop_first(), c, t, t2);
        assert((t2 - t0) * c.rate == (t - t0) * c.rate + (t2 - t) * c.rate) by (nonlinear_arith);
        assert((if o.allowed { cost as nat } else { 0 }) * c.per_millis == (if o.allowed { need } else { 0 }))
            by (nonlinear_arith)
            requires
                s == c.per_millis,
                need == cost * s,
        ;
        let rest = allowed_over(next, key, checks.drop_first());
        let b0 = bucket_at(k.bucket, c, t0);
        assert(rest * c.per_millis <= bucket_at(nk.bucket, c, t).tokens + (t2 - t) * c.rate);
        assert(bucket_at(nk.bucket, c, t).tokens + (if o.allowed { need } else { 0 }) == b.tokens);
        assert(b.tokens <= b0.tokens + (t - t0) * c.rate);
        assert(allowed_over(m, key, checks) * c.per_millis == (if o.allowed { cost as nat } else { 0 })
            * c.per_millis + allowed_over(next, key, checks.drop_first()) * c.per_millis) by (nonlinear_arith)
            requires
                allowed_over(m, key, checks) == (if o.allowed { cost as nat } else { 0 }) + allowed_over(
                    next,
                    key,
                    checks.drop_first(),
                ),
        ;
    }
}

/// Over any stretch of time from `t1` to `t2`, a token bucket allows at most a
/// full bucket plus what flows in meanwhile: `rate` tokens at first, and `rate`
/// more per period, in proportion to the time. This holds for a limit whose
/// period is at least a millisecond and whose bucket, if it has one, is kept in
/// the limit's units, is no fuller than a full bucket and was last refilled no
/// later than `t1`; the checks may come at any times between `t1` and `t2` that
/// never go backwards.
pub proof fn token_bucket_bound_over_interval(
    m: StateModel,
    key: Seq<char>,
    checks: Seq<(i64, u64)>,
    t1: i64,
    t2: i64,
)
    requires
        record_of(m, key).config matches Some(c) && bucket_steady(m, key, c, t1 as int),
        times_within(checks, t1 as int, t2 as int),
        t1 <= t2,
    ensures
        ({
            let c = record_of(m, key).config.unwrap();
            allowed_over(m, key, checks) * c.per_millis <= c.rate * c.per_millis + (t2 - t1) * c.rate
        }),
{
    let c = record_of(m, key).config.unwrap();
    lemma_bucket_over(m, key, checks, c, t1, t2 as int);
    lemma_refill_growth(record_of(m, key), c, t1, t1);
}

/// Whether every check of `checks` comes between `t1` and `t2`, in any order.
pub open spec fn all_within(checks: Seq<(i64, u64)>, t1: int, t2: int) -> bool {
    forall|i: int| 0 <= i < checks.len() ==> t1 <= #[trigger] checks[i].0 <= t2
}

/// The entries of a sliding window log, none when it has none.
pub open spec fn entries_of(k: KeyModel) -> Seq<i64> {
    match k.sliding {
        Some(e) => e,
        None => Seq::empty(),
    }
}

/// Whether the last `q` entries of `e` are no earlier than `t1`.
pub open spec fn tail_from(e: Seq<i64>, t1: int, q: nat) -> bool {
    &&& q <= e.len()
    &&& forall|i: int| e.len() - q <= i < e.len() ==> #[trigger] e[i] >= t1
}

proof fn lemma_all_within_rest(checks: Seq<(i64, u64)>, t1: int, t2: int)
    requires
        checks.len() > 0,
        all_within(checks, t1, t2),
    ensures
        all_within(checks.drop_first(), t1, t2),
        t1 <= checks[0].0 <= t2,
{
    let r = checks.drop_first();
    assert forall|i: int| 0 <= i < r.len() implies t1 <= #[trigger] r[i].0 <= t2 by {
        assert(r[i] == checks[i + 1]);
    }
}

proof fn lemma_expired_before(s: Seq<i64>, cutoff: int, j: int)
    requires
        0 <= j < s.len(),
        s[j] > cutoff,
    ensures
        crate::algo::expired_count(s, cutoff) <= j,
    decreases s.len(),
{
    if s.len() > 0 && s[0] <= cutoff {
        assert(s.drop_first()[j - 1] == s[j]);
        lemma_expired_before(s.drop_first(), cutoff, j - 1);
    }
}

/// The bound of a sliding window, carried from one check to the next: `q`
/// entries at the end of the log come from the stretch itself.
proof fn lemma_sliding_over(
    m: StateModel,
    key: Seq<char>,
    checks: Seq<(i64, u64)>,
    c: crate::types::ConfigModel,
    t1: int,
    t2: int,
    q: nat,
)
    requires
        record_of(m, key).config == Some(c),
        c.algorithm == Algorithm::SlidingWindowLog,
        c.rate < u64::MAX,
        t2 - t1 < window_ms(c.per_millis),
        all_within(checks, t1, t2),
        tail_from(entries_of(record_of(m, key)), t1, q),
        entries_of(record_of(m, key)).len() <= u64::MAX,
    ensures
        allowed_over(m, key, checks) + q <= c.rate || allowed_over(m, key, checks) == 0,
    decreases checks.len(),
{
    if checks.len() > 0 {
        let k = record_of(m, key);
        let t = checks[0].0;
        let cost = checks[0].1;
        lemma_all_within_rest(checks, t1, t2);
        let o = check_outcome(m, key, t, cost);
        let next = apply_model(m, check_event(key, t, cost, o.allowed));
        let e = entries_of(k);
        let cutoff = t - window_ms(c.per_millis);
        let n = crate::algo::expired_count(e, cutoff);
        lemma_expired_le(e, cutoff);
        if q > 0 {
            lemma_expired_before(e, cutoff, e.len() - q);
        }
        let live = live_entries(k.sliding, c, t);
        assert(live == e.skip(n as int));
        assert(tail_from(live, t1, q)) by {
            assert forall|i: int| live.len() - q <= i < live.len() implies #[trigger] live[i] >= t1 by {
                assert(live[i] == e[i + n]);
            }
        }
        let nk = record_of(next, key);
        if o.allowed {
            let ne = live + Seq::new(cost as nat, |i: int| t);
            assert(nk.sliding == Some(ne));
            assert(tail_from(ne, t1, (q + cost) as nat)) by {
                assert forall|i: int| ne.len() - (q + cost) <= i < ne.len() implies #[trigger] ne[i] >= t1 by {
                    if i < live.len() {
                        assert(ne[i] == live[i]);
                    }
                }
            }
            lemma_sliding_over(next, key, checks.drop_first(), c, t1, t2, (q + cost) as nat);
        } else {
            assert(nk.sliding == k.sliding);
            lemma_sliding_over(next, key, checks.drop_first(), c, t1, t2, q);
        }
    }
}

/// Over any stretch of time shorter than a period, a sliding window log allows
/// at most its rate, however the checks are spread in it. This holds for a rate
/// below `u64::MAX` and a log whose length is a `u64`.
pub proof fn sliding_window_bound_over_interval(
    m: StateModel,
    key: Seq<char>,
    checks: Seq<(i64, u64)>,
    t1: i64,
    t2: i64,
)
    requires
        record_of(m, key).config matches Some(c) && c.algorithm == Algorithm::SlidingWindowLog
            && c.rate < u64::MAX && t2 - t1 < window_ms(c.per_millis),
        all_within(checks, t1 as int, t2 as int),
        entries_of(record_of(m, key)).len() <= u64::MAX,
    ensures
        allowed_over(m, key, checks) <= record_of(m, key).config.unwrap().rate,
{
    let c = record_of(m, key).config.unwrap();
    lemma_sliding_over(m, key, checks, c, t1 as int, t2 as int, 0);
}

/// Whether the fixed window `f` stays open until after `t2`: an open window
/// ends a period after it started, and one that has not started yet starts at
/// a check no earlier than `t1`.
pub open spec fn window_covers(f: Option<crate::types::FixedWindowState>, c: crate::types::ConfigModel, t1: int, t2: int) -> bool {
    match f {
        Some(w) => t2 < w.window_start + window_ms(c.per_millis),
        None => t2 - t1 < window_ms(c.per_millis),
    }
}

/// The units a fixed window has counted, none when it has not started.
pub open spec fn window_count(f: Option<crate::types::FixedWindowState>) -> nat {
    match f {
        Some(w) => w.count as nat,
        None => 0,
    }
}

proof fn lemma_fixed_over(m: StateModel, key: Seq<char>, checks: Seq<(i64, u64)>, c: crate::types::ConfigModel, t1: int, t2: int)
    requires
        record_of(m, key).config == Some(c),
        c.algorithm == Algorithm::FixedWindowCounter,
        c.rate < u64::MAX,
        all_within(checks, t1, t2),
        window_covers(record_of(m, key).fixed, c, t1, t2),
    ensures
        allowed_over(m, key, checks) + window_count(record_of(m, key).fixed) <= c.rate
            || allowed_over(m, key, checks) == 0,
    decreases checks.len(),
{
    if checks.len() > 0 {
        let k = record_of(m, key);
        let t = checks[0].0;
        let cost = checks[0].1;
        lemma_all_within_rest(checks, t1, t2);
        let o = check_outcome(m, key, t, cost);
        let next = apply_model(m, check_event(key, t, cost, o.allowed));
        let cur = window_at(k.fixed, c, t);
        assert(cur.count == window_count(k.fixed));
        let nk = record_of(next, key);
        if o.allowed {
            assert(nk.fixed == Some(crate::types::FixedWindowState { count: crate::algo::sat_add(cur.count, cost), ..cur }));
            lemma_fixed_over(next, key, checks.drop_first(), c, t1, t2);
        } else {
            assert(nk.fixed == k.fixed);
            lemma_fixed_over(next, key, checks.drop_first(), c, t1, t2);
        }
    }
}

/// Within one window a fixed window counter allows at most its rate: however
/// checks between `t1` and `t2` are spread, while the window that is open (or
/// that the first of them opens) has not ended. This holds for a rate below
/// `u64::MAX`.
pub proof fn fixed_window_bound_within_window(
    m: StateModel,
    key: Seq<char>,
    checks: Seq<(i64, u64)>,
    t1: i64,
    t2: i64,
)
    requires
        record_of(m, key).config matches Some(c) && c.algorithm == Algorithm::FixedWindowCounter
            && c.rate < u64::MAX && window_covers(record_of(m, key).fixed, c, t1 as int, t2 as int),
        all_within(checks, t1 as int, t2 as int),
    ensures
        allowed_over(m, key, checks) <= record_of(m, key).config.unwrap().rate,
{
    let c = record_of(m, key).config.unwrap();
    lemma_fixed_over(m, key, checks, c, t1 as int, t2 as int);
}

/// Whether the bucket `bucket`, read in the units of the limit `c`, holds no
/// more than a full bucket of `c`.
pub open spec fn bucket_fits(bucket: Option<crate::types::BucketState>, c: crate::types::ConfigModel) -> bool {
    match bucket {
        Some(b) => rescaled(b.tokens as nat, scale_of(b.scale), scale_of(c.per_millis)) <= capacity(c),
        None => true,
    }
}

/// Whether every token bucket of `m` holds no more than a full bucket of its
/// key's limit.
pub open spec fn buckets_within(m: StateModel) -> bool {
    forall|key: Seq<char>|
        #[trigger] m.limits.contains_key(key) ==> (record_of(m, key).config matches Some(c) ==> bucket_fits(
            record_of(m, key).bucket,
            c,
        ))
}

/// Whether applying `e` to `m` gives no key a limit smaller than what its
/// bucket already holds: only a new limit on a key can do that.
pub open spec fn keeps_buckets(m: StateModel, e: EventModel) -> bool {
    match e {
        EventModel::LimitConfigured { config } => bucket_fits(record_of(m, config.key).bucket, config),
        _ => true,
    }
}

proof fn lemma_bucket_at_fits(bucket: Option<crate::types::BucketState>, c: crate::types::ConfigModel, now: i64)
    requires
        bucket_fits(bucket, c),
    ensures
        bucket_at(bucket, c, now).tokens <= capacity(c),
        bucket_at(bucket, c, now).scale == scale_of(c.per_millis),
        bucket_fits(Some(bucket_at(bucket, c, now)), c),
{
    lemma_full_bucket(c);
    let s = scale_of(c.per_millis);
    match bucket {
        Some(b) => {
            if now > b.last_refill && c.per_millis != 0 {
                assert((now - b.last_refill) * c.rate >= 0) by (nonlinear_arith)
                    requires
                        now - b.last_refill >= 0,
                        c.rate >= 0,
                ;
            }
        },
        None => {},
    }
    let r = bucket_at(bucket, c, now);
    lemma_rescale_same(r.tokens as nat, s);
}

/// A bucket taken from, or left, after a check still fits.
proof fn lemma_consumed_fits(k: KeyModel, at: i64, cost: u64)
    requires
        k.config matches Some(c) ==> bucket_fits(k.bucket, c),
    ensures
        consumed(k, at, cost).config == k.config,
        consumed(k, at, cost).config matches Some(c) ==> bucket_fits(consumed(k, at, cost).bucket, c),
{
    if let Some(c) = k.config {
        if c.algorithm == Algorithm::TokenBucket {
            lemma_bucket_at_fits(k.bucket, c, at);
            let b = bucket_at(k.bucket, c, at);
            let need = cost * scale_of(c.per_millis);
            if b.tokens >= need {
                lemma_rescale_same((b.tokens - need) as nat, scale_of(c.per_millis));
            }
        }
    }
}

proof fn lemma_put_within(m: StateModel, key: Seq<char>, k: KeyModel)
    requires
        buckets_within(m),
        k.config matches Some(c) ==> bucket_fits(k.bucket, c),
    ensures
        buckets_within(put(m, key, k)),
{
    let n = put(m, key, k);
    assert forall|x: Seq<char>| #[trigger] n.limits.contains_key(x) implies (record_of(n, x).config matches Some(c)
        ==> bucket_fits(record_of(n, x).bucket, c)) by {
        if x != key {
            assert(m.limits.contains_key(x));
        }
    }
}

proof fn lemma_record_fits(m: StateModel, key: Seq<char>)
    requires
        buckets_within(m),
    ensures
        record_of(m, key).config matches Some(c) ==> bucket_fits(record_of(m, key).bucket, c),
{
    if m.limits.contains_key(key) {
    }
}

proof fn lemma_allow_items_within(m: StateModel, items: Seq<crate::types::ItemModel>, at: i64)
    requires
        buckets_within(m),
    ensures
        buckets_within(allow_items(m, items, at)),
    decreases items.len(),
{
    if items.len() > 0 {
        lemma_allow_items_within(m, items.drop_last(), at);
        let before = allow_items(m, items.drop_last(), at);
        let key = items.last().key;
        lemma_record_fits(before, key);
        let k = record_of(before, key);
        let mt = metrics_of(k);
        let counted = crate::types::LimitMetrics {
            total_allowed: (mt.total_allowed + 1) as u64,
            total_allowed_cost: crate::algo::sat_add(mt.total_allowed_cost, items.last().cost),
            last_allowed_at: Some(at),
            ..mt
        };
        lemma_consumed_fits(KeyModel { metrics: Some(counted), ..k }, at, items.last().cost);
        lemma_put_within(before, key, consumed(KeyModel { metrics: Some(counted), ..k }, at, items.last().cost));
    }
}

proof fn lemma_same_limits(a: StateModel, p: StateModel)
    requires
        a.limits == p.limits,
        buckets_within(p),
    ensures
        buckets_within(a),
{
    assert forall|x: Seq<char>| #[trigger] a.limits.contains_key(x) implies (record_of(a, x).config matches Some(c)
        ==> bucket_fits(record_of(a, x).bucket, c)) by {
        assert(p.limits.contains_key(x));
        assert(record_of(a, x) == record_of(p, x));
    }
}

/// Every event that gives no key a limit smaller than what its bucket holds
/// keeps every token bucket within a full bucket of its limit.
pub proof fn events_keep_buckets_within(m: StateModel, e: EventModel)
    requires
        buckets_within(m),
        keeps_buckets(m, e),
    ensures
        buckets_within(apply_model(m, e)),
{
    match e {
        EventModel::LimitConfigured { config } => {
            let k = record_of(m, config.key);
            let nk = KeyModel { config: Some(config), metrics: Some(metrics_of(k)), ..k };
            assert(bucket_fits(nk.bucket, config));
            lemma_put_within(m, config.key, nk);
            lemma_same_limits(apply_model(m, e), put(m, config.key, nk));
        },
        EventModel::Allow { key, at, cost } => {
            let one = seq![crate::types::ItemModel { key, cost }];
            assert(one.drop_last() =~= Seq::<crate::types::ItemModel>::empty());
            lemma_allow_items_within(m, one, at);
            assert(allow_items(m, one.drop_last(), at) == m);
            assert(one.last() == crate::types::ItemModel { key, cost });
            assert(allow_items(m, one, at) == allow_one(m, key, at, cost));
            lemma_same_limits(apply_model(m, e), allow_items(m, one, at));
        },
        EventModel::AllowAll { items, at } => {
            lemma_allow_items_within(m, items, at);
            lemma_same_limits(apply_model(m, e), allow_items(m, items, at));
        },
        EventModel::Deny { key, at, cost } => {
            lemma_record_fits(m, key);
            let k = record_of(m, key);
            let mt = metrics_of(k);
            let counted = crate::types::LimitMetrics {
                total_denied: (mt.total_denied + 1) as u64,
                total_denied_cost: crate::algo::sat_add(mt.total_denied_cost, cost),
                last_denied_at: Some(at),
                ..mt
            };
            lemma_put_within(m, key, KeyModel { metrics: Some(counted), ..k });
            lemma_same_limits(apply_model(m, e), put(m, key, KeyModel { metrics: Some(counted), ..k }));
        },
        EventModel::Reset { key, at } => {
            let k = record_of(m, key);
            let mt = metrics_of(k);
            if let Some(c) = k.config {
                lemma_full_bucket(c);
            }
            lemma_put_within(
                m,
                key,
                KeyModel {
                    metrics: Some(crate::types::LimitMetrics { last_reset_at: Some(at), ..mt }),
                    bucket: Some(crate::state::reset_bucket(k.config, at)),
                    fixed: None,
                    sliding: None,
                    ..k
                },
            );
        },
    }
}

/// Reading the status of a key, which refills its token bucket, keeps every
/// token bucket within a full bucket of its limit.
pub proof fn status_keeps_buckets_within(m: StateModel, key: Seq<char>, now: i64)
    requires
        buckets_within(m),
    ensures
        buckets_within(put(m, key, crate::queries::touched(record_of(m, key), now))),
{
    lemma_record_fits(m, key);
    let k = record_of(m, key);
    if let Some(c) = k.config {
        if c.algorithm == Algorithm::TokenBucket {
            lemma_bucket_at_fits(k.bucket, c, now);
        }
    }
    lemma_put_within(m, key, crate::queries::touched(k, now));
}

/// A log in which no event gives a key a limit smaller than what its bucket
/// already holds replays to a state whose every token bucket is within a full
/// bucket of its limit.
pub proof fn replay_keeps_buckets_within(events: Seq<EventModel>)
    requires
        forall|i: int| 0 <= i < events.len() ==> keeps_buckets(replay(events.take(i)), #[trigger] events[i]),
    ensures
        buckets_within(replay(events)),
    decreases events.len(),
{
    if events.len() > 0 {
        let init = events.drop_last();
        assert forall|i: int| 0 <= i < init.len() implies keeps_buckets(replay(init.take(i)), #[trigger] init[i]) by {
            assert(init.take(i) =~= events.take(i));
            assert(init[i] == events[i]);
        }
        replay_keeps_buckets_within(init);
        assert(events.take(init.len() as int) =~= init);
        events_keep_buckets_within(replay(init), events.last());
    }
}

/// In a state whose token buckets are within a full bucket of their limits,
/// no check and no status reports more units left than the limit's rate.
pub proof fn remaining_within_rate(m: StateModel, key: Seq<char>, now: i64, cost: u64)
    requires
        buckets_within(m),
        record_of(m, key).config is Some,
    ensures
        check_outcome(m, key, now, cost).remaining <= record_of(m, key).config.unwrap().rate,
        crate::queries::status_outcome(record_of(m, key), record_of(m, key).config.unwrap(), now).remaining
            <= record_of(m, key).config.unwrap().rate,
{
    lemma_record_fits(m, key);
    let k = record_of(m, key);
    let c = k.config.unwrap();
    if c.algorithm == Algorithm::TokenBucket {
        lemma_bucket_at_fits(k.bucket, c, now);
        let b = bucket_at(k.bucket, c, now);
        let s = scale_of(c.per_millis);
        assert(b.tokens as nat / s <= c.rate) by (nonlinear_arith)
            requires
                b.tokens <= c.rate * s,
                s >= 1,
        ;
        let need = cost * s;
        if b.tokens >= need {
            assert(((b.tokens - need) as nat) / s <= c.rate) by (nonlinear_arith)
                requires
                    b.tokens - need <= c.rate * s,
                    s >= 1,
                    b.tokens - need >= 0,
            ;
        }
    }
}

/// Whether a check of `item` alone on `m` at `now` is accepted and allowed.
pub open spec fn passes_alone(m: StateModel, item: crate::types::ItemModel, now: i64) -> bool {
    cost_refusal(m, item.key, item.cost) is None && check_outcome(m, item.key, now, item.cost).allowed
}

proof fn lemma_scan(m: StateModel, items: Seq<crate::types::ItemModel>, now: i64, i: int)
    requires
        0 <= i <= items.len(),
    ensures
        match multi_scan(m, items, now, i) {
            MultiScan::Passed => forall|j: int| i <= j < items.len() ==> passes_alone(m, #[trigger] items[j], now),
            MultiScan::Denied(n) => {
                &&& i < n <= items.len()
                &&& forall|j: int| i <= j < n - 1 ==> passes_alone(m, #[trigger] items[j], now)
                &&& cost_refusal(m, items[n - 1].key, items[n - 1].cost) is None
                &&& !check_outcome(m, items[n - 1].key, now, items[n - 1].cost).allowed
            },
            MultiScan::Refused(r) => exists|j: int|
                i <= j < items.len() && (forall|l: int| i <= l < j ==> passes_alone(m, #[trigger] items[l], now))
                    && cost_refusal(m, items[j].key, items[j].cost) == Some(r),
        },
    decreases items.len() - i,
{
    if i < items.len() {
        lemma_scan(m, items, now, i + 1);
        match multi_scan(m, items, now, i) {
            MultiScan::Refused(r) => {
                if cost_refusal(m, items[i].key, items[i].cost) is None {
                    let j = choose|j: int|
                        i + 1 <= j < items.len() && (forall|l: int| i + 1 <= l < j ==> passes_alone(m, #[trigger] items[l], now))
                            && cost_refusal(m, items[j].key, items[j].cost) == Some(r);
                    assert forall|l: int| i <= l < j implies passes_alone(m, #[trigger] items[l], now) by {}
                } else {
                    assert forall|l: int| i <= l < i implies passes_alone(m, #[trigger] items[l], now) by {}
                }
            },
            _ => {},
        }
    }
}

proof fn lemma_cost_of_distinct(items: Seq<crate::types::ItemModel>, j: int)
    requires
        distinct_keys(items),
        0 <= j < items.len(),
    ensures
        cost_of_key(items, items[j].key) == items[j].cost,
    decreases items.len(),
{
    if j > 0 {
        let rest = items.drop_first();
        assert(distinct_keys(rest)) by {
            assert forall|a: int, b: int| 0 <= a < b < rest.len() implies (#[trigger] rest[a]).key
                != (#[trigger] rest[b]).key by {
                assert(rest[a] == items[a + 1] && rest[b] == items[b + 1]);
            }
        }
        assert(items[0].key != items[j].key);
        assert(rest[j - 1] == items[j]);
        lemma_cost_of_distinct(rest, j - 1);
    }
}

/// An all-or-nothing check decides as checks of its items alone would on the
/// state before it: it passes when each item alone would be accepted and
/// allowed; it is denied at the first item that alone would be denied, every
/// item before it passing; it is refused at the first item that alone would be
/// refused. What it records then counts as the rule says: when it passes, each
/// item's key counts one allowed check of its cost and gives up that cost; when
/// it is denied, only the denied key counts one denied check of its cost; every
/// other key stays as it was, and the one event goes last in the history.
pub proof fn check_all_is_each_check_alone(m: StateModel, items: Seq<crate::types::ItemModel>, now: i64)
    requires
        distinct_keys(items),
    ensures
        match multi_scan(m, items, now, 0) {
            MultiScan::Passed => {
                let e = EventModel::AllowAll { items, at: now };
                let a = apply_model(m, e);
                &&& forall|j: int| 0 <= j < items.len() ==> passes_alone(m, #[trigger] items[j], now)
                &&& a.history == m.history.push(e)
                &&& forall|j: int|
                    0 <= j < items.len() ==> metrics_of(record_of(a, (#[trigger] items[j]).key)) == counted_allow(
                        metrics_of(record_of(m, items[j].key)),
                        now,
                        items[j].cost,
                    ) && quota(record_of(a, items[j].key)) == quota(
                        consumed(record_of(m, items[j].key), now, items[j].cost),
                    )
                &&& forall|k: Seq<char>|
                    (forall|j: int| 0 <= j < items.len() ==> (#[trigger] items[j]).key != k) ==> record_of(a, k)
                        == record_of(m, k)
            },
            MultiScan::Denied(n) => {
                let key = items[n - 1].key;
                let e = EventModel::Deny { key, at: now, cost: cost_of_key(items, key) };
                let a = apply_model(m, e);
                &&& 1 <= n <= items.len()
                &&& forall|j: int| 0 <= j < n - 1 ==> passes_alone(m, #[trigger] items[j], now)
                &&& cost_refusal(m, key, items[n - 1].cost) is None
                &&& !check_outcome(m, key, now, items[n - 1].cost).allowed
                &&& cost_of_key(items, key) == items[n - 1].cost
                &&& a.history == m.history.push(e)
                &&& metrics_of(record_of(a, key)) == counted_deny(metrics_of(record_of(m, key)), now, items[n - 1].cost)
                &&& quota(record_of(a, key)) == quota(record_of(m, key))
                &&& forall|k: Seq<char>| k != key ==> record_of(a, k) == record_of(m, k)
            },
            MultiScan::Refused(r) => exists|j: int|
                0 <= j < items.len() && (forall|l: int| 0 <= l < j ==> passes_alone(m, #[trigger] items[l], now))
                    && cost_refusal(m, items[j].key, items[j].cost) == Some(r),
        },
{
    lemma_scan(m, items, now, 0);
    match multi_scan(m, items, now, 0) {
        MultiScan::Passed => {
            allowed_check_all_takes_every_item(m, items, now);
            let a = apply_model(m, EventModel::AllowAll { items, at: now });
            assert(a.limits == allow_items(m, items, now).limits);
        },
        MultiScan::Denied(n) => {
            let key = items[n - 1].key;
            lemma_cost_of_distinct(items, n - 1);
            assert forall|k: Seq<char>| k != key implies record_of(
                apply_model(m, EventModel::Deny { key, at: now, cost: cost_of_key(items, key) }),
                k,
            ) == record_of(m, k) by {
                denial_takes_nothing(m, key, now, cost_of_key(items, key), k);
            }
            denial_takes_nothing(m, key, now, cost_of_key(items, key), key);
        },
        _ => {},
    }
}

/// Whether every key of `m` holds counters exactly when it holds a limit.
pub open spec fn counters_match_limits(m: StateModel) -> bool {
    forall|key: Seq<char>|
        #[trigger] m.limits.contains_key(key) ==> (m.limits[key].metrics is Some <==> m.limits[key].config is Some)
}

/// Whether every key that `e` checks or resets holds a limit in `m`, as every
/// event that the limiter records does.
pub open spec fn names_configured(m: StateModel, e: EventModel) -> bool {
    match e {
        EventModel::LimitConfigured { .. } => true,
        EventModel::Allow { key, .. } => record_of(m, key).config is Some,
        EventModel::Deny { key, .. } => record_of(m, key).config is Some,
        EventModel::Reset { key, .. } => record_of(m, key).config is Some,
        EventModel::AllowAll { items, .. } => forall|i: int|
            0 <= i < items.len() ==> record_of(m, (#[trigger] items[i]).key).config is Some,
    }
}

proof fn lemma_put_match(m: StateModel, key: Seq<char>, k: KeyModel)
    requires
        counters_match_limits(m),
        k.metrics is Some <==> k.config is Some,
    ensures
        counters_match_limits(put(m, key, k)),
{
    let n = put(m, key, k);
    assert forall|x: Seq<char>| #[trigger] n.limits.contains_key(x) implies (n.limits[x].metrics is Some
        <==> n.limits[x].config is Some) by {
        if x != key {
            assert(m.limits.contains_key(x));
        }
    }
}

proof fn lemma_match_same_limits(a: StateModel, p: StateModel)
    requires
        a.limits == p.limits,
        counters_match_limits(p),
    ensures
        counters_match_limits(a),
{
    assert forall|x: Seq<char>| #[trigger] a.limits.contains_key(x) implies (a.limits[x].metrics is Some
        <==> a.limits[x].config is Some) by {
        assert(p.limits.contains_key(x));
    }
}

proof fn lemma_allow_items_match(m: StateModel, items: Seq<crate::types::ItemModel>, at: i64)
    requires
        counters_match_limits(m),
        forall|i: int| 0 <= i < items.len() ==> record_of(m, (#[trigger] items[i]).key).config is Some,
    ensures
        counters_match_limits(allow_items(m, items, at)),
        forall|key: Seq<char>| record_of(allow_items(m, items, at), key).config == #[trigger] record_of(m, key).config,
    decreases items.len(),
{
    if items.len() > 0 {
        let init = items.drop_last();
        assert forall|i: int| 0 <= i < init.len() implies record_of(m, (#[trigger] init[i]).key).config is Some by {
            assert(init[i] == items[i]);
        }
        lemma_allow_items_match(m, init, at);
        let before = allow_items(m, init, at);
        let key = items.last().key;
        let k = record_of(before, key);
        assert(record_of(m, items[items.len() - 1].key).config is Some);
        let counted = counted_allow(metrics_of(k), at, items.last().cost);
        assert(consumed(KeyModel { metrics: Some(counted), ..k }, at, items.last().cost).metrics == Some(counted));
        lemma_put_match(before, key, consumed(KeyModel { metrics: Some(counted), ..k }, at, items.last().cost));
    }
}

/// Every event that checks or resets only keys with limits keeps counters on
/// exactly the keys that hold a limit.
pub proof fn events_keep_counters_with_limits(m: StateModel, e: EventModel)
    requires
        counters_match_limits(m),
        names_configured(m, e),
    ensures
        counters_match_limits(apply_model(m, e)),
{
    match e {
        EventModel::LimitConfigured { config } => {
            let k = record_of(m, config.key);
            let nk = KeyModel { config: Some(config), metrics: Some(metrics_of(k)), ..k };
            lemma_put_match(m, config.key, nk);
            lemma_match_same_limits(apply_model(m, e), put(m, config.key, nk));
        },
        EventModel::Allow { key, at, cost } => {
            let one = seq![crate::types::ItemModel { key, cost }];
            assert(one.drop_last() =~= Seq::<crate::types::ItemModel>::empty());
            assert(allow_items(m, one.drop_last(), at) == m);
            assert(one.last() == crate::types::ItemModel { key, cost });
            assert(one[0].key == key);
            lemma_allow_items_match(m, one, at);
            lemma_match_same_limits(apply_model(m, e), allow_items(m, one, at));
        },
        EventModel::AllowAll { items, at } => {
            lemma_allow_items_match(m, items, at);
            lemma_match_same_limits(apply_model(m, e), allow_items(m, items, at));
        },
        EventModel::Deny { key, at, cost } => {
            let k = record_of(m, key);
            let nk = KeyModel { metrics: Some(counted_deny(metrics_of(k), at, cost)), ..k };
            lemma_put_match(m, key, nk);
            lemma_match_same_limits(apply_model(m, e), put(m, key, nk));
        },
        EventModel::Reset { key, at } => {
            let k = record_of(m, key);
            let nk = KeyModel {
                metrics: Some(crate::types::LimitMetrics { last_reset_at: Some(at), ..metrics_of(k) }),
                bucket: Some(crate::state::reset_bucket(k.config, at)),
                fixed: None,
                sliding: None,
                ..k
            };
            lemma_put_match(m, key, nk);
            lemma_match_same_limits(apply_model(m, e), put(m, key, nk));
        },
    }
}

/// A log whose every event checks or resets only keys that hold a limit at
/// that point replays to a state with counters on exactly the keys that hold a
/// limit.
pub proof fn replay_keeps_counters_with_limits(events: Seq<EventModel>)
    requires
        forall|i: int| 0 <= i < events.len() ==> names_configured(replay(events.take(i)), #[trigger] events[i]),
    ensures
        counters_match_limits(replay(events)),
    decreases events.len(),
{
    if events.len() > 0 {
        let init = events.drop_last();
        assert forall|i: int| 0 <= i < init.len() implies names_configured(replay(init.take(i)), #[trigger] init[i]) by {
            assert(init.take(i) =~= events.take(i));
            assert(init[i] == events[i]);
        }
        replay_keeps_counters_with_limits(init);
        assert(events.take(init.len() as int) =~= init);
        events_keep_counters_with_limits(replay(init), events.last());
    }
}

/// Reading the status of a key keeps counters on exactly the keys that hold a
/// limit.
pub proof fn status_keeps_counters_with_limits(m: StateModel, key: Seq<char>, now: i64)
    requires
        counters_match_limits(m),
    ensures
        counters_match_limits(put(m, key, crate::queries::touched(record_of(m, key), now))),
{
    if m.limits.contains_key(key) {
    }
    lemma_put_match(m, key, crate::queries::touched(record_of(m, key), now));
}

proof fn lemma_configured_count(m: StateModel, keys: Seq<Seq<char>>)
    ensures
        crate::queries::count_set(Seq::new(keys.len(), |i: int| record_of(m, keys[i]).config is Some))
            == crate::queries::configured_in(m, keys).len(),
    decreases keys.len(),
{
    if keys.len() > 0 {
        let init = keys.drop_last();
        lemma_configured_count(m, init);
        let f = Seq::new(keys.len(), |i: int| record_of(m, keys[i]).config is Some);
        assert(f.drop_last() =~= Seq::new(init.len(), |i: int| record_of(m, init[i]).config is Some));
    }
}

/// The number of limits that `doctor` reports is the number of summaries that
/// `list` gives: both count the keys that hold a limit. Where counters sit on
/// exactly the keys that hold a limit, `top` ranks those same keys.
pub proof fn doctor_counts_the_listed_limits(m: StateModel)
    ensures
        crate::queries::count_set(crate::queries::config_flags(m)) == crate::queries::configured_in(
            m,
            m.order,
        ).len(),
        counters_match_limits(m) && crate::state::well_ordered(m) ==> crate::queries::metric_flags(m)
            == crate::queries::config_flags(m),
{
    lemma_configured_count(m, m.order);
    if counters_match_limits(m) && crate::state::well_ordered(m) {
        assert forall|i: int| 0 <= i < m.order.len() implies #[trigger] crate::queries::metric_flags(m)[i]
            == crate::queries::config_flags(m)[i] by {
            assert(m.order.contains(m.order[i]));
            assert(m.limits.contains_key(m.order[i]));
        }
        assert(crate::queries::metric_flags(m) =~= crate::queries::config_flags(m));
    }
}

proof fn lemma_refill_twice(b: crate::types::BucketState, c: crate::types::ConfigModel, now: i64, t: i64)
    requires
        now <= t,
    ensures
        refilled(refilled(b, c, now), c, t).tokens == refilled(b, c, t).tokens,
{
    let s = scale_of(c.per_millis);
    lemma_full_bucket(c);
    let r1 = refilled(b, c, now);
    lemma_rescale_same(r1.tokens as nat, s);
    if now > b.last_refill && c.per_millis != 0 {
        assert((t - b.last_refill) * c.rate == (now - b.last_refill) * c.rate + (t - now) * c.rate)
            by (nonlinear_arith);
        assert((now - b.last_refill) * c.rate >= 0) by (nonlinear_arith)
            requires
                now - b.last_refill >= 0,
                c.rate >= 0,
        ;
        assert((t - now) * c.rate >= 0) by (nonlinear_arith)
            requires
                t - now >= 0,
                c.rate >= 0,
        ;
    }
}

/// Reading the status of a key changes no later result: a check or a status
/// of that key at `now` or after gives what it would have given without it.
pub proof fn status_changes_no_later_result(m: StateModel, key: Seq<char>, now: i64, t: i64, cost: u64)
    requires
        now <= t,
        record_of(m, key).config is Some,
    ensures
        ({
            let after = put(m, key, crate::queries::touched(record_of(m, key), now));
            let c = record_of(m, key).config.unwrap();
            &&& check_outcome(after, key, t, cost) == check_outcome(m, key, t, cost)
            &&& crate::queries::status_outcome(record_of(after, key), c, t) == crate::queries::status_outcome(
                record_of(m, key),
                c,
                t,
            )
        }),
{
    let k = record_of(m, key);
    let c = k.config.unwrap();
    if c.algorithm == Algorithm::TokenBucket {
        let b0 = match k.bucket {
            Some(b) => b,
            None => fresh_bucket(c, now),
        };
        lemma_refill_twice(b0, c, now, t);
        if k.bucket is None {
            lemma_full_bucket(c);
            let f = fresh_bucket(c, t);
            lemma_refill_twice(f, c, t, t);
            assert(refilled(f, c, t).tokens == capacity(c));
            assert(refilled(b0, c, t).tokens == capacity(c));
        }
    }
}

/// The state that putting back, in their order, the records of the first `n`
/// keys of `m` gives, as loading a snapshot does.
pub open spec fn rebuild(m: StateModel, n: nat) -> StateModel
    decreases n,
{
    if n == 0 || n > m.order.len() {
        initial_model()
    } else {
        put(rebuild(m, (n - 1) as nat), m.order[n - 1], m.limits[m.order[n - 1]])
    }
}

proof fn lemma_rebuild(m: StateModel, n: nat)
    requires
        crate::state::well_ordered(m),
        n <= m.order.len(),
    ensures
        rebuild(m, n).order == m.order.take(n as int),
        rebuild(m, n).history == Seq::<EventModel>::empty(),
        forall|k: Seq<char>| #[trigger] rebuild(m, n).limits.contains_key(k) <==> m.order.take(n as int).contains(k),
        forall|k: Seq<char>| #[trigger] rebuild(m, n).limits.contains_key(k) ==> rebuild(m, n).limits[k] == m.limits[k],
    decreases n,
{
    if n > 0 {
        lemma_rebuild(m, (n - 1) as nat);
        let key = m.order[n - 1];
        let prev = m.order.take(n - 1);
        assert(!prev.contains(key)) by {
            if prev.contains(key) {
                let j = choose|j: int| 0 <= j < prev.len() && prev[j] == key;
                assert(m.order[j] == m.order[n - 1]);
            }
        }
        assert(m.order.take(n as int) =~= prev.push(key));
        assert forall|k: Seq<char>| #[trigger] rebuild(m, n).limits.contains_key(k) <==> m.order.take(
            n as int,
        ).contains(k) by {
            if k != key && m.order.take(n as int).contains(k) {
                let j = choose|j: int| 0 <= j < n && m.order.take(n as int)[j] == k;
                assert(prev[j] == k);
            }
            if k == key {
                assert(m.order.take(n as int)[n - 1] == key);
            }
        }
    }
}

/// Loading a snapshot rebuilds the state: putting back every key's record, in
/// the order in which the keys arrived, and then the history, gives the state
/// that was saved.
pub proof fn snapshot_reload_rebuilds_state(m: StateModel)
    requires
        crate::state::well_ordered(m),
    ensures
        (StateModel { history: m.history, ..rebuild(m, m.order.len()) }) == m,
{
    let n = m.order.len();
    lemma_rebuild(m, n);
    let r = rebuild(m, n);
    assert(m.order.take(n as int) =~= m.order);
    assert(r.limits =~= m.limits) by {
        assert forall|k: Seq<char>| r.limits.contains_key(k) <==> m.limits.contains_key(k) by {}
    }
}

/// An allowed check reports what is left of the limit once its cost is taken:
/// what a status read at the same instant reports right after the check is
/// recorded (units left, reset time), and exactly its cost fewer units than a
/// status read just before it. This holds for a period of at least a
/// millisecond, a rate below `u64::MAX`, a token bucket no fuller than a full
/// bucket, and a sliding log whose length is a `u64`.
pub proof fn allowed_check_reports_what_is_left(m: StateModel, key: Seq<char>, now: i64, cost: u64)
    requires
        record_of(m, key).config matches Some(c) && c.per_millis >= 1 && c.rate < u64::MAX && bucket_fits(
            record_of(m, key).bucket,
            c,
        ),
        entries_of(record_of(m, key)).len() <= u64::MAX,
        check_outcome(m, key, now, cost).allowed,
    ensures
        ({
            let c = record_of(m, key).config.unwrap();
            let o = check_outcome(m, key, now, cost);
            let after = apply_model(m, check_event(key, now, cost, true));
            &&& crate::queries::status_outcome(record_of(after, key), c, now) == o
            &&& crate::queries::status_outcome(record_of(m, key), c, now).remaining == o.remaining + cost
        }),
{
    let k = record_of(m, key);
    let c = k.config.unwrap();
    let s = scale_of(c.per_millis);
    let w = window_ms(c.per_millis);
    let after = apply_model(m, check_event(key, now, cost, true));
    let nk = record_of(after, key);
    match c.algorithm {
        Algorithm::TokenBucket => {
            lemma_bucket_at_fits(k.bucket, c, now);
            let b = bucket_at(k.bucket, c, now);
            let need = cost * s;
            lemma_floor_step(b.tokens as int, cost as int, s as int);
            assert(b.tokens >= need);
            let nb = crate::types::BucketState { tokens: (b.tokens - need) as u128, ..b };
            assert(nk.bucket == Some(nb));
            lemma_rescale_same(nb.tokens as nat, s);
            assert(bucket_at(nk.bucket, c, now) == nb);
            assert(b.tokens as nat / s <= c.rate) by (nonlinear_arith)
                requires
                    b.tokens <= c.rate * s,
                    s >= 1,
            ;
            let o = check_outcome(m, key, now, cost);
            assert(o == crate::algo::token_outcome(nb, c, true, now));
            assert(crate::queries::status_outcome(nk, c, now) == o);
            assert((nb.tokens as int) / (s as int) == (b.tokens as int) / (s as int) - cost);
            assert(crate::queries::status_outcome(k, c, now).remaining == (b.tokens as int) / (s as int));
        },
        Algorithm::SlidingWindowLog => {
            let e = entries_of(k);
            let live = live_entries(k.sliding, c, now);
            lemma_expired_le(e, now - w);
            lemma_live_front(e, now - w);
            lemma_pruned_fresh(live, cost as nat, now, now - w);
            let ne = live + Seq::new(cost as nat, |i: int| now);
            assert(live == e.skip(crate::algo::expired_count(e, now - w) as int));
            assert(live.len() <= e.len());
            assert(nk.sliding == Some(ne));
            assert(live_entries(nk.sliding, c, now) == ne);
            if live.len() == 0 && cost > 0 {
                assert(ne[0] == now);
            }
            if live.len() > 0 {
                assert(ne[0] == live[0]);
            }
            assert(crate::queries::status_outcome(nk, c, now) == check_outcome(m, key, now, cost));
            assert(crate::queries::status_outcome(k, c, now).remaining == check_outcome(m, key, now, cost).remaining + cost);
        },
        Algorithm::FixedWindowCounter => {
            let cur = window_at(k.fixed, c, now);
            assert(nk.fixed == Some(crate::types::FixedWindowState { count: crate::algo::sat_add(cur.count, cost), ..cur }));
            assert(crate::queries::status_outcome(nk, c, now) == check_outcome(m, key, now, cost));
            assert(crate::queries::status_outcome(k, c, now).remaining == check_outcome(m, key, now, cost).remaining + cost);
        },
    }
}

/// A fixed window frees up when the window that is open ends, whatever the
/// time of the query: a check that is allowed reports the end of its window,
/// and every check and status read until that end, after the check is
/// recorded, reports that same time.
pub proof fn fixed_window_reset_is_the_end_of_the_window(m: StateModel, key: Seq<char>, now: i64, cost: u64, later: i64, cost2: u64)
    requires
        record_of(m, key).config matches Some(c) && c.algorithm == Algorithm::FixedWindowCounter
            && c.per_millis >= 1,
        check_outcome(m, key, now, cost).allowed,
        now <= later < check_outcome(m, key, now, cost).reset_at,
    ensures
        ({
            let c = record_of(m, key).config.unwrap();
            let o = check_outcome(m, key, now, cost);
            let after = apply_model(m, check_event(key, now, cost, true));
            &&& crate::queries::status_outcome(record_of(after, key), c, later).reset_at == o.reset_at
            &&& check_outcome(after, key, later, cost2).reset_at == o.reset_at
        }),
{
    let k = record_of(m, key);
    let c = k.config.unwrap();
    let cur = window_at(k.fixed, c, now);
    let after = apply_model(m, check_event(key, now, cost, true));
    assert(record_of(after, key).fixed == Some(crate::types::FixedWindowState { count: crate::algo::sat_add(cur.count, cost), ..cur }));
}

proof fn lemma_allow_items_other(m: StateModel, items: Seq<crate::types::ItemModel>, at: i64, k: Seq<char>)
    requires
        forall|i: int| 0 <= i < items.len() ==> (#[trigger] items[i]).key != k,
    ensures
        record_of(allow_items(m, items, at), k) == record_of(m, k),
    decreases items.len(),
{
    if items.len() > 0 {
        let init = items.drop_last();
        assert forall|i: int| 0 <= i < init.len() implies (#[trigger] init[i]).key != k by {
            assert(init[i] == items[i]);
        }
        lemma_allow_items_other(m, init, at, k);
        assert(items[items.len() - 1].key != k);
    }
}

/// Every event that changes what a key holds is listed, last, in that key's
/// history: a limit set on it, a check or a reset of it, or an all-or-nothing
/// check with an item for it.
pub proof fn history_lists_every_event_that_changes_a_key(m: StateModel, e: EventModel, k: Seq<char>)
    requires
        record_of(apply_model(m, e), k) != record_of(m, k),
    ensures
        crate::queries::events_for(apply_model(m, e).history, k) == crate::queries::events_for(m.history, k).push(e),
{
    if !crate::queries::event_matches_key(e, k) {
        match e {
            EventModel::AllowAll { items, at } => {
                assert forall|i: int| 0 <= i < items.len() implies (#[trigger] items[i]).key != k by {
                    if items[i].key == k {
                        assert(crate::queries::names_key(items, k));
                    }
                }
                lemma_allow_items_other(m, items, at, k);
            },
            _ => {},
        }
        assert(record_of(apply_model(m, e), k) == record_of(m, k));
    }
    assert(m.history.push(e).drop_last() =~= m.history);
}

/// Setting a limit on a key changes only the limit: the key's token bucket,
/// fixed window and sliding log, and its counters (zero if it had none), stay
/// as they were, and every other key stays. Setting the limit that a key
/// already has therefore changes no check of it.
pub proof fn configuring_keeps_what_a_key_has_used(m: StateModel, cfg: crate::types::ConfigModel)
    ensures
        ({
            let a = apply_model(m, EventModel::LimitConfigured { config: cfg });
            let k = record_of(m, cfg.key);
            let k2 = record_of(a, cfg.key);
            &&& k2.config == Some(cfg)
            &&& k2.bucket == k.bucket
            &&& k2.fixed == k.fixed
            &&& k2.sliding == k.sliding
            &&& metrics_of(k2) == metrics_of(k)
            &&& forall|other: Seq<char>| other != cfg.key ==> record_of(a, other) == record_of(m, other)
            &&& k.config == Some(cfg) ==> forall|t: i64, cost: u64| #[trigger] check_outcome(a, cfg.key, t, cost)
                == check_outcome(m, cfg.key, t, cost)
        }),
{
}

} // verus!
