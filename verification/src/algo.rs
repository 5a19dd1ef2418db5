//! The three rate-limiting algorithms, on the state that one key holds.
//!
//! Times are milliseconds since the Unix epoch. Sums of a time and a period are
//! computed without overflow, in `i128`.

use std::collections::VecDeque;

use vstd::arithmetic::div_mod::{lemma_fundamental_div_mod, lemma_hoist_over_denominator};
use vstd::prelude::*;

use crate::types::{
    Algorithm, BucketState, CheckResult, ConfigModel, FixedWindowState, LimitConfig, LimitMetrics,
};

verus! {

/// What one key holds: its configuration, the state of each algorithm and its
/// counters. A part is `None` until something first writes it.
#[derive(Debug, Clone)]
pub struct KeyRecord {
    pub config: Option<LimitConfig>,
    pub bucket: Option<BucketState>,
    pub fixed: Option<FixedWindowState>,
    pub sliding: Option<VecDeque<i64>>,
    pub metrics: Option<LimitMetrics>,
}

/// A key's record as a mathematical value.
pub struct KeyModel {
    pub config: Option<ConfigModel>,
    pub bucket: Option<BucketState>,
    pub fixed: Option<FixedWindowState>,
    pub sliding: Option<Seq<i64>>,
    pub metrics: Option<LimitMetrics>,
}

/// The view of an optional configuration.
pub open spec fn config_view(c: Option<LimitConfig>) -> Option<ConfigModel> {
    match c {
        Some(c) => Some(c@),
        None => None,
    }
}

/// The view of an optional sliding window.
pub open spec fn sliding_view(s: Option<VecDeque<i64>>) -> Option<Seq<i64>> {
    match s {
        Some(s) => Some(s@),
        None => None,
    }
}

impl View for KeyRecord {
    type V = KeyModel;

    open spec fn view(&self) -> KeyModel {
        KeyModel {
            config: config_view(self.config),
            bucket: self.bucket,
            fixed: self.fixed,
            sliding: sliding_view(self.sliding),
            metrics: self.metrics,
        }
    }
}

/// The record of a key that nothing has written.
pub open spec fn empty_model() -> KeyModel {
    KeyModel { config: None, bucket: None, fixed: None, sliding: None, metrics: None }
}

impl KeyRecord {
    /// A record that holds nothing.
    pub fn empty() -> (r: KeyRecord)
        ensures
            r@ == empty_model(),
    {
        KeyRecord { config: None, bucket: None, fixed: None, sliding: None, metrics: None }
    }
}

/// What a check decides and reports, apart from the key, the cost and the
/// algorithm.
pub struct Outcome {
    pub allowed: bool,
    pub remaining: u64,
    pub reset_at: int,
}

/// Whether `r` reports `o` for a check of `cost` against `c`.
pub open spec fn reports(r: CheckResult, c: ConfigModel, cost: u64, o: Outcome) -> bool {
    &&& r.key@ == c.key
    &&& r.allowed == o.allowed
    &&& r.cost == cost
    &&& r.remaining == o.remaining
    &&& r.reset_at == o.reset_at
    &&& r.algorithm == c.algorithm
}

/// `a + b`, or `u64::MAX` when that does not fit.
pub open spec fn sat_add(a: u64, b: u64) -> u64 {
    if a + b > u64::MAX {
        u64::MAX
    } else {
        (a + b) as u64
    }
}

/// `a - b`, or zero when that is negative.
pub open spec fn sat_sub(a: u64, b: u64) -> u64 {
    if a < b {
        0
    } else {
        (a - b) as u64
    }
}

/// The units into which a bucket of a limit with this period splits one token.
pub open spec fn scale_of(per_millis: u64) -> nat {
    if per_millis == 0 {
        1
    } else {
        per_millis as nat
    }
}

/// A full bucket of the limit `c`, in units.
pub open spec fn capacity(c: ConfigModel) -> nat {
    (c.rate as nat) * scale_of(c.per_millis)
}

/// The period of a limit as a span of time, which is at most `i64::MAX` milliseconds.
pub open spec fn window_ms(per_millis: u64) -> nat {
    if per_millis > i64::MAX {
        i64::MAX as nat
    } else {
        per_millis as nat
    }
}

/// `tokens` units of size `1 / from` expressed in units of size `1 / to`,
/// rounded down, and held at `u128::MAX` when they exceed it.
pub open spec fn rescaled(tokens: nat, from: nat, to: nat) -> nat {
    let v = tokens * to / from;
    if v > u128::MAX {
        u128::MAX as nat
    } else {
        v
    }
}

/// The bucket that a limit starts with: full, refilled at `now`.
pub open spec fn fresh_bucket(c: ConfigModel, now: i64) -> BucketState {
    BucketState {
        tokens: capacity(c) as u128,
        scale: scale_of(c.per_millis) as u64,
        last_refill: now,
    }
}

/// The bucket `b` refilled at `now` under the limit `c`: `rate` tokens flow in
/// per period, in proportion to the time since the last refill, up to a full
/// bucket; a zero period fills it at once. Time that runs backwards refills nothing.
pub open spec fn refilled(b: BucketState, c: ConfigModel, now: i64) -> BucketState {
    let s = scale_of(c.per_millis);
    let t = rescaled(b.tokens as nat, scale_of(b.scale), s);
    if now <= b.last_refill {
        BucketState { tokens: t as u128, scale: s as u64, last_refill: b.last_refill }
    } else {
        let cap = capacity(c);
        let gain: int = if c.per_millis == 0 {
            cap as int
        } else {
            (now - b.last_refill) * c.rate
        };
        let total = t + gain;
        BucketState {
            tokens: (if total > cap {
                cap as int
            } else {
                total
            }) as u128,
            scale: s as u64,
            last_refill: now,
        }
    }
}

/// What a token bucket reports once it has been refilled (and charged): whole
/// tokens left, and the time at which it will be full again.
pub open spec fn token_outcome(b: BucketState, c: ConfigModel, allowed: bool, now: i64) -> Outcome {
    let s = scale_of(c.per_millis);
    let whole = b.tokens as nat / s;
    let cap = capacity(c);
    let missing: nat = if cap > b.tokens {
        (cap - b.tokens) as nat
    } else {
        0
    };
    let millis: nat = if c.rate == 0 || c.per_millis == 0 {
        0
    } else {
        ((missing + c.rate - 1) / (c.rate as int)) as nat
    };
    Outcome {
        allowed,
        remaining: (if whole > u64::MAX {
            u64::MAX as nat
        } else {
            whole
        }) as u64,
        reset_at: now + (if millis > i64::MAX {
            i64::MAX as nat
        } else {
            millis
        }),
    }
}

/// The bucket of a key at `now`, before any charge.
pub open spec fn bucket_at(bucket: Option<BucketState>, c: ConfigModel, now: i64) -> BucketState {
    refilled(
        match bucket {
            Some(b) => b,
            None => fresh_bucket(c, now),
        },
        c,
        now,
    )
}

/// A token-bucket check of `cost`: allowed when the bucket holds `cost` tokens.
pub open spec fn token_preview(bucket: Option<BucketState>, c: ConfigModel, now: i64, cost: u64) -> Outcome {
    let b = bucket_at(bucket, c, now);
    let need = cost * scale_of(c.per_millis);
    let allowed = b.tokens >= need;
    let after = if allowed {
        BucketState { tokens: (b.tokens - need) as u128, ..b }
    } else {
        b
    };
    token_outcome(after, c, allowed, now)
}

/// How many entries at the front of `s` are at or before `cutoff`.
pub open spec fn expired_count(s: Seq<i64>, cutoff: int) -> nat
    decreases s.len(),
{
    if s.len() > 0 && s[0] <= cutoff {
        1 + expired_count(s.drop_first(), cutoff)
    } else {
        0
    }
}

/// `s` without the entries at its front that are at or before `cutoff`.
pub open spec fn pruned(s: Seq<i64>, cutoff: int) -> Seq<i64> {
    s.skip(expired_count(s, cutoff) as int)
}

/// What a window that has used `used` units reports for a check of `cost`.
pub open spec fn window_outcome(used: u64, c: ConfigModel, cost: u64, reset_at: int) -> Outcome {
    let allowed = sat_add(used, cost) <= c.rate;
    Outcome {
        allowed,
        remaining: if allowed {
            sat_sub(c.rate, sat_add(used, cost))
        } else {
            sat_sub(c.rate, used)
        },
        reset_at,
    }
}

/// The entries of a sliding window that still count at `now`.
pub open spec fn live_entries(entries: Option<Seq<i64>>, c: ConfigModel, now: i64) -> Seq<i64> {
    pruned(
        match entries {
            Some(e) => e,
            None => Seq::empty(),
        },
        now - window_ms(c.per_millis),
    )
}

/// A sliding-window check of `cost`: the entries of the last period count, and
/// the window frees up one period after its oldest live entry.
pub open spec fn sliding_preview(entries: Option<Seq<i64>>, c: ConfigModel, now: i64, cost: u64) -> Outcome {
    let live = live_entries(entries, c, now);
    let reset_at = if live.len() > 0 {
        live[0] + window_ms(c.per_millis)
    } else {
        now + window_ms(c.per_millis)
    };
    window_outcome(live.len() as u64, c, cost, reset_at)
}

/// The fixed window of a key at `now`: a new, empty one once the old one's
/// period is over.
pub open spec fn window_at(w: Option<FixedWindowState>, c: ConfigModel, now: i64) -> FixedWindowState {
    let w0 = match w {
        Some(w) => w,
        None => FixedWindowState { window_start: now, count: 0 },
    };
    if now >= w0.window_start + window_ms(c.per_millis) {
        FixedWindowState { window_start: now, count: 0 }
    } else {
        w0
    }
}

/// A fixed-window check of `cost`.
pub open spec fn fixed_preview(w: Option<FixedWindowState>, c: ConfigModel, now: i64, cost: u64) -> Outcome {
    let cur = window_at(w, c, now);
    window_outcome(cur.count, c, cost, cur.window_start + window_ms(c.per_millis))
}

/// A check of `cost` against the limit `c`, on the record `k`; it changes nothing.
pub open spec fn preview(k: KeyModel, c: ConfigModel, now: i64, cost: u64) -> Outcome {
    match c.algorithm {
        Algorithm::TokenBucket => token_preview(k.bucket, c, now, cost),
        Algorithm::SlidingWindowLog => sliding_preview(k.sliding, c, now, cost),
        Algorithm::FixedWindowCounter => fixed_preview(k.fixed, c, now, cost),
    }
}

/// The record `k` after `cost` units were taken at `at` under its own limit;
/// a key without a limit is left as it is.
pub open spec fn consumed(k: KeyModel, at: i64, cost: u64) -> KeyModel {
    match k.config {
        None => k,
        Some(c) => match c.algorithm {
            Algorithm::TokenBucket => {
                let b = bucket_at(k.bucket, c, at);
                let need = cost * scale_of(c.per_millis);
                KeyModel {
                    bucket: Some(
                        if b.tokens >= need {
                            BucketState { tokens: (b.tokens - need) as u128, ..b }
                        } else {
                            b
                        },
                    ),
                    ..k
                }
            },
            Algorithm::SlidingWindowLog => KeyModel {
                sliding: Some(live_entries(k.sliding, c, at) + Seq::new(cost as nat, |i: int| at)),
                ..k
            },
            Algorithm::FixedWindowCounter => {
                let cur = window_at(k.fixed, c, at);
                KeyModel {
                    fixed: Some(FixedWindowState { count: sat_add(cur.count, cost), ..cur }),
                    ..k
                }
            },
        },
    }
}

/// The scale of a limit period, as a number.
fn scale_for(per_millis: u64) -> (s: u64)
    ensures
        s == scale_of(per_millis),
        s >= 1,
{
    if per_millis == 0 {
        1
    } else {
        per_millis
    }
}

/// The period of a limit as a span of time.
fn window_for(per_millis: u64) -> (w: i128)
    ensures
        w == window_ms(per_millis),
        0 <= w <= i64::MAX,
{
    if per_millis > i64::MAX as u64 {
        i64::MAX as i128
    } else {
        per_millis as i128
    }
}

proof fn lemma_product_fits(a: nat, b: nat)
    requires
        a <= u64::MAX,
        b <= u64::MAX,
    ensures
        a * b <= u128::MAX,
{
    assert(a * b <= u64::MAX * u64::MAX) by (nonlinear_arith)
        requires
            a <= u64::MAX,
            b <= u64::MAX,
    ;
}

/// Re-expresses `tokens` units of size `1 / from` in units of size `1 / to`.
fn rescale(tokens: u128, from: u64, to: u64) -> (r: u128)
    requires
        from >= 1,
    ensures
        r == rescaled(tokens as nat, from as nat, to as nat),
{
    let f = from as u128;
    let q = tokens / f;
    let rem = tokens % f;
    proof {
        lemma_fundamental_div_mod(tokens as int, f as int);
        lemma_product_fits(rem as nat, to as nat);
        assert(tokens * to == (q * to) * from + rem * to) by (nonlinear_arith)
            requires
                tokens == from * q + rem,
        ;
        lemma_hoist_over_denominator((rem * to) as int, (q * to) as int, from as nat);
        assert(rem * to / (from as int) >= 0) by (nonlinear_arith)
            requires
                rem >= 0,
                to >= 0,
                from >= 1,
        ;
    }
    let low = rem * (to as u128) / f;
    match q.checked_mul(to as u128) {
        None => u128::MAX,
        Some(high) => match high.checked_add(low) {
            None => u128::MAX,
            Some(v) => v,
        },
    }
}

/// A full bucket of the limit `c`, refilled at `now`.
pub fn new_bucket(c: &LimitConfig, now: i64) -> (b: BucketState)
    ensures
        b == fresh_bucket(c@, now),
{
    let s = scale_for(c.per_millis);
    proof {
        lemma_product_fits(c.rate as nat, s as nat);
    }
    BucketState { tokens: (c.rate as u128) * (s as u128), scale: s, last_refill: now }
}

/// Refills `b` at `now` under the limit `c`.
pub fn refill_bucket(b: &mut BucketState, c: &LimitConfig, now: i64)
    ensures
        *final(b) == refilled(*old(b), c@, now),
{
    let s = scale_for(c.per_millis);
    let from = scale_for(b.scale);
    let t = rescale(b.tokens, from, s);
    if now <= b.last_refill {
        *b = BucketState { tokens: t, scale: s, last_refill: b.last_refill };
        return ;
    }
    proof {
        lemma_product_fits(c.rate as nat, s as nat);
    }
    let cap = (c.rate as u128) * (s as u128);
    let gain: u128 = if c.per_millis == 0 {
        cap
    } else {
        let elapsed = (now as i128 - b.last_refill as i128) as u128;
        proof {
            lemma_product_fits(elapsed as nat, c.rate as nat);
        }
        elapsed * (c.rate as u128)
    };
    let tokens = if t >= cap || gain >= cap - t {
        cap
    } else {
        t + gain
    };
    *b = BucketState { tokens, scale: s, last_refill: now };
}

/// What a token bucket `b` (refilled at `now`) reports.
pub fn token_bucket_result(c: &LimitConfig, b: &BucketState, allowed: bool, cost: u64, now: i64) -> (r: CheckResult)
    requires
        b.scale == scale_of(c.per_millis),
    ensures
        reports(r, c@, cost, token_outcome(*b, c@, allowed, now)),
{
    let s = b.scale as u128;
    let whole = b.tokens / s;
    let remaining: u64 = if whole > u64::MAX as u128 {
        u64::MAX
    } else {
        whole as u64
    };
    proof {
        lemma_product_fits(c.rate as nat, s as nat);
    }
    let cap = (c.rate as u128) * s;
    let missing: u128 = if cap > b.tokens {
        cap - b.tokens
    } else {
        0
    };
    let millis: u128 = if c.rate == 0 || c.per_millis == 0 {
        0
    } else {
        let r = c.rate as u128;
        proof {
            assert(missing <= cap);
            assert(missing / r <= s) by (nonlinear_arith)
                requires
                    missing <= r * s,
                    r >= 1,
            ;
        }
        missing / r + (if missing % r == 0 {
            0
        } else {
            1
        })
    };
    proof {
        if c.rate != 0 && c.per_millis != 0 {
            let r = c.rate as int;
            let m = missing as int;
            lemma_fundamental_div_mod(m, r);
            lemma_fundamental_div_mod(m + r - 1, r);
            assert((m + r - 1) / r == m / r + (if m % r == 0 { 0int } else { 1int })) by (nonlinear_arith)
                requires
                    m == r * (m / r) + m % r,
                    0 <= m % r < r,
                    m + r - 1 == r * ((m + r - 1) / r) + (m + r - 1) % r,
                    0 <= (m + r - 1) % r < r,
                    r >= 1,
            ;
        }
    }
    let wait: i128 = if millis > i64::MAX as u128 {
        i64::MAX as i128
    } else {
        millis as i128
    };
    CheckResult {
        key: c.key.clone(),
        allowed,
        cost,
        remaining,
        reset_at: now as i128 + wait,
        algorithm: c.algorithm,
    }
}

/// The bucket of a key at `now`, before any charge.
pub fn current_bucket(bucket: Option<BucketState>, c: &LimitConfig, now: i64) -> (b: BucketState)
    ensures
        b == bucket_at(bucket, c@, now),
        b.scale == scale_of(c.per_millis),
{
    let mut b = match bucket {
        Some(b) => b,
        None => new_bucket(c, now),
    };
    refill_bucket(&mut b, c, now);
    b
}

/// A token-bucket check of `cost`, which changes nothing.
pub fn check_token_bucket_preview(bucket: Option<BucketState>, c: &LimitConfig, now: i64, cost: u64) -> (r: CheckResult)
    ensures
        reports(r, c@, cost, token_preview(bucket, c@, now, cost)),
{
    let b = current_bucket(bucket, c, now);
    proof {
        lemma_product_fits(cost as nat, b.scale as nat);
    }
    let need = (cost as u128) * (b.scale as u128);
    if b.tokens >= need {
        let after = BucketState { tokens: b.tokens - need, ..b };
        token_bucket_result(c, &after, true, cost, now)
    } else {
        token_bucket_result(c, &b, false, cost, now)
    }
}

proof fn lemma_expired_count(s: Seq<i64>, cutoff: int, i: int)
    requires
        0 <= i <= s.len(),
        forall|j: int| 0 <= j < i ==> #[trigger] s[j] <= cutoff,
        i == s.len() || s[i] > cutoff,
    ensures
        expired_count(s, cutoff) == i,
    decreases i,
{
    if i > 0 {
        assert forall|j: int| 0 <= j < i - 1 implies #[trigger] s.drop_first()[j] <= cutoff by {
            assert(s.drop_first()[j] == s[j + 1]);
        }
        if i < s.len() {
            assert(s.drop_first()[i - 1] == s[i]);
        }
        lemma_expired_count(s.drop_first(), cutoff, i - 1);
    }
}

/// How many entries at the front of `entries` are at or before `cutoff`.
fn count_expired(entries: &VecDeque<i64>, cutoff: i128) -> (n: usize)
    ensures
        n == expired_count(entries@, cutoff as int),
        n <= entries@.len(),
{
    let mut i: usize = 0;
    while i < entries.len() && (entries[i] as i128) <= cutoff
        invariant
            i <= entries@.len(),
            forall|j: int| 0 <= j < i ==> #[trigger] entries@[j] <= cutoff,
        decreases entries@.len() - i,
    {
        i = i + 1;
    }
    proof {
        lemma_expired_count(entries@, cutoff as int, i as int);
    }
    i
}

/// What a window that has used `used` units reports.
fn window_result(used: u64, c: &LimitConfig, cost: u64, reset_at: i128) -> (r: CheckResult)
    ensures
        reports(r, c@, cost, window_outcome(used, c@, cost, reset_at as int)),
{
    let total = used.saturating_add(cost);
    let allowed = total <= c.rate;
    let remaining = if allowed {
        c.rate.saturating_sub(total)
    } else {
        c.rate.saturating_sub(used)
    };
    CheckResult { key: c.key.clone(), allowed, cost, remaining, reset_at, algorithm: c.algorithm }
}

/// A sliding-window check of `cost`, which changes nothing.
pub fn check_sliding_window_preview(entries: Option<&VecDeque<i64>>, c: &LimitConfig, now: i64, cost: u64) -> (r: CheckResult)
    ensures
        reports(
            r,
            c@,
            cost,
            sliding_preview(
                match entries {
                    Some(e) => Some(e@),
                    None => None,
                },
                c@,
                now,
                cost,
            ),
        ),
{
    let per = window_for(c.per_millis);
    let cutoff = now as i128 - per;
    match entries {
        Some(e) => {
            let n = count_expired(e, cutoff);
            let live = e.len() - n;
            let reset_at = if live > 0 {
                e[n] as i128 + per
            } else {
                now as i128 + per
            };
            proof {
                let p = pruned(e@, cutoff as int);
                assert(p.len() == live);
                if live > 0 {
                    assert(p[0] == e@[n as int]);
                }
            }
            window_result(live as u64, c, cost, reset_at)
        },
        None => {
            proof {
                assert(pruned(Seq::<i64>::empty(), cutoff as int).len() == 0);
            }
            window_result(0, c, cost, now as i128 + per)
        },
    }
}

/// The fixed window of a key at `now`.
fn current_window(w: Option<FixedWindowState>, c: &LimitConfig, now: i64) -> (cur: FixedWindowState)
    ensures
        cur == window_at(w, c@, now),
{
    let w0 = match w {
        Some(w) => w,
        None => FixedWindowState { window_start: now, count: 0 },
    };
    if now as i128 >= w0.window_start as i128 + window_for(c.per_millis) {
        FixedWindowState { window_start: now, count: 0 }
    } else {
        w0
    }
}

/// A fixed-window check of `cost`, which changes nothing.
pub fn check_fixed_window_preview(w: Option<FixedWindowState>, c: &LimitConfig, now: i64, cost: u64) -> (r: CheckResult)
    ensures
        reports(r, c@, cost, fixed_preview(w, c@, now, cost)),
{
    let cur = current_window(w, c, now);
    window_result(cur.count, c, cost, cur.window_start as i128 + window_for(c.per_millis))
}

/// A check of `cost` against the limit `c` on the record `k`, which changes nothing.
pub fn preview_check(k: &KeyRecord, c: &LimitConfig, now: i64, cost: u64) -> (r: CheckResult)
    ensures
        reports(r, c@, cost, preview(k@, c@, now, cost)),
{
    match c.algorithm {
        Algorithm::TokenBucket => check_token_bucket_preview(k.bucket, c, now, cost),
        Algorithm::SlidingWindowLog => {
            let entries = match &k.sliding {
                Some(e) => Some(e),
                None => None,
            };
            check_sliding_window_preview(entries, c, now, cost)
        },
        Algorithm::FixedWindowCounter => check_fixed_window_preview(k.fixed, c, now, cost),
    }
}

/// Takes `cost` units at `at` from the record `k` under its own limit.
pub fn apply_consumption(k: &mut KeyRecord, at: i64, cost: u64)
    ensures
        final(k)@ == consumed(old(k)@, at, cost),
{
    let c = match &k.config {
        Some(c) => c.clone(),
        None => {
            return ;
        },
    };
    match c.algorithm {
        Algorithm::TokenBucket => {
            let b = current_bucket(k.bucket, &c, at);
            proof {
                lemma_product_fits(cost as nat, b.scale as nat);
            }
            let need = (cost as u128) * (b.scale as u128);
            if b.tokens >= need {
                k.bucket = Some(BucketState { tokens: b.tokens - need, ..b });
            } else {
                k.bucket = Some(b);
            }
        },
        Algorithm::SlidingWindowLog => {
            let per = window_for(c.per_millis);
            let cutoff = at as i128 - per;
            let mut entries: VecDeque<i64> = VecDeque::new();
            match k.sliding.take() {
                Some(e) => {
                    entries = e;
                },
                None => {},
            }
            let ghost start = entries@;
            let n = count_expired(&entries, cutoff);
            let mut i: usize = 0;
            while i < n
                invariant
                    n <= start.len(),
                    i <= n,
                    entries@ == start.skip(i as int),
                decreases n - i,
            {
                let _ = entries.pop_front();
                assert(start.skip(i as int).subrange(1, start.skip(i as int).len() as int)
                    =~= start.skip(i + 1));
                i = i + 1;
            }
            let ghost live = entries@;
            let mut j: u64 = 0;
            while j < cost
                invariant
                    j <= cost,
                    entries@ == live + Seq::new(j as nat, |x: int| at),
                decreases cost - j,
            {
                entries.push_back(at);
                assert(live + Seq::new((j + 1) as nat, |x: int| at) =~= (live + Seq::new(
                    j as nat,
                    |x: int| at,
                )).push(at));
                j = j + 1;
            }
            k.sliding = Some(entries);
        },
        Algorithm::FixedWindowCounter => {
            let cur = current_window(k.fixed, &c, at);
            k.fixed = Some(FixedWindowState { count: cur.count.saturating_add(cost), ..cur });
        },
    }
}

} // verus!
