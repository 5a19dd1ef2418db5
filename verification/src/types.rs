//! The limiter's values: algorithms, limit configurations, events, results and
//! the mathematical models that contracts speak of.

use vstd::prelude::*;

use crate::error::FlintError;
use crate::text::{chars_equal, chars_of};

verus! {

/// The three rate-limiting algorithms.
#[derive(Clone, Copy, Debug, PartialEq, Eq, Structural)]
pub enum Algorithm {
    TokenBucket,
    SlidingWindowLog,
    FixedWindowCounter,
}

/// The name under which an algorithm is configured and stored.
pub open spec fn algorithm_name(a: Algorithm) -> Seq<char> {
    match a {
        Algorithm::TokenBucket => "token_bucket"@,
        Algorithm::SlidingWindowLog => "sliding_window_log"@,
        Algorithm::FixedWindowCounter => "fixed_window_counter"@,
    }
}

/// The algorithm that `name` names, if any.
pub open spec fn algorithm_named(name: Seq<char>) -> Option<Algorithm> {
    if name == "token_bucket"@ {
        Some(Algorithm::TokenBucket)
    } else if name == "sliding_window_log"@ {
        Some(Algorithm::SlidingWindowLog)
    } else if name == "fixed_window_counter"@ {
        Some(Algorithm::FixedWindowCounter)
    } else {
        None
    }
}

impl Algorithm {
    /// Reads an algorithm name; an unknown one is refused with
    /// `UnsupportedAlgorithm` carrying the name.
    pub fn parse(value: &str) -> (res: Result<Algorithm, FlintError>)
        ensures
            match algorithm_named(value@) {
                Some(a) => res == Ok::<Algorithm, FlintError>(a),
                None => res matches Err(FlintError::UnsupportedAlgorithm(m)) && m@ == value@,
            },
    {
        let cs = chars_of(value);
        if chars_equal(cs.as_slice(), "token_bucket") {
            Ok(Algorithm::TokenBucket)
        } else if chars_equal(cs.as_slice(), "sliding_window_log") {
            Ok(Algorithm::SlidingWindowLog)
        } else if chars_equal(cs.as_slice(), "fixed_window_counter") {
            Ok(Algorithm::FixedWindowCounter)
        } else {
            Err(FlintError::UnsupportedAlgorithm(value.to_owned()))
        }
    }

    /// The name of the algorithm.
    pub fn name(&self) -> (res: &'static str)
        ensures
            res@ == algorithm_name(*self),
    {
        match self {
            Algorithm::TokenBucket => "token_bucket",
            Algorithm::SlidingWindowLog => "sliding_window_log",
            Algorithm::FixedWindowCounter => "fixed_window_counter",
        }
    }
}

/// A configured limit: at most `rate` units of cost per `per_millis` milliseconds.
#[derive(Debug)]
pub struct LimitConfig {
    pub key: String,
    pub rate: u64,
    pub per_millis: u64,
    pub algorithm: Algorithm,
}

/// A limit configuration as a mathematical value.
pub struct ConfigModel {
    pub key: Seq<char>,
    pub rate: u64,
    pub per_millis: u64,
    pub algorithm: Algorithm,
}

impl View for LimitConfig {
    type V = ConfigModel;

    open spec fn view(&self) -> ConfigModel {
        ConfigModel {
            key: self.key@,
            rate: self.rate,
            per_millis: self.per_millis,
            algorithm: self.algorithm,
        }
    }
}

impl Clone for LimitConfig {
    fn clone(&self) -> (res: Self)
        ensures
            res@ == self@,
    {
        LimitConfig {
            key: self.key.clone(),
            rate: self.rate,
            per_millis: self.per_millis,
            algorithm: self.algorithm,
        }
    }
}


/// Why a stored limit configuration cannot be read.
#[derive(Debug, Clone, Copy, PartialEq, Eq, Structural)]
pub enum WireError {
    /// A period in seconds too long to count in milliseconds.
    PerSecondsOverflow,
    /// Neither a period in milliseconds nor one in seconds.
    MissingPerMillis,
}

impl LimitConfig {
    /// Reads a stored configuration, whose period is in milliseconds or, as
    /// older versions wrote it, in seconds; milliseconds win when both are given.
    pub fn from_wire(
        key: String,
        rate: u64,
        per_millis: Option<u64>,
        per_seconds: Option<u64>,
        algorithm: Algorithm,
    ) -> (res: Result<LimitConfig, WireError>)
        ensures
            match (per_millis, per_seconds) {
                (Some(p), _) => res matches Ok(c) && c@ == (ConfigModel { key: key@, rate, per_millis: p, algorithm }),
                (None, Some(s)) => if s * 1000 > u64::MAX {
                    res == Err::<LimitConfig, WireError>(WireError::PerSecondsOverflow)
                } else {
                    res matches Ok(c) && c@ == (ConfigModel {
                        key: key@,
                        rate,
                        per_millis: (s * 1000) as u64,
                        algorithm,
                    })
                },
                (None, None) => res == Err::<LimitConfig, WireError>(WireError::MissingPerMillis),
            },
    {
        let per = match (per_millis, per_seconds) {
            (Some(p), _) => p,
            (None, Some(s)) => match s.checked_mul(1000) {
                Some(p) => p,
                None => {
                    return Err(WireError::PerSecondsOverflow);
                },
            },
            (None, None) => {
                return Err(WireError::MissingPerMillis);
            },
        };
        Ok(LimitConfig { key, rate, per_millis: per, algorithm })
    }
}

/// One limit of an all-or-nothing check, with the cost to take from it.
#[derive(Debug)]
pub struct MultiCheckItem {
    pub key: String,
    pub cost: u64,
}

/// A multi-limit item as a mathematical value.
pub struct ItemModel {
    pub key: Seq<char>,
    pub cost: u64,
}

impl View for MultiCheckItem {
    type V = ItemModel;

    open spec fn view(&self) -> ItemModel {
        ItemModel { key: self.key@, cost: self.cost }
    }
}

impl Clone for MultiCheckItem {
    fn clone(&self) -> (res: Self)
        ensures
            res@ == self@,
    {
        MultiCheckItem { key: self.key.clone(), cost: self.cost }
    }
}

/// The items of a list as mathematical values.
pub open spec fn items_view(items: Seq<MultiCheckItem>) -> Seq<ItemModel> {
    items.map_values(|i: MultiCheckItem| i@)
}

/// Copies a list of multi-limit items.
pub fn clone_items(items: &Vec<MultiCheckItem>) -> (res: Vec<MultiCheckItem>)
    ensures
        items_view(res@) == items_view(items@),
{
    let mut out: Vec<MultiCheckItem> = Vec::new();
    let mut i: usize = 0;
    while i < items.len()
        invariant
            i <= items@.len(),
            out@.len() == i,
            forall|j: int| 0 <= j < i ==> (#[trigger] out@[j])@ == items@[j]@,
        decreases items@.len() - i,
    {
        out.push(items[i].clone());
        i = i + 1;
    }
    assert(items_view(out@) =~= items_view(items@));
    out
}

/// The outcome of one check.
///
/// Times are milliseconds since the Unix epoch. `reset_at` is held wider than
/// a timestamp because a period of up to `i64::MAX` milliseconds is added to one.
#[derive(Debug)]
pub struct CheckResult {
    pub key: String,
    pub allowed: bool,
    pub cost: u64,
    pub remaining: u64,
    pub reset_at: i128,
    pub algorithm: Algorithm,
}

/// The outcome of an all-or-nothing check of several limits.
#[derive(Debug)]
pub struct MultiCheckResult {
    pub allowed: bool,
    pub denied_key: Option<String>,
    pub results: Vec<CheckResult>,
}

/// The counters kept for each key.
#[derive(Clone, Copy, Debug, PartialEq, Eq, Structural)]
pub struct LimitMetrics {
    pub total_allowed: u64,
    pub total_denied: u64,
    pub total_allowed_cost: u64,
    pub total_denied_cost: u64,
    pub last_allowed_at: Option<i64>,
    pub last_denied_at: Option<i64>,
    pub last_reset_at: Option<i64>,
}

/// Counters that nothing has touched yet.
pub open spec fn zero_metrics() -> LimitMetrics {
    LimitMetrics {
        total_allowed: 0,
        total_denied: 0,
        total_allowed_cost: 0,
        total_denied_cost: 0,
        last_allowed_at: None,
        last_denied_at: None,
        last_reset_at: None,
    }
}

impl LimitMetrics {
    /// Counters that nothing has touched yet.
    pub fn zero() -> (res: LimitMetrics)
        ensures
            res == zero_metrics(),
    {
        LimitMetrics {
            total_allowed: 0,
            total_denied: 0,
            total_allowed_cost: 0,
            total_denied_cost: 0,
            last_allowed_at: None,
            last_denied_at: None,
            last_reset_at: None,
        }
    }
}

impl Default for LimitMetrics {
    fn default() -> (res: LimitMetrics)
        ensures
            res == zero_metrics(),
    {
        LimitMetrics::zero()
    }
}

/// Everything that `status` and `list` report of one limit.
#[derive(Debug)]
pub struct LimitSummary {
    pub key: String,
    pub rate: u64,
    pub per_millis: u64,
    pub algorithm: Algorithm,
    pub remaining: u64,
    pub reset_at: i128,
    pub total_allowed: u64,
    pub total_denied: u64,
    pub total_allowed_cost: u64,
    pub total_denied_cost: u64,
    pub last_allowed_at: Option<i64>,
    pub last_denied_at: Option<i64>,
    pub last_reset_at: Option<i64>,
}

/// A change to the limiter, as it is recorded in the append-only log.
#[derive(Debug)]
pub enum Event {
    LimitConfigured { config: LimitConfig },
    Allow { key: String, at: i64, cost: u64 },
    AllowAll { items: Vec<MultiCheckItem>, at: i64 },
    Deny { key: String, at: i64, cost: u64 },
    Reset { key: String, at: i64 },
}

/// An event as a mathematical value.
pub enum EventModel {
    LimitConfigured { config: ConfigModel },
    Allow { key: Seq<char>, at: i64, cost: u64 },
    AllowAll { items: Seq<ItemModel>, at: i64 },
    Deny { key: Seq<char>, at: i64, cost: u64 },
    Reset { key: Seq<char>, at: i64 },
}

impl View for Event {
    type V = EventModel;

    open spec fn view(&self) -> EventModel {
        match self {
            Event::LimitConfigured { config } => EventModel::LimitConfigured { config: config@ },
            Event::Allow { key, at, cost } => EventModel::Allow { key: key@, at: *at, cost: *cost },
            Event::AllowAll { items, at } => EventModel::AllowAll {
                items: items_view(items@),
                at: *at,
            },
            Event::Deny { key, at, cost } => EventModel::Deny { key: key@, at: *at, cost: *cost },
            Event::Reset { key, at } => EventModel::Reset { key: key@, at: *at },
        }
    }
}

impl Clone for Event {
    fn clone(&self) -> (res: Self)
        ensures
            res@ == self@,
    {
        match self {
            Event::LimitConfigured { config } => Event::LimitConfigured { config: config.clone() },
            Event::Allow { key, at, cost } => Event::Allow { key: key.clone(), at: *at, cost: *cost },
            Event::AllowAll { items, at } => Event::AllowAll { items: clone_items(items), at: *at },
            Event::Deny { key, at, cost } => Event::Deny { key: key.clone(), at: *at, cost: *cost },
            Event::Reset { key, at } => Event::Reset { key: key.clone(), at: *at },
        }
    }
}

/// The events of a list as mathematical values.
pub open spec fn events_view(events: Seq<Event>) -> Seq<EventModel> {
    events.map_values(|e: Event| e@)
}

/// What `doctor` reports of the storage and of the state.
#[derive(Debug, Clone, Copy, PartialEq, Eq, Structural)]
pub struct DoctorReport {
    pub ok: bool,
    pub limits: usize,
    pub history_events: usize,
    pub aof_bytes: u64,
    pub snapshot_exists: bool,
}

/// One line of the busiest-limits report.
#[derive(Debug)]
pub struct TopEntry {
    pub key: String,
    pub total_allowed: u64,
    pub total_denied: u64,
}

/// The counter by which the busiest-limits report ranks keys.
#[derive(Debug, Clone, Copy, PartialEq, Eq, Structural)]
pub enum TopBy {
    Allowed,
    Denied,
}

/// The ranking counter that `name` selects, if any.
pub open spec fn top_by_named(name: Seq<char>) -> Option<TopBy> {
    if name == "allowed"@ {
        Some(TopBy::Allowed)
    } else if name == "denied"@ {
        Some(TopBy::Denied)
    } else {
        None
    }
}

impl TopBy {
    /// Reads `allowed` or `denied`; anything else gives `None`.
    pub fn parse(value: &str) -> (res: Option<TopBy>)
        ensures
            res == top_by_named(value@),
    {
        let cs = chars_of(value);
        if chars_equal(cs.as_slice(), "allowed") {
            Some(TopBy::Allowed)
        } else if chars_equal(cs.as_slice(), "denied") {
            Some(TopBy::Denied)
        } else {
            None
        }
    }
}

/// A token bucket.
///
/// The bucket holds `tokens / scale` tokens: `scale` is the period of the limit
/// in milliseconds (one when the period is zero), so that a refill of
/// `rate / period` tokens per millisecond is an exact whole number of units.
#[derive(Clone, Copy, Debug, PartialEq, Eq, Structural)]
pub struct BucketState {
    pub tokens: u128,
    pub scale: u64,
    pub last_refill: i64,
}

/// A fixed window: `count` units of cost taken since `window_start`.
#[derive(Clone, Copy, Debug, PartialEq, Eq, Structural)]
pub struct FixedWindowState {
    pub window_start: i64,
    pub count: u64,
}

} // verus!
