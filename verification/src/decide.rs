//! The decisions of the limiter: what a configuration, a check, an
//! all-or-nothing check or a reset records, and when each is refused.
//!
//! A decision changes nothing: it hands back the event to record. The caller
//! appends the event to the log and then applies it with `State::apply_event`,
//! so that the state never runs ahead of the log.

use vstd::prelude::*;

use crate::algo::{preview, preview_check, reports, Outcome};
use crate::error::FlintError;
use crate::parse::{duration_fits, parse_duration_millis, spec_duration};
use crate::state::{record_of, State, StateModel};
use crate::text::{decimal, push_decimal, push_str, trim, trimmed_chars};
use crate::types::{
    clone_items, items_view, Algorithm, CheckResult, ConfigModel, Event, EventModel, ItemModel,
    LimitConfig, MultiCheckItem, MultiCheckResult,
};

verus! {

/// Why a request is refused, in terms of the error it gives.
pub enum Refusal {
    /// `InvalidDuration` with this message.
    Invalid(Seq<char>),
    /// `LimitNotConfigured` with this key.
    NotConfigured(Seq<char>),
}

/// Whether `err` is the error of `r`.
pub open spec fn refused_with(err: FlintError, r: Refusal) -> bool {
    match r {
        Refusal::Invalid(msg) => err matches FlintError::InvalidDuration(m) && m@ == msg,
        Refusal::NotConfigured(key) => err matches FlintError::LimitNotConfigured(k) && k@ == key,
    }
}

/// The message that refuses a zero cost.
pub open spec fn zero_cost_message() -> Seq<char> {
    "cost must be greater than zero"@
}

/// The message that refuses a cost above the rate of its limit.
pub open spec fn over_capacity_message(cost: u64, rate: u64) -> Seq<char> {
    "cost "@ + decimal(cost as nat) + " exceeds configured rate capacity "@ + decimal(rate as nat)
}

/// The message that refuses a zero rate.
pub open spec fn zero_rate_message() -> Seq<char> {
    "rate must be greater than zero"@
}

/// The message that refuses a zero period.
pub open spec fn zero_period_message() -> Seq<char> {
    "duration must be greater than zero"@
}

/// The message that refuses an all-or-nothing check of no limits.
pub open spec fn no_items_message() -> Seq<char> {
    "allow_all requires at least one limit key"@
}

/// The message that refuses a blank key in an all-or-nothing check.
pub open spec fn empty_key_message() -> Seq<char> {
    "limit key must not be empty"@
}

/// The message that refuses a key named twice in an all-or-nothing check.
pub open spec fn duplicate_key_message(key: Seq<char>) -> Seq<char> {
    "duplicate limit key in allow_all: "@ + key
}

/// Why a check of `cost` against `key` is refused, if it is: a zero cost, a key
/// without a limit, or a cost above the limit's rate.
pub open spec fn cost_refusal(m: StateModel, key: Seq<char>, cost: u64) -> Option<Refusal> {
    if cost == 0 {
        Some(Refusal::Invalid(zero_cost_message()))
    } else {
        match record_of(m, key).config {
            None => Some(Refusal::NotConfigured(key)),
            Some(c) => if cost > c.rate {
                Some(Refusal::Invalid(over_capacity_message(cost, c.rate)))
            } else {
                None
            },
        }
    }
}

/// The limit of the key of `it`.
pub open spec fn item_config(m: StateModel, key: Seq<char>) -> ConfigModel {
    record_of(m, key).config.unwrap()
}

/// What a check of `cost` against `key` at `now` decides.
pub open spec fn check_outcome(m: StateModel, key: Seq<char>, now: i64, cost: u64) -> Outcome {
    preview(record_of(m, key), item_config(m, key), now, cost)
}

/// The event that records a check of `cost` against `key` at `now`.
pub open spec fn check_event(key: Seq<char>, now: i64, cost: u64, allowed: bool) -> EventModel {
    if allowed {
        EventModel::Allow { key, at: now, cost }
    } else {
        EventModel::Deny { key, at: now, cost }
    }
}

/// Refuses a zero cost.
pub fn validate_cost(cost: u64) -> (res: Result<(), FlintError>)
    ensures
        cost != 0 ==> res is Ok,
        cost == 0 ==> (res matches Err(FlintError::InvalidDuration(m)) && m@ == zero_cost_message()),
{
    if cost == 0 {
        return Err(FlintError::InvalidDuration("cost must be greater than zero".to_owned()));
    }
    Ok(())
}

/// Refuses a cost above the rate of `config`.
pub fn validate_cost_for_config(cost: u64, config: &LimitConfig) -> (res: Result<(), FlintError>)
    ensures
        cost <= config.rate ==> res is Ok,
        cost > config.rate ==> (res matches Err(FlintError::InvalidDuration(m)) && m@
            == over_capacity_message(cost, config.rate)),
{
    if cost > config.rate {
        let mut msg = "cost ".to_owned();
        push_decimal(&mut msg, cost);
        push_str(&mut msg, " exceeds configured rate capacity ");
        push_decimal(&mut msg, config.rate);
        return Err(FlintError::InvalidDuration(msg));
    }
    Ok(())
}

/// The event that configures a limit of `rate` per `per` for `key`, where `per`
/// is a duration such as `1m` or `250ms`; a period that does not parse, a zero
/// rate and a zero period are refused, in that order.
pub fn configure(key: String, rate: u64, per: &str, algorithm: Algorithm) -> (res: Result<Event, FlintError>)
    requires
        duration_fits(per@, true),
    ensures
        match spec_duration(per@, true) {
            None => res matches Err(FlintError::InvalidDuration(m)) && m@ == trim(per@),
            Some(p) => if rate == 0 {
                res matches Err(FlintError::InvalidDuration(m)) && m@ == zero_rate_message()
            } else if p == 0 {
                res matches Err(FlintError::InvalidDuration(m)) && m@ == zero_period_message()
            } else {
                res matches Ok(e) && e@ == EventModel::LimitConfigured {
                    config: ConfigModel { key: key@, rate, per_millis: p as u64, algorithm },
                }
            },
        },
{
    let per_millis = parse_duration_millis(per)?;
    if rate == 0 {
        return Err(FlintError::InvalidDuration("rate must be greater than zero".to_owned()));
    }
    if per_millis == 0 {
        return Err(FlintError::InvalidDuration("duration must be greater than zero".to_owned()));
    }
    Ok(Event::LimitConfigured { config: LimitConfig { key, rate, per_millis, algorithm } })
}

/// What is wrong with item `i` of an all-or-nothing check, if anything: a
/// blank key, or a key that an earlier item names.
pub open spec fn item_problem(items: Seq<ItemModel>, i: int) -> Option<Seq<char>> {
    if trim(items[i].key).len() == 0 {
        Some(empty_key_message())
    } else if exists|j: int| 0 <= j < i && items[j].key == items[i].key {
        Some(duplicate_key_message(items[i].key))
    } else {
        None
    }
}

/// The first problem among the items from position `i` on.
pub open spec fn first_problem(items: Seq<ItemModel>, i: int) -> Option<Seq<char>>
    decreases items.len() - i,
{
    if i < 0 || i >= items.len() {
        None
    } else {
        match item_problem(items, i) {
            Some(msg) => Some(msg),
            None => first_problem(items, i + 1),
        }
    }
}

/// Why the items of an all-or-nothing check are refused before any limit is
/// looked at, if they are: no items, or the first problem among them.
pub open spec fn items_problem(items: Seq<ItemModel>) -> Option<Seq<char>> {
    if items.len() == 0 {
        Some(no_items_message())
    } else {
        first_problem(items, 0)
    }
}

/// Refuses an empty list of items, a blank key and a key named twice, the
/// first problem in item order.
pub fn validate_multi_items(items: &[MultiCheckItem]) -> (res: Result<(), FlintError>)
    ensures
        match items_problem(items_view(items@)) {
            None => res is Ok,
            Some(msg) => res matches Err(FlintError::InvalidDuration(m)) && m@ == msg,
        },
{
    let ghost iv = items_view(items@);
    if items.len() == 0 {
        return Err(FlintError::InvalidDuration("allow_all requires at least one limit key".to_owned()));
    }
    let mut i: usize = 0;
    while i < items.len()
        invariant
            iv == items_view(items@),
            i <= items@.len(),
            first_problem(iv, 0) == first_problem(iv, i as int),
        decreases items@.len() - i,
    {
        proof {
            assert(iv[i as int] == items@[i as int]@);
        }
        let t = trimmed_chars(items[i].key.as_str());
        if t.len() == 0 {
            return Err(FlintError::InvalidDuration("limit key must not be empty".to_owned()));
        }
        assert(trim(iv[i as int].key).len() != 0);
        let mut j: usize = 0;
        while j < i
            invariant
                iv == items_view(items@),
                j <= i < items@.len(),
                first_problem(iv, 0) == first_problem(iv, i as int),
                trim(iv[i as int].key).len() != 0,
                forall|x: int| 0 <= x < j ==> iv[x].key != iv[i as int].key,
            decreases i - j,
        {
            proof {
                assert(iv[j as int] == items@[j as int]@);
            }
            if items[j].key == items[i].key {
                proof {
                    assert(iv[i as int] == items@[i as int]@);
                    assert(iv[j as int].key == iv[i as int].key);
                    assert(item_problem(iv, i as int) == Some(duplicate_key_message(iv[i as int].key)));
                }
                let mut msg = "duplicate limit key in allow_all: ".to_owned();
                push_str(&mut msg, items[i].key.as_str());
                return Err(FlintError::InvalidDuration(msg));
            }
            j = j + 1;
        }
        i = i + 1;
    }
    Ok(())
}

/// How an all-or-nothing check runs through its items from position `i` on.
pub enum MultiScan {
    /// An item is refused.
    Refused(Refusal),
    /// The item before position `n` is denied; the items after it are not looked at.
    Denied(nat),
    /// Every item is allowed.
    Passed,
}

/// How an all-or-nothing check at `now` runs through `items` from position
/// `i` on: each item in turn is refused, denied or allowed, and the first
/// refusal or denial ends it. Every item is checked against the state before
/// the check: the keys are distinct, so taking an earlier item's units does not
/// touch a later one's limit.
pub open spec fn multi_scan(m: StateModel, items: Seq<ItemModel>, now: i64, i: int) -> MultiScan
    decreases items.len() - i,
{
    if i < 0 || i >= items.len() {
        MultiScan::Passed
    } else {
        match cost_refusal(m, items[i].key, items[i].cost) {
            Some(r) => MultiScan::Refused(r),
            None => if check_outcome(m, items[i].key, now, items[i].cost).allowed {
                multi_scan(m, items, now, i + 1)
            } else {
                MultiScan::Denied((i + 1) as nat)
            },
        }
    }
}

/// The cost of the first item whose key is `key`, or one when none is.
pub open spec fn cost_of_key(items: Seq<ItemModel>, key: Seq<char>) -> u64
    decreases items.len(),
{
    if items.len() == 0 {
        1
    } else if items[0].key == key {
        items[0].cost
    } else {
        cost_of_key(items.drop_first(), key)
    }
}

/// Whether `results` report the checks of the first `results.len()` items.
pub open spec fn reports_items(m: StateModel, items: Seq<ItemModel>, now: i64, results: Seq<CheckResult>) -> bool {
    &&& results.len() <= items.len()
    &&& forall|j: int|
        0 <= j < results.len() ==> reports(
            #[trigger] results[j],
            item_config(m, items[j].key),
            items[j].cost,
            check_outcome(m, items[j].key, now, items[j].cost),
        )
}

/// The cost of the first item whose key is `key`.
fn cost_for_key(items: &Vec<MultiCheckItem>, key: &String) -> (c: u64)
    ensures
        c == cost_of_key(items_view(items@), key@),
{
    let mut i: usize = 0;
    assert(items_view(items@).skip(0) =~= items_view(items@));
    while i < items.len()
        invariant
            i <= items@.len(),
            cost_of_key(items_view(items@), key@) == cost_of_key(items_view(items@).skip(i as int), key@),
        decreases items@.len() - i,
    {
        let ghost rest = items_view(items@).skip(i as int);
        assert(rest[0] == items@[i as int]@);
        assert(rest.drop_first() =~= items_view(items@).skip(i + 1));
        if items[i].key == *key {
            return items[i].cost;
        }
        i = i + 1;
    }
    assert(items_view(items@).skip(i as int).len() == 0);
    1
}

impl State {
    /// Decides a check of `cost` against `key` at `now`: the result to report
    /// and the event to record (`Allow` or `Deny`). A zero cost, a key without a
    /// limit and a cost above the limit's rate are refused, in that order.
    pub fn check_cost(&self, key: &str, cost: u64, now: i64) -> (res: Result<(CheckResult, Event), FlintError>)
        ensures
            match cost_refusal(self@, key@, cost) {
                Some(r) => res matches Err(err) && refused_with(err, r),
                None => res matches Ok((result, event)) && {
                    let o = check_outcome(self@, key@, now, cost);
                    &&& reports(result, item_config(self@, key@), cost, o)
                    &&& event@ == check_event(key@, now, cost, o.allowed)
                },
            },
    {
        validate_cost(cost)?;
        let k = key.to_owned();
        let config = match self.config_for(&k) {
            Some(c) => c,
            None => {
                return Err(FlintError::LimitNotConfigured(k));
            },
        };
        validate_cost_for_config(cost, config)?;
        let rec = self.record(&k).unwrap();
        let result = preview_check(rec, config, now, cost);
        let event = if result.allowed {
            Event::Allow { key: k, at: now, cost }
        } else {
            Event::Deny { key: k, at: now, cost }
        };
        Ok((result, event))
    }

    /// Decides a reset of `key` at `now`: the event to record, or
    /// `LimitNotConfigured` for a key without a limit.
    pub fn reset_event(&self, key: &str, now: i64) -> (res: Result<Event, FlintError>)
        ensures
            match record_of(self@, key@).config {
                None => res matches Err(FlintError::LimitNotConfigured(k)) && k@ == key@,
                Some(_) => res matches Ok(e) && e@ == EventModel::Reset { key: key@, at: now },
            },
    {
        let k = key.to_owned();
        match self.config_for(&k) {
            None => Err(FlintError::LimitNotConfigured(k)),
            Some(_) => Ok(Event::Reset { key: k, at: now }),
        }
    }
}


impl State {
    /// Decides an all-or-nothing check of `items` at `now`: either every limit
    /// allows its item, and one `AllowAll` event records them all, or the first
    /// limit that denies is reported, with the results up to it, and one `Deny`
    /// event records that limit alone, so that no other limit is charged.
    pub fn check_all(&self, items: &Vec<MultiCheckItem>, now: i64) -> (res: Result<(MultiCheckResult, Event), FlintError>)
        ensures
            match items_problem(items_view(items@)) {
                Some(msg) => res matches Err(FlintError::InvalidDuration(m)) && m@ == msg,
                None => match multi_scan(self@, items_view(items@), now, 0) {
                    MultiScan::Refused(r) => res matches Err(err) && refused_with(err, r),
                    MultiScan::Denied(n) => res matches Ok((mr, event)) && {
                        let last = mr.results@[n - 1];
                        &&& !mr.allowed
                        &&& mr.results@.len() == n
                        &&& reports_items(self@, items_view(items@), now, mr.results@)
                        &&& mr.denied_key matches Some(k) && k@ == last.key@
                        &&& event@ == EventModel::Deny {
                            key: last.key@,
                            at: now,
                            cost: cost_of_key(items_view(items@), last.key@),
                        }
                    },
                    MultiScan::Passed => res matches Ok((mr, event)) && {
                        &&& mr.allowed
                        &&& mr.results@.len() == items@.len()
                        &&& reports_items(self@, items_view(items@), now, mr.results@)
                        &&& mr.denied_key is None
                        &&& event@ == EventModel::AllowAll { items: items_view(items@), at: now }
                    },
                },
            },
    {
        match validate_multi_items(items.as_slice()) {
            Ok(()) => {},
            Err(e) => {
                return Err(e);
            },
        }
        let ghost iv = items_view(items@);
        let mut results: Vec<CheckResult> = Vec::new();
        let mut i: usize = 0;
        let mut denied = false;
        while i < items.len() && !denied
            invariant
                iv == items_view(items@),
                items_problem(iv) is None,
                i <= items@.len(),
                results@.len() == i,
                reports_items(self@, iv, now, results@),
                !denied ==> multi_scan(self@, iv, now, 0) == multi_scan(self@, iv, now, i as int),
                denied ==> i >= 1 && multi_scan(self@, iv, now, 0) == MultiScan::Denied(i as nat),
                denied ==> !results@[i - 1].allowed,
            decreases items@.len() - i,
        {
            let item = &items[i];
            proof {
                assert(iv[i as int] == item@);
            }
            let ghost scan_here = multi_scan(self@, iv, now, i as int);
            match validate_cost(item.cost) {
                Ok(()) => {},
                Err(e) => {
                    proof {
                        assert(scan_here == MultiScan::Refused(Refusal::Invalid(zero_cost_message())));
                    }
                    return Err(e);
                },
            }
            let config = match self.config_for(&item.key) {
                Some(c) => c,
                None => {
                    proof {
                        assert(scan_here == MultiScan::Refused(Refusal::NotConfigured(iv[i as int].key)));
                    }
                    return Err(FlintError::LimitNotConfigured(item.key.clone()));
                },
            };
            match validate_cost_for_config(item.cost, config) {
                Ok(()) => {},
                Err(e) => {
                    proof {
                        assert(scan_here == MultiScan::Refused(
                            Refusal::Invalid(over_capacity_message(item.cost, config.rate)),
                        ));
                    }
                    return Err(e);
                },
            }
            let rec = self.record(&item.key).unwrap();
            let result = preview_check(rec, config, now, item.cost);
            let allowed = result.allowed;
            results.push(result);
            if !allowed {
                denied = true;
            }
            i = i + 1;
        }
        if denied {
            let k = results[i - 1].key.clone();
            let cost = cost_for_key(items, &k);
            return Ok((
                MultiCheckResult { allowed: false, denied_key: Some(k.clone()), results },
                Event::Deny { key: k, at: now, cost },
            ));
        }
        Ok((
            MultiCheckResult { allowed: true, denied_key: None, results },
            Event::AllowAll { items: clone_items(items), at: now },
        ))
    }
}

} // verus!
