//! The limiter's state, which events change, and its model.

use vstd::prelude::*;

use crate::algo::{
    apply_consumption, consumed, empty_model, fresh_bucket, new_bucket, sat_add, KeyModel, KeyRecord,
};
use crate::keymap::KeyMap;
use crate::types::{
    events_view, items_view, BucketState, ConfigModel, Event, LimitConfig, EventModel, ItemModel,
    LimitMetrics, zero_metrics,
};

verus! {

/// The state of the limiter as a mathematical value: what each key holds, the
/// order in which keys first appeared, and every event applied so far.
pub struct StateModel {
    pub limits: Map<Seq<char>, KeyModel>,
    pub order: Seq<Seq<char>>,
    pub history: Seq<EventModel>,
}

/// The state before any event.
pub open spec fn initial_model() -> StateModel {
    StateModel {
        limits: Map::empty(),
        order: Seq::empty(),
        history: Seq::empty(),
    }
}

/// What `key` holds in `m`; a key that nothing has written holds nothing.
pub open spec fn record_of(m: StateModel, key: Seq<char>) -> KeyModel {
    if m.limits.contains_key(key) {
        m.limits[key]
    } else {
        empty_model()
    }
}

/// `m` with `key` holding `k`; a new key goes after the others.
pub open spec fn put(m: StateModel, key: Seq<char>, k: KeyModel) -> StateModel {
    StateModel {
        limits: m.limits.insert(key, k),
        order: if m.limits.contains_key(key) {
            m.order
        } else {
            m.order.push(key)
        },
        history: m.history,
    }
}

/// The counters of a record.
pub open spec fn metrics_of(k: KeyModel) -> LimitMetrics {
    match k.metrics {
        Some(mt) => mt,
        None => zero_metrics(),
    }
}

/// `m` after `cost` units were allowed for `key` at `at`: one more allowed
/// check, the cost added to the allowed cost, and the units taken.
pub open spec fn allow_one(m: StateModel, key: Seq<char>, at: i64, cost: u64) -> StateModel {
    let k = record_of(m, key);
    let mt = metrics_of(k);
    let counted = LimitMetrics {
        total_allowed: (mt.total_allowed + 1) as u64,
        total_allowed_cost: sat_add(mt.total_allowed_cost, cost),
        last_allowed_at: Some(at),
        ..mt
    };
    put(m, key, consumed(KeyModel { metrics: Some(counted), ..k }, at, cost))
}

/// `m` after each item was allowed in turn at `at`.
pub open spec fn allow_items(m: StateModel, items: Seq<ItemModel>, at: i64) -> StateModel
    decreases items.len(),
{
    if items.len() == 0 {
        m
    } else {
        let before = allow_items(m, items.drop_last(), at);
        allow_one(before, items.last().key, at, items.last().cost)
    }
}

/// The bucket that a reset at `at` leaves: full for a configured key, empty
/// otherwise.
pub open spec fn reset_bucket(c: Option<ConfigModel>, at: i64) -> BucketState {
    match c {
        Some(c) => fresh_bucket(c, at),
        None => BucketState { tokens: 0, scale: 1, last_refill: at },
    }
}

/// What an event does to the keys of `m`.
pub open spec fn effect(m: StateModel, e: EventModel) -> StateModel {
    match e {
        EventModel::LimitConfigured { config } => {
            let k = record_of(m, config.key);
            put(m, config.key, KeyModel { config: Some(config), metrics: Some(metrics_of(k)), ..k })
        },
        EventModel::Allow { key, at, cost } => allow_one(m, key, at, cost),
        EventModel::AllowAll { items, at } => allow_items(m, items, at),
        EventModel::Deny { key, at, cost } => {
            let k = record_of(m, key);
            let mt = metrics_of(k);
            let counted = LimitMetrics {
                total_denied: (mt.total_denied + 1) as u64,
                total_denied_cost: sat_add(mt.total_denied_cost, cost),
                last_denied_at: Some(at),
                ..mt
            };
            put(m, key, KeyModel { metrics: Some(counted), ..k })
        },
        EventModel::Reset { key, at } => {
            let k = record_of(m, key);
            let mt = metrics_of(k);
            put(
                m,
                key,
                KeyModel {
                    metrics: Some(LimitMetrics { last_reset_at: Some(at), ..mt }),
                    bucket: Some(reset_bucket(k.config, at)),
                    fixed: None,
                    sliding: None,
                    ..k
                },
            )
        },
    }
}

/// `m` after the event `e`: its effect on the keys, and `e` recorded last in
/// the history.
pub open spec fn apply_model(m: StateModel, e: EventModel) -> StateModel {
    let after = effect(m, e);
    StateModel { history: m.history.push(e), ..after }
}

/// The state that replaying `events` in order from the initial state gives.
pub open spec fn replay(events: Seq<EventModel>) -> StateModel
    decreases events.len(),
{
    if events.len() == 0 {
        initial_model()
    } else {
        apply_model(replay(events.drop_last()), events.last())
    }
}

/// How many of `items` are for `key`.
pub open spec fn count_key(items: Seq<ItemModel>, key: Seq<char>) -> nat
    decreases items.len(),
{
    if items.len() == 0 {
        0
    } else {
        count_key(items.drop_last(), key) + if items.last().key == key {
            1nat
        } else {
            0nat
        }
    }
}

/// Counting in a prefix counts no more than in the whole.
proof fn lemma_count_key_prefix(items: Seq<ItemModel>, j: int, key: Seq<char>)
    requires
        0 <= j <= items.len(),
    ensures
        count_key(items.take(j), key) <= count_key(items, key),
    decreases items.len() - j,
{
    if j < items.len() {
        lemma_count_key_prefix(items, j + 1, key);
        assert(items.take(j + 1).drop_last() =~= items.take(j));
    } else {
        assert(items.take(j) =~= items);
    }
}

/// Whether applying `e` to `m` keeps every counter of checks within `u64`.
pub open spec fn counters_fit(m: StateModel, e: EventModel) -> bool {
    match e {
        EventModel::Allow { key, .. } => metrics_of(record_of(m, key)).total_allowed < u64::MAX,
        EventModel::Deny { key, .. } => metrics_of(record_of(m, key)).total_denied < u64::MAX,
        EventModel::AllowAll { items, .. } => forall|i: int|
            0 <= i < items.len() ==> metrics_of(record_of(m, #[trigger] items[i].key)).total_allowed
                + count_key(items, items[i].key) <= u64::MAX,
        _ => true,
    }
}

/// The limiter's state: what each key holds, and the history of events.
pub struct State {
    records: KeyMap<KeyRecord>,
    history: Vec<Event>,
}

impl View for State {
    type V = StateModel;

    closed spec fn view(&self) -> StateModel {
        StateModel {
            limits: self.records@.map_values(|r: KeyRecord| r@),
            order: self.records.keys(),
            history: events_view(self.history@),
        }
    }
}

/// The view of an optional borrowed configuration.
pub open spec fn config_view_ref(c: Option<&LimitConfig>) -> Option<ConfigModel> {
    match c {
        Some(c) => Some(c@),
        None => None,
    }
}

/// Whether the keys of `m` are exactly the distinct keys of its order.
pub open spec fn well_ordered(m: StateModel) -> bool {
    &&& m.order.no_duplicates()
    &&& forall|k: Seq<char>| #[trigger] m.limits.contains_key(k) <==> m.order.contains(k)
}

impl State {
    /// The state before any event.
    pub fn new() -> (s: State)
        ensures
            s@ == initial_model(),
    {
        let s = State { records: KeyMap::new(), history: Vec::new() };
        assert(s@.limits =~= Map::<Seq<char>, KeyModel>::empty());
        assert(s@.history =~= Seq::<EventModel>::empty());
        s
    }

    /// The keys of the state are those of its order, each once.
    pub fn order_facts(&self)
        ensures
            well_ordered(self@),
    {
        self.records.shape();
    }

    /// The record of `key`, if the key is present.
    pub fn record(&self, key: &String) -> (res: Option<&KeyRecord>)
        ensures
            match res {
                Some(r) => self@.limits.contains_key(key@) && r@ == record_of(self@, key@),
                None => !self@.limits.contains_key(key@) && record_of(self@, key@) == empty_model(),
            },
    {
        self.records.get(key)
    }

    /// The limit configured for `key`, if any.
    pub fn config_for(&self, key: &String) -> (res: Option<&LimitConfig>)
        ensures
            config_view_ref(res) == record_of(self@, key@).config,
    {
        match self.record(key) {
            Some(r) => match &r.config {
                Some(c) => Some(c),
                None => None,
            },
            None => None,
        }
    }

    /// Takes the record of `key` out of the state, adding the key with an empty
    /// record first if it is absent; returns where the record stands.
    fn take_record(&mut self, key: &String) -> (res: (usize, KeyRecord))
        ensures
            res.0 < final(self).records.keys().len(),
            final(self).records.keys()[res.0 as int] == key@,
            res.1@ == record_of(old(self)@, key@),
            final(self).history == old(self).history,
            old(self)@.limits.contains_key(key@) ==> final(self).records.keys() == old(self).records.keys(),
            !old(self)@.limits.contains_key(key@) ==> final(self).records.keys() == old(self).records.keys().push(key@),
            final(self).records@.remove(key@) == old(self).records@.remove(key@),
    {
        self.records.shape();
        let i = match self.records.find(key) {
            Some(i) => i,
            None => {
                let n = self.records.len();
                self.records.push(key.clone(), KeyRecord::empty());
                assert(self.records.keys()[n as int] == key@);
                n
            },
        };
        let ghost mid = self.records;
        let rec = self.records.replace_at(i, KeyRecord::empty());
        proof {
            assert(self.records@.remove(key@) =~= old(self).records@.remove(key@));
        }
        (i, rec)
    }

    /// The state with `key` holding `rec`, in model terms.
    proof fn lemma_put(old_state: State, new_state: State, key: Seq<char>, rec: KeyRecord)
        requires
            new_state.records@ == old_state.records@.insert(key, rec),
            new_state.history == old_state.history,
            old_state@.limits.contains_key(key) ==> new_state.records.keys() == old_state.records.keys(),
            !old_state@.limits.contains_key(key) ==> new_state.records.keys() == old_state.records.keys().push(key),
        ensures
            new_state@ == put(old_state@, key, rec@),
    {
        assert(new_state@.limits =~= old_state@.limits.insert(key, rec@));
    }

    /// Puts back the record taken out at position `i` by `take_record`.
    fn put_record(&mut self, i: usize, rec: KeyRecord)
        requires
            i < old(self).records.keys().len(),
        ensures
            final(self).records.keys() == old(self).records.keys(),
            final(self).records@ == old(self).records@.insert(old(self).records.keys()[i as int], rec),
            final(self).history == old(self).history,
    {
        self.records.set_at(i, rec);
    }
}


impl State {
    /// Counts an allowed check of `cost` for `key` at `at` and takes the units.
    fn count_allowed(&mut self, key: &String, at: i64, cost: u64)
        requires
            metrics_of(record_of(old(self)@, key@)).total_allowed < u64::MAX,
        ensures
            final(self)@ == allow_one(old(self)@, key@, at, cost),
    {
        let ghost before = *self;
        let (i, mut rec) = self.take_record(key);
        let ghost taken = self.records@;
        let mt = match rec.metrics {
            Some(mt) => mt,
            None => LimitMetrics::zero(),
        };
        rec.metrics = Some(
            LimitMetrics {
                total_allowed: mt.total_allowed + 1,
                total_allowed_cost: mt.total_allowed_cost.saturating_add(cost),
                last_allowed_at: Some(at),
                ..mt
            },
        );
        apply_consumption(&mut rec, at, cost);
        self.put_record(i, rec);
        proof {
            lemma_insert_after_remove(self.records@, before.records@, taken, key@, rec);
            Self::lemma_put(before, *self, key@, rec);
        }
    }

    /// Applies `e` to the state and records it last in the history.
    pub fn apply_event(&mut self, e: Event)
        requires
            counters_fit(old(self)@, e@),
        ensures
            final(self)@ == apply_model(old(self)@, e@),
    {
        let ghost before = *self;
        match &e {
            Event::LimitConfigured { config } => {
                let (i, mut rec) = self.take_record(&config.key);
                let ghost taken = self.records@;
                let mt = match rec.metrics {
                    Some(mt) => mt,
                    None => LimitMetrics::zero(),
                };
                rec.metrics = Some(mt);
                rec.config = Some(config.clone());
                self.put_record(i, rec);
                proof {
                    lemma_insert_after_remove(self.records@, before.records@, taken, config.key@, rec);
                    Self::lemma_put(before, *self, config.key@, rec);
                }
            },
            Event::Allow { key, at, cost } => {
                self.count_allowed(key, *at, *cost);
            },
            Event::AllowAll { items, at } => {
                let n = items.len();
                let mut j: usize = 0;
                while j < n
                    invariant
                        n == items@.len(),
                        j <= n,
                        self@ == allow_items(before@, items_view(items@).take(j as int), *at),
                        forall|x: int|
                            0 <= x < items@.len() ==> metrics_of(
                                record_of(before@, #[trigger] items_view(items@)[x].key),
                            ).total_allowed + count_key(items_view(items@), items_view(items@)[x].key)
                                <= u64::MAX,
                        forall|k: Seq<char>|
                            #[trigger] metrics_of(record_of(self@, k)).total_allowed
                                == metrics_of(record_of(before@, k)).total_allowed + count_key(
                                items_view(items@).take(j as int),
                                k,
                            ),
                    decreases n - j,
                {
                    let item = &items[j];
                    proof {
                        assert(items_view(items@)[j as int] == items@[j as int]@);
                    }
                    let ghost mid = self@;
                    let ghost iv = items_view(items@);
                    proof {
                        assert(iv.take(j + 1).drop_last() =~= iv.take(j as int));
                        assert(iv.take(j + 1).last() == iv[j as int]);
                        lemma_count_key_prefix(iv, j + 1, item.key@);
                        assert(metrics_of(record_of(before@, iv[j as int].key)).total_allowed
                            + count_key(iv, iv[j as int].key) <= u64::MAX);
                        assert(metrics_of(record_of(self@, item.key@)).total_allowed < u64::MAX);
                    }
                    self.count_allowed(&item.key, *at, item.cost);
                    proof {
                        assert forall|k: Seq<char>|
                            #[trigger] metrics_of(record_of(self@, k)).total_allowed
                                == metrics_of(record_of(before@, k)).total_allowed + count_key(
                                iv.take(j + 1),
                                k,
                            ) by {
                            lemma_allow_one_counts(mid, item.key@, *at, item.cost, k);
                        }
                    }
                    j = j + 1;
                }
                proof {
                    assert(items_view(items@).take(n as int) =~= items_view(items@));
                    lemma_allow_items_history(before@, items_view(items@), *at);
                }
            },
            Event::Deny { key, at, cost } => {
                let (i, mut rec) = self.take_record(key);
                let ghost taken = self.records@;
                let mt = match rec.metrics {
                    Some(mt) => mt,
                    None => LimitMetrics::zero(),
                };
                rec.metrics = Some(
                    LimitMetrics {
                        total_denied: mt.total_denied + 1,
                        total_denied_cost: mt.total_denied_cost.saturating_add(*cost),
                        last_denied_at: Some(*at),
                        ..mt
                    },
                );
                self.put_record(i, rec);
                proof {
                    lemma_insert_after_remove(self.records@, before.records@, taken, key@, rec);
                    Self::lemma_put(before, *self, key@, rec);
                }
            },
            Event::Reset { key, at } => {
                let (i, mut rec) = self.take_record(key);
                let ghost taken = self.records@;
                let mt = match rec.metrics {
                    Some(mt) => mt,
                    None => LimitMetrics::zero(),
                };
                rec.metrics = Some(LimitMetrics { last_reset_at: Some(*at), ..mt });
                rec.bucket = Some(
                    match &rec.config {
                        Some(c) => new_bucket(c, *at),
                        None => BucketState { tokens: 0, scale: 1, last_refill: *at },
                    },
                );
                rec.fixed = None;
                rec.sliding = None;
                self.put_record(i, rec);
                proof {
                    lemma_insert_after_remove(self.records@, before.records@, taken, key@, rec);
                    Self::lemma_put(before, *self, key@, rec);
                }
            },
        }
        let ghost mid = *self;
        proof {
            assert(mid@ == effect(before@, e@));
        }
        self.history.push(e);
        proof {
            assert(self@.history =~= mid@.history.push(e@));
            assert(self@.limits == mid@.limits);
            assert(self@.order == mid@.order);
        }
    }
}

/// Allowing items leaves the history alone.
proof fn lemma_allow_items_history(m: StateModel, items: Seq<ItemModel>, at: i64)
    ensures
        allow_items(m, items, at).history == m.history,
    decreases items.len(),
{
    if items.len() > 0 {
        lemma_allow_items_history(m, items.drop_last(), at);
    }
}

/// Two maps that agree away from `k` agree once `k` is set in both.
proof fn lemma_insert_after_remove<V>(
    a: Map<Seq<char>, V>,
    b: Map<Seq<char>, V>,
    mid: Map<Seq<char>, V>,
    k: Seq<char>,
    v: V,
)
    requires
        a == mid.insert(k, v),
        mid.remove(k) == b.remove(k),
    ensures
        a == b.insert(k, v),
{
    assert forall|x: Seq<char>| x != k implies (#[trigger] mid.contains_key(x) <==> b.contains_key(x)) by {
        assert(mid.remove(k).contains_key(x) == mid.contains_key(x));
        assert(b.remove(k).contains_key(x) == b.contains_key(x));
    }
    assert forall|x: Seq<char>| x != k && #[trigger] mid.contains_key(x) implies mid[x] == b[x] by {
        assert(mid.remove(k)[x] == mid[x]);
        assert(b.remove(k)[x] == b[x]);
    }
    assert(a =~= b.insert(k, v));
}

/// Allowing a check raises the allowed count of its own key by one and leaves
/// the others alone.
proof fn lemma_allow_one_counts(m: StateModel, key: Seq<char>, at: i64, cost: u64, k: Seq<char>)
    requires
        metrics_of(record_of(m, key)).total_allowed < u64::MAX,
    ensures
        metrics_of(record_of(allow_one(m, key, at, cost), k)).total_allowed
            == metrics_of(record_of(m, k)).total_allowed + if k == key {
            1int
        } else {
            0int
        },
{
}


impl State {
    /// Where `key` stands in the order, if it is present.
    pub fn position(&self, key: &String) -> (res: Option<usize>)
        ensures
            match res {
                Some(i) => i < self@.order.len() && self@.order[i as int] == key@,
                None => !self@.limits.contains_key(key@),
            },
    {
        self.records.shape();
        self.records.find(key)
    }

    /// How many keys the state holds.
    pub fn key_count(&self) -> (n: usize)
        ensures
            n == self@.order.len(),
    {
        self.records.len()
    }

    /// The key at position `i` of the order.
    pub fn key_at(&self, i: usize) -> (k: &String)
        requires
            i < self@.order.len(),
        ensures
            k@ == self@.order[i as int],
    {
        self.records.key_at(i)
    }

    /// The record of the key at position `i` of the order.
    pub fn record_at(&self, i: usize) -> (r: &KeyRecord)
        requires
            i < self@.order.len(),
        ensures
            self@.limits.contains_key(self@.order[i as int]),
            r@ == record_of(self@, self@.order[i as int]),
    {
        self.records.shape();
        self.records.value_at(i)
    }

    /// The events applied so far, oldest first.
    pub fn events(&self) -> (h: &Vec<Event>)
        ensures
            events_view(h@) == self@.history,
    {
        &self.history
    }

    /// Sets the bucket of the key at position `i` of the order.
    pub fn set_bucket_at(&mut self, i: usize, b: BucketState)
        requires
            i < old(self)@.order.len(),
        ensures
            final(self)@ == put(
                old(self)@,
                old(self)@.order[i as int],
                (KeyModel { bucket: Some(b), ..record_of(old(self)@, old(self)@.order[i as int]) }),
            ),
    {
        let ghost before = *self;
        self.records.shape();
        let mut rec = self.records.replace_at(i, KeyRecord::empty());
        rec.bucket = Some(b);
        self.records.set_at(i, rec);
        proof {
            let k = before@.order[i as int];
            assert(self.records@ =~= before.records@.insert(k, rec));
            Self::lemma_put(before, *self, k, rec);
        }
    }

    /// Sets what `key` holds, as when the state is read back from a snapshot.
    pub fn restore_record(&mut self, key: String, record: KeyRecord)
        ensures
            final(self)@ == put(old(self)@, key@, record@),
    {
        let ghost before = *self;
        let ghost k = key@;
        let ghost r = record;
        self.records.shape();
        self.records.insert(key, record);
        proof {
            Self::lemma_put(before, *self, k, r);
        }
    }

    /// Records `e` last in the history without applying it, as when the state
    /// is read back from a snapshot.
    pub fn restore_event(&mut self, e: Event)
        ensures
            final(self)@ == (StateModel { history: old(self)@.history.push(e@), ..old(self)@ }),
    {
        let ghost before = *self;
        self.history.push(e);
        proof {
            assert(self@.history =~= before@.history.push(e@));
        }
    }
}

} // verus!
