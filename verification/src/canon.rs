//! The canonical form of a JSON value, in which the entries of every object
//! stand in the order of their keys. A snapshot is checksummed in this form, so
//! that its checksum does not depend on the order in which a map was walked.

use vstd::prelude::*;

use crate::json::{JsonNumber, JsonValue};
use crate::text::chars_of;

verus! {

/// What a JSON value stands for, with texts as sequences of characters.
pub enum JsonModel {
    Null,
    Bool(bool),
    PosInt(u64),
    NegInt(i64),
    Float(Seq<char>),
    Str(Seq<char>),
    Array(Seq<JsonModel>),
    Object(Seq<(Seq<char>, JsonModel)>),
}

/// What a JSON number stands for.
pub open spec fn number_model(n: JsonNumber) -> JsonModel {
    match n {
        JsonNumber::PosInt(v) => JsonModel::PosInt(v),
        JsonNumber::NegInt(v) => JsonModel::NegInt(v),
        JsonNumber::Float(s) => JsonModel::Float(s@),
    }
}

/// What a JSON value stands for.
pub open spec fn model(v: JsonValue) -> JsonModel
    decreases v,
{
    match v {
        JsonValue::Null => JsonModel::Null,
        JsonValue::Bool(b) => JsonModel::Bool(b),
        JsonValue::Number(n) => number_model(n),
        JsonValue::String(s) => JsonModel::Str(s@),
        JsonValue::Array(values) => JsonModel::Array(models(values@)),
        JsonValue::Object(entries) => JsonModel::Object(entry_models(entries@)),
    }
}

/// What the values of a list stand for, one by one.
pub open spec fn models(s: Seq<JsonValue>) -> Seq<JsonModel>
    decreases s,
{
    if s.len() == 0 {
        Seq::empty()
    } else {
        models(s.drop_last()).push(model(s.last()))
    }
}

/// What the entries of an object stand for, one by one.
pub open spec fn entry_models(s: Seq<(String, JsonValue)>) -> Seq<(Seq<char>, JsonModel)>
    decreases s,
{
    if s.len() == 0 {
        Seq::empty()
    } else {
        entry_models(s.drop_last()).push((s.last().0@, model(s.last().1)))
    }
}

/// Whether key `a` comes before key `b`, or equals it: the order of their
/// characters' code points, which is the byte order of their UTF-8 encodings
/// and so the order in which `String` compares.
pub open spec fn key_le(a: Seq<char>, b: Seq<char>) -> bool
    decreases a.len(),
{
    if a.len() == 0 {
        true
    } else if b.len() == 0 {
        false
    } else if a[0] != b[0] {
        a[0] < b[0]
    } else {
        key_le(a.drop_first(), b.drop_first())
    }
}

/// Puts entry `x` into the key-sorted entries `t`: after every entry whose key
/// comes before it or equals it, so that entries with equal keys keep their
/// order.
pub open spec fn insert_entry(t: Seq<(Seq<char>, JsonModel)>, x: (Seq<char>, JsonModel)) -> Seq<(Seq<char>, JsonModel)>
    decreases t.len(),
{
    if t.len() == 0 {
        seq![x]
    } else if key_le(t.last().0, x.0) {
        t.push(x)
    } else {
        insert_entry(t.drop_last(), x).push(t.last())
    }
}

/// The entries `s` in the order of their keys, entries with equal keys in their
/// first order: what a stable sort by key gives.
pub open spec fn sort_entries(s: Seq<(Seq<char>, JsonModel)>) -> Seq<(Seq<char>, JsonModel)>
    decreases s.len(),
{
    if s.len() == 0 {
        Seq::empty()
    } else {
        insert_entry(sort_entries(s.drop_last()), s.last())
    }
}

/// The canonical form of a JSON value: the same value with the entries of every
/// object, at every depth, sorted by key.
pub open spec fn canonical(m: JsonModel) -> JsonModel
    decreases m,
{
    match m {
        JsonModel::Array(items) => JsonModel::Array(canonical_all(items)),
        JsonModel::Object(entries) => JsonModel::Object(sort_entries(canonical_entries(entries))),
        _ => m,
    }
}

/// The canonical forms of the values of a list, one by one.
pub open spec fn canonical_all(s: Seq<JsonModel>) -> Seq<JsonModel>
    decreases s,
{
    if s.len() == 0 {
        Seq::empty()
    } else {
        canonical_all(s.drop_last()).push(canonical(s.last()))
    }
}

/// The entries of an object with each value in its canonical form.
pub open spec fn canonical_entries(s: Seq<(Seq<char>, JsonModel)>) -> Seq<(Seq<char>, JsonModel)>
    decreases s,
{
    if s.len() == 0 {
        Seq::empty()
    } else {
        canonical_entries(s.drop_last()).push((s.last().0, canonical(s.last().1)))
    }
}

/// Whether key `a` comes before key `b` or equals it (see [`key_le`]).
fn key_le_exec(a: &String, b: &String) -> (res: bool)
    ensures
        res == key_le(a@, b@),
{
    let x = chars_of(a.as_str());
    let y = chars_of(b.as_str());
    let mut i: usize = 0;
    assert(x@.skip(0) =~= x@);
    assert(y@.skip(0) =~= y@);
    while i < x.len() && i < y.len()
        invariant
            x@ == a@,
            y@ == b@,
            i <= x@.len(),
            i <= y@.len(),
            key_le(x@, y@) == key_le(x@.skip(i as int), y@.skip(i as int)),
        decreases x@.len() - i,
    {
        let ghost xs = x@.skip(i as int);
        let ghost ys = y@.skip(i as int);
        assert(xs[0] == x@[i as int]);
        assert(ys[0] == y@[i as int]);
        assert(xs.len() > 0 && ys.len() > 0);
        if x[i] != y[i] {
            return x[i] < y[i];
        }
        assert(xs.drop_first() =~= x@.skip(i + 1));
        assert(ys.drop_first() =~= y@.skip(i + 1));
        i = i + 1;
    }
    i == x.len()
}

/// `models` reads a list value by value.
proof fn lemma_models_index(s: Seq<JsonValue>)
    ensures
        models(s).len() == s.len(),
        forall|i: int| 0 <= i < s.len() ==> #[trigger] models(s)[i] == model(s[i]),
    decreases s.len(),
{
    if s.len() > 0 {
        lemma_models_index(s.drop_last());
    }
}

/// `entry_models` reads an object entry by entry.
proof fn lemma_entry_models_index(s: Seq<(String, JsonValue)>)
    ensures
        entry_models(s).len() == s.len(),
        forall|i: int|
            0 <= i < s.len() ==> #[trigger] entry_models(s)[i] == (s[i].0@, model(s[i].1)),
    decreases s.len(),
{
    if s.len() > 0 {
        lemma_entry_models_index(s.drop_last());
    }
}

/// Where a scan from the end stops, `insert_entry` puts the new entry.
proof fn lemma_insert_at(t: Seq<(Seq<char>, JsonModel)>, x: (Seq<char>, JsonModel), pos: int)
    requires
        0 <= pos <= t.len(),
        pos == 0 || key_le(t[pos - 1].0, x.0),
        forall|j: int| pos <= j < t.len() ==> !key_le(#[trigger] t[j].0, x.0),
    ensures
        insert_entry(t, x) == t.insert(pos, x),
    decreases t.len(),
{
    if t.len() == 0 {
        assert(t.insert(pos, x) =~= seq![x]);
    } else if pos == t.len() {
        assert(t.insert(pos, x) =~= t.push(x));
    } else {
        assert(!key_le(t[t.len() - 1].0, x.0));
        lemma_insert_at(t.drop_last(), x, pos);
        assert(t.drop_last().insert(pos, x).push(t.last()) =~= t.insert(pos, x));
    }
}

/// Puts an entry into entries sorted by key, after every entry whose key comes
/// before its key or equals it (see [`insert_entry`]).
fn insert_sorted(out: &mut Vec<(String, JsonValue)>, key: String, value: JsonValue)
    ensures
        entry_models(final(out)@) == insert_entry(entry_models(old(out)@), (key@, model(value))),
{
    let ghost t = entry_models(out@);
    let ghost x = (key@, model(value));
    proof {
        lemma_entry_models_index(out@);
    }
    let mut pos = out.len();
    while pos > 0 && !key_le_exec(&out[pos - 1].0, &key)
        invariant
            pos <= out@.len(),
            t == entry_models(out@),
            t.len() == out@.len(),
            forall|i: int| 0 <= i < out@.len() ==> #[trigger] t[i] == (out@[i].0@, model(out@[i].1)),
            forall|j: int| pos <= j < t.len() ==> !key_le(#[trigger] t[j].0, x.0),
            x == (key@, model(value)),
        decreases pos,
    {
        pos = pos - 1;
    }
    proof {
        assert(pos == 0 || key_le(t[pos - 1].0, x.0));
        lemma_insert_at(t, x, pos as int);
    }
    let ghost before = out@;
    out.insert(pos, (key, value));
    proof {
        lemma_entry_models_index(out@);
        assert(entry_models(out@) =~= t.insert(pos as int, x));
    }
}

/// The canonical form of a JSON value (see [`canonical`]).
pub fn canonical_value(v: &JsonValue) -> (res: JsonValue)
    ensures
        model(res) == canonical(model(*v)),
    decreases v,
{
    match v {
        JsonValue::Null => JsonValue::Null,
        JsonValue::Bool(b) => JsonValue::Bool(*b),
        JsonValue::Number(n) => JsonValue::Number(
            match n {
                JsonNumber::PosInt(x) => JsonNumber::PosInt(*x),
                JsonNumber::NegInt(x) => JsonNumber::NegInt(*x),
                JsonNumber::Float(f) => JsonNumber::Float(f.clone()),
            },
        ),
        JsonValue::String(s) => JsonValue::String(s.clone()),
        JsonValue::Array(values) => {
            let ghost m = models(values@);
            proof {
                lemma_models_index(values@);
                assert(m.take(0) =~= Seq::<JsonModel>::empty());
            }
            let mut out: Vec<JsonValue> = Vec::new();
            let mut i: usize = 0;
            while i < values.len()
                invariant
                    i <= values@.len(),
                    m == models(values@),
                    m.len() == values@.len(),
                    forall|k: int| 0 <= k < values@.len() ==> #[trigger] m[k] == model(values@[k]),
                    models(out@) == canonical_all(m.take(i as int)),
                    *v == JsonValue::Array(*values),
                decreases values@.len() - i,
            {
                proof {
                    assert(decreases_to!(*v => (*v)->Array_0));
                    assert((*v)->Array_0 == *values);
                    assert(decreases_to!(*values => values@));
                    assert(decreases_to!(values@ => values@[i as int]));
                }
                let c = canonical_value(&values[i]);
                proof {
                    assert(m.take(i + 1).drop_last() =~= m.take(i as int));
                    assert(out@.push(c).drop_last() =~= out@);
                }
                out.push(c);
                i = i + 1;
            }
            proof {
                assert(m.take(i as int) =~= m);
            }
            JsonValue::Array(out)
        },
        JsonValue::Object(entries) => {
            let ghost em = entry_models(entries@);
            proof {
                lemma_entry_models_index(entries@);
                assert(em.take(0) =~= Seq::<(Seq<char>, JsonModel)>::empty());
            }
            let mut out: Vec<(String, JsonValue)> = Vec::new();
            let mut i: usize = 0;
            while i < entries.len()
                invariant
                    i <= entries@.len(),
                    em == entry_models(entries@),
                    em.len() == entries@.len(),
                    forall|k: int|
                        0 <= k < entries@.len() ==> #[trigger] em[k] == (
                            entries@[k].0@,
                            model(entries@[k].1),
                        ),
                    entry_models(out@) == sort_entries(canonical_entries(em.take(i as int))),
                    *v == JsonValue::Object(*entries),
                decreases entries@.len() - i,
            {
                proof {
                    assert(decreases_to!(*v => (*v)->Object_0));
                    assert((*v)->Object_0 == *entries);
                    assert(decreases_to!(*entries => entries@));
                    assert(decreases_to!(entries@ => entries@[i as int]));
                    assert(decreases_to!(entries@[i as int] => entries@[i as int].1));
                }
                let c = canonical_value(&entries[i].1);
                let k = entries[i].0.clone();
                proof {
                    let p = em.take(i + 1);
                    assert(p.drop_last() =~= em.take(i as int));
                    let q = canonical_entries(p);
                    assert(q.drop_last() =~= canonical_entries(em.take(i as int)));
                }
                insert_sorted(&mut out, k, c);
                i = i + 1;
            }
            proof {
                assert(em.take(i as int) =~= em);
            }
            JsonValue::Object(out)
        },
    }
}

/// Puts a JSON value into its canonical form (see [`canonical`]).
pub fn canonicalize_json(value: &mut JsonValue)
    ensures
        model(*final(value)) == canonical(model(*old(value))),
        all_sorted(model(*final(value))),
{
    let c = canonical_value(value);
    proof {
        canonical_form_is_sorted(model(*value));
    }
    *value = c;
}

/// Whether the entries `s` stand in the order of their keys.
pub open spec fn keys_sorted(s: Seq<(Seq<char>, JsonModel)>) -> bool {
    forall|i: int, j: int| 0 <= i < j < s.len() ==> key_le(#[trigger] s[i].0, #[trigger] s[j].0)
}

/// Whether every object in `m`, at every depth, has its entries in the order of
/// their keys.
pub open spec fn all_sorted(m: JsonModel) -> bool
    decreases m,
{
    match m {
        JsonModel::Array(items) => all_sorted_items(items),
        JsonModel::Object(entries) => keys_sorted(entries) && all_sorted_entries(entries),
        _ => true,
    }
}

/// Whether every value of the list `s` passes [`all_sorted`].
pub open spec fn all_sorted_items(s: Seq<JsonModel>) -> bool
    decreases s,
{
    s.len() == 0 || (all_sorted_items(s.drop_last()) && all_sorted(s.last()))
}

/// Whether every value of the entries `s` passes [`all_sorted`].
pub open spec fn all_sorted_entries(s: Seq<(Seq<char>, JsonModel)>) -> bool
    decreases s,
{
    s.len() == 0 || (all_sorted_entries(s.drop_last()) && all_sorted(s.last().1))
}

/// Any two keys are ordered one way or the other.
proof fn lemma_key_le_total(a: Seq<char>, b: Seq<char>)
    ensures
        key_le(a, b) || key_le(b, a),
    decreases a.len(),
{
    if a.len() > 0 && b.len() > 0 && a[0] == b[0] {
        lemma_key_le_total(a.drop_first(), b.drop_first());
    }
}

/// The order of keys is transitive.
proof fn lemma_key_le_trans(a: Seq<char>, b: Seq<char>, c: Seq<char>)
    requires
        key_le(a, b),
        key_le(b, c),
    ensures
        key_le(a, c),
    decreases a.len(),
{
    if a.len() > 0 && b.len() > 0 && c.len() > 0 && a[0] == b[0] && b[0] == c[0] {
        lemma_key_le_trans(a.drop_first(), b.drop_first(), c.drop_first());
    }
}

/// `insert_entry` puts the new entry at one position and keeps the entries in
/// key order.
proof fn lemma_insert_keeps_order(t: Seq<(Seq<char>, JsonModel)>, x: (Seq<char>, JsonModel)) -> (p: int)
    ensures
        0 <= p <= t.len(),
        insert_entry(t, x) == t.insert(p, x),
        keys_sorted(t) ==> keys_sorted(insert_entry(t, x)),
    decreases t.len(),
{
    if t.len() == 0 {
        assert(t.insert(0, x) =~= seq![x]);
        0
    } else if key_le(t.last().0, x.0) {
        assert(t.insert(t.len() as int, x) =~= t.push(x));
        if keys_sorted(t) {
            let r = t.push(x);
            assert forall|i: int, j: int| 0 <= i < j < r.len() implies key_le(
                #[trigger] r[i].0,
                #[trigger] r[j].0,
            ) by {
                if j == t.len() && i < t.len() - 1 {
                    lemma_key_le_trans(t[i].0, t.last().0, x.0);
                }
            }
        }
        t.len() as int
    } else {
        let rest = t.drop_last();
        let p = lemma_insert_keeps_order(rest, x);
        assert(rest.insert(p, x).push(t.last()) =~= t.insert(p, x));
        if keys_sorted(t) {
            assert(keys_sorted(rest));
            lemma_key_le_total(t.last().0, x.0);
            let r = t.insert(p, x);
            assert forall|i: int, j: int| 0 <= i < j < r.len() implies key_le(
                #[trigger] r[i].0,
                #[trigger] r[j].0,
            ) by {
                if j == r.len() - 1 {
                    if i != p {
                        let k = if i < p { i } else { i - 1 };
                        assert(r[i] == t[k]);
                    }
                } else {
                    assert(r[j] == rest.insert(p, x)[j]);
                    assert(r[i] == rest.insert(p, x)[i]);
                }
            }
        }
        p
    }
}

/// `sort_entries` gives its entries in key order, and only entries that it was
/// given.
proof fn lemma_sort_entries(s: Seq<(Seq<char>, JsonModel)>)
    ensures
        keys_sorted(sort_entries(s)),
        sort_entries(s).len() == s.len(),
        forall|i: int|
            0 <= i < s.len() ==> exists|j: int| 0 <= j < s.len() && #[trigger] sort_entries(s)[i] == s[j],
    decreases s.len(),
{
    if s.len() > 0 {
        let rest = s.drop_last();
        lemma_sort_entries(rest);
        let t = sort_entries(rest);
        let p = lemma_insert_keeps_order(t, s.last());
        let r = sort_entries(s);
        assert forall|i: int| 0 <= i < s.len() implies exists|j: int|
            0 <= j < s.len() && #[trigger] r[i] == s[j] by {
            if i == p {
                assert(r[i] == s[s.len() - 1]);
            } else {
                let k = if i < p { i } else { i - 1 };
                assert(r[i] == t[k]);
                let j = choose|j: int| 0 <= j < rest.len() && t[k] == rest[j];
                assert(rest[j] == s[j]);
            }
        }
    }
}

/// `canonical_all` puts each value of a list into canonical form.
proof fn lemma_canonical_all_index(s: Seq<JsonModel>)
    ensures
        canonical_all(s).len() == s.len(),
        forall|i: int| 0 <= i < s.len() ==> #[trigger] canonical_all(s)[i] == canonical(s[i]),
    decreases s.len(),
{
    if s.len() > 0 {
        lemma_canonical_all_index(s.drop_last());
    }
}

/// `canonical_entries` puts each value of an object into canonical form.
proof fn lemma_canonical_entries_index(s: Seq<(Seq<char>, JsonModel)>)
    ensures
        canonical_entries(s).len() == s.len(),
        forall|i: int|
            0 <= i < s.len() ==> #[trigger] canonical_entries(s)[i] == (s[i].0, canonical(s[i].1)),
    decreases s.len(),
{
    if s.len() > 0 {
        lemma_canonical_entries_index(s.drop_last());
    }
}

proof fn lemma_items_sorted(s: Seq<JsonModel>)
    requires
        forall|i: int| 0 <= i < s.len() ==> all_sorted(#[trigger] s[i]),
    ensures
        all_sorted_items(s),
    decreases s.len(),
{
    if s.len() > 0 {
        lemma_items_sorted(s.drop_last());
    }
}

proof fn lemma_entries_sorted(s: Seq<(Seq<char>, JsonModel)>)
    requires
        forall|i: int| 0 <= i < s.len() ==> all_sorted(#[trigger] s[i].1),
    ensures
        all_sorted_entries(s),
    decreases s.len(),
{
    if s.len() > 0 {
        lemma_entries_sorted(s.drop_last());
    }
}

/// In the canonical form of any value, every object has its entries in the
/// order of their keys.
pub proof fn canonical_form_is_sorted(m: JsonModel)
    ensures
        all_sorted(canonical(m)),
    decreases m,
{
    match m {
        JsonModel::Array(items) => {
            let c = canonical_all(items);
            lemma_canonical_all_index(items);
            assert forall|i: int| 0 <= i < c.len() implies all_sorted(#[trigger] c[i]) by {
                assert(decreases_to!(m => items));
                assert(decreases_to!(items => items[i]));
                canonical_form_is_sorted(items[i]);
            }
            lemma_items_sorted(c);
        },
        JsonModel::Object(entries) => {
            let c = canonical_entries(entries);
            lemma_canonical_entries_index(entries);
            lemma_sort_entries(c);
            let r = sort_entries(c);
            assert forall|i: int| 0 <= i < r.len() implies all_sorted(#[trigger] r[i].1) by {
                let j = choose|j: int| 0 <= j < c.len() && r[i] == c[j];
                assert(decreases_to!(m => entries));
                assert(decreases_to!(entries => entries[j]));
                assert(decreases_to!(entries[j] => entries[j].1));
                canonical_form_is_sorted(entries[j].1);
            }
            lemma_entries_sorted(r);
        },
        _ => {},
    }
}

/// Sorting entries that are already in key order changes nothing.
proof fn lemma_sort_sorted(s: Seq<(Seq<char>, JsonModel)>)
    requires
        keys_sorted(s),
    ensures
        sort_entries(s) == s,
    decreases s.len(),
{
    if s.len() > 0 {
        let rest = s.drop_last();
        assert(keys_sorted(rest));
        lemma_sort_sorted(rest);
        if rest.len() > 0 {
            assert(key_le(s[rest.len() - 1].0, s[s.len() - 1].0));
        }
        assert(rest.push(s.last()) =~= s);
    }
}

/// Putting a value into canonical form twice gives what doing it once gives.
pub proof fn canonical_form_is_stable(m: JsonModel)
    ensures
        canonical(canonical(m)) == canonical(m),
    decreases m,
{
    match m {
        JsonModel::Array(items) => {
            let c = canonical_all(items);
            lemma_canonical_all_index(items);
            lemma_canonical_all_index(c);
            assert forall|i: int| 0 <= i < c.len() implies #[trigger] canonical_all(c)[i] == c[i] by {
                assert(decreases_to!(m => items));
                assert(decreases_to!(items => items[i]));
                canonical_form_is_stable(items[i]);
            }
            assert(canonical_all(c) =~= c);
        },
        JsonModel::Object(entries) => {
            let c = canonical_entries(entries);
            lemma_canonical_entries_index(entries);
            lemma_sort_entries(c);
            let r = sort_entries(c);
            lemma_canonical_entries_index(r);
            assert forall|i: int| 0 <= i < r.len() implies #[trigger] canonical_entries(r)[i] == r[i] by {
                let j = choose|j: int| 0 <= j < c.len() && r[i] == c[j];
                assert(decreases_to!(m => entries));
                assert(decreases_to!(entries => entries[j]));
                assert(decreases_to!(entries[j] => entries[j].1));
                canonical_form_is_stable(entries[j].1);
            }
            assert(canonical_entries(r) =~= r);
            lemma_sort_sorted(r);
        },
        _ => {},
    }
}

} // verus!
