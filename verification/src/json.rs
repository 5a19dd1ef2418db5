//! JSON values as the limiter reads them: whether a stored document is a
//! snapshot envelope, and how an item of an all-or-nothing check is written.

use vstd::prelude::*;

use crate::text::chars_equal;
use crate::types::MultiCheckItem;

verus! {

/// A JSON number, as JSON decoding gives it.
#[derive(Debug)]
pub enum JsonNumber {
    /// A whole number that is not negative.
    PosInt(u64),
    /// A negative whole number.
    NegInt(i64),
    /// Any other number, in its JSON spelling.
    Float(String),
}

/// A JSON value. The entries of an object keep their order.
#[derive(Debug)]
pub enum JsonValue {
    Null,
    Bool(bool),
    Number(JsonNumber),
    String(String),
    Array(Vec<JsonValue>),
    Object(Vec<(String, JsonValue)>),
}

/// The value of the first entry of `entries` whose key is `key`, if any.
pub open spec fn object_get(entries: Seq<(String, JsonValue)>, key: Seq<char>) -> Option<JsonValue>
    decreases entries.len(),
{
    if entries.len() == 0 {
        None
    } else if entries[0].0@ == key {
        Some(entries[0].1)
    } else {
        object_get(entries.drop_first(), key)
    }
}

/// The value of the first entry of `entries` whose key is `key`, if any.
fn find_entry<'a>(entries: &'a Vec<(String, JsonValue)>, key: &str) -> (res: Option<&'a JsonValue>)
    ensures
        match object_get(entries@, key@) {
            Some(v) => res matches Some(r) && *r == v,
            None => res is None,
        },
{
    let mut i: usize = 0;
    assert(entries@.skip(0) =~= entries@);
    while i < entries.len()
        invariant
            i <= entries@.len(),
            object_get(entries@, key@) == object_get(entries@.skip(i as int), key@),
        decreases entries@.len() - i,
    {
        let ghost rest = entries@.skip(i as int);
        assert(rest[0] == entries@[i as int]);
        assert(rest.drop_first() =~= entries@.skip(i + 1));
        let name: Vec<char> = crate::text::chars_of(entries[i].0.as_str());
        if chars_equal(name.as_slice(), key) {
            return Some(&entries[i].1);
        }
        i = i + 1;
    }
    assert(entries@.skip(i as int).len() == 0);
    None
}

/// Whether a stored snapshot document is an envelope, which wraps the snapshot
/// text with its checksum, rather than a bare snapshot of an older version: an
/// object with a `checksum` or a `snapshot` entry.
pub open spec fn spec_is_envelope(value: JsonValue) -> bool {
    match value {
        JsonValue::Object(entries) => object_get(entries@, "checksum"@) is Some || object_get(
            entries@,
            "snapshot"@,
        ) is Some,
        _ => false,
    }
}

/// Whether a stored snapshot document is an envelope (see [`spec_is_envelope`]).
pub fn looks_like_snapshot_envelope(value: &JsonValue) -> (res: bool)
    ensures
        res == spec_is_envelope(*value),
{
    match value {
        JsonValue::Object(entries) => find_entry(entries, "checksum").is_some() || find_entry(
            entries,
            "snapshot",
        ).is_some(),
        _ => false,
    }
}

/// The text of a JSON string value.
pub open spec fn as_str(v: JsonValue) -> Option<Seq<char>> {
    match v {
        JsonValue::String(s) => Some(s@),
        _ => None,
    }
}

/// The value of a JSON number that is a whole number and fits in `u64`.
pub open spec fn as_u64(v: JsonValue) -> Option<u64> {
    match v {
        JsonValue::Number(JsonNumber::PosInt(n)) => Some(n),
        _ => None,
    }
}

/// The message that refuses a list item that is not a pair.
pub open spec fn pair_shape_message() -> Seq<char> {
    "tuple/list multi-limit items must be [key, cost]"@
}

/// The message that refuses a key that is not a string.
pub open spec fn key_type_message() -> Seq<char> {
    "multi-limit key must be a string"@
}

/// The message that refuses a cost that is not a whole number.
pub open spec fn cost_type_message() -> Seq<char> {
    "multi-limit cost must be a positive int"@
}

/// The message that refuses an object item without a key.
pub open spec fn missing_key_message() -> Seq<char> {
    "multi-limit object requires key"@
}

/// The message that refuses any other item.
pub open spec fn item_shape_message() -> Seq<char> {
    "multi-limit items must be strings, [key, cost], or {key, cost}"@
}

/// What an item of an all-or-nothing check written in JSON means: a key alone
/// (which costs one), a `[key, cost]` pair, or a `{key, cost}` object whose cost
/// defaults to one; or the message that refuses it.
pub open spec fn spec_multi_item(value: JsonValue) -> Result<(Seq<char>, u64), Seq<char>> {
    match value {
        JsonValue::String(key) => Ok((key@, 1)),
        JsonValue::Array(values) => if values@.len() != 2 {
            Err(pair_shape_message())
        } else {
            match as_str(values@[0]) {
                None => Err(key_type_message()),
                Some(key) => match as_u64(values@[1]) {
                    None => Err(cost_type_message()),
                    Some(cost) => Ok((key, cost)),
                },
            }
        },
        JsonValue::Object(entries) => match object_get(entries@, "key"@) {
            None => Err(missing_key_message()),
            Some(k) => match as_str(k) {
                None => Err(missing_key_message()),
                Some(key) => match object_get(entries@, "cost"@) {
                    None => Ok((key, 1)),
                    Some(c) => match as_u64(c) {
                        None => Err(cost_type_message()),
                        Some(cost) => Ok((key, cost)),
                    },
                },
            },
        },
        _ => Err(item_shape_message()),
    }
}

/// Reads one item of an all-or-nothing check written in JSON (see
/// [`spec_multi_item`]); a refusal gives its message.
pub fn parse_multi_item(value: &JsonValue) -> (res: Result<MultiCheckItem, String>)
    ensures
        match spec_multi_item(*value) {
            Ok((key, cost)) => res matches Ok(item) && item.key@ == key && item.cost == cost,
            Err(msg) => res matches Err(m) && m@ == msg,
        },
{
    match value {
        JsonValue::String(key) => Ok(MultiCheckItem { key: key.clone(), cost: 1 }),
        JsonValue::Array(values) => {
            if values.len() != 2 {
                return Err("tuple/list multi-limit items must be [key, cost]".to_owned());
            }
            let key = match &values[0] {
                JsonValue::String(k) => k.clone(),
                _ => {
                    return Err("multi-limit key must be a string".to_owned());
                },
            };
            let cost = match &values[1] {
                JsonValue::Number(JsonNumber::PosInt(n)) => *n,
                _ => {
                    return Err("multi-limit cost must be a positive int".to_owned());
                },
            };
            Ok(MultiCheckItem { key, cost })
        },
        JsonValue::Object(entries) => {
            let key = match find_entry(entries, "key") {
                Some(JsonValue::String(k)) => k.clone(),
                _ => {
                    return Err("multi-limit object requires key".to_owned());
                },
            };
            let cost = match find_entry(entries, "cost") {
                None => 1,
                Some(JsonValue::Number(JsonNumber::PosInt(n))) => *n,
                Some(_) => {
                    return Err("multi-limit cost must be a positive int".to_owned());
                },
            };
            Ok(MultiCheckItem { key, cost })
        },
        _ => Err("multi-limit items must be strings, [key, cost], or {key, cost}".to_owned()),
    }
}

/// The message that refuses a document that is not a list.
pub open spec fn list_shape_message() -> Seq<char> {
    "allow_all/check_all expects a list of keys or {key, cost} items"@
}

/// The items of a list read one by one (see [`spec_multi_item`]), or the
/// message that refuses the first item that cannot be read.
pub open spec fn multi_items_of(values: Seq<JsonValue>) -> Result<Seq<(Seq<char>, u64)>, Seq<char>>
    decreases values.len(),
{
    if values.len() == 0 {
        Ok(Seq::empty())
    } else {
        match multi_items_of(values.drop_last()) {
            Err(msg) => Err(msg),
            Ok(items) => match spec_multi_item(values.last()) {
                Err(msg) => Err(msg),
                Ok(item) => Ok(items.push(item)),
            },
        }
    }
}

/// What a whole all-or-nothing check written in JSON means: a list of items
/// (see [`multi_items_of`]); anything else is refused.
pub open spec fn spec_multi_items(value: JsonValue) -> Result<Seq<(Seq<char>, u64)>, Seq<char>> {
    match value {
        JsonValue::Array(values) => multi_items_of(values@),
        _ => Err(list_shape_message()),
    }
}

/// Reads the items of an all-or-nothing check written in JSON (see
/// [`spec_multi_items`]); a refusal gives its message.
pub fn parse_multi_items(value: &JsonValue) -> (res: Result<Vec<MultiCheckItem>, String>)
    ensures
        match spec_multi_items(*value) {
            Ok(items) => res matches Ok(v) && v@.len() == items.len() && forall|i: int|
                0 <= i < items.len() ==> (#[trigger] v@[i]).key@ == items[i].0 && v@[i].cost
                    == items[i].1,
            Err(msg) => res matches Err(m) && m@ == msg,
        },
{
    match value {
        JsonValue::Array(values) => parse_item_list(values),
        _ => Err("allow_all/check_all expects a list of keys or {key, cost} items".to_owned()),
    }
}

/// Reads the items of a list one by one (see [`multi_items_of`]).
fn parse_item_list(values: &Vec<JsonValue>) -> (res: Result<Vec<MultiCheckItem>, String>)
    ensures
        match multi_items_of(values@) {
            Ok(items) => res matches Ok(v) && v@.len() == items.len() && forall|i: int|
                0 <= i < items.len() ==> (#[trigger] v@[i]).key@ == items[i].0 && v@[i].cost
                    == items[i].1,
            Err(msg) => res matches Err(m) && m@ == msg,
        },
{
    let mut out: Vec<MultiCheckItem> = Vec::new();
    let mut i: usize = 0;
    while i < values.len()
        invariant
            i <= values@.len(),
            multi_items_of(values@.take(i as int)) matches Ok(items) && out@.len() == items.len()
                && forall|j: int|
                0 <= j < items.len() ==> (#[trigger] out@[j]).key@ == items[j].0 && out@[j].cost
                    == items[j].1,
        decreases values@.len() - i,
    {
        assert(values@.take(i + 1).drop_last() =~= values@.take(i as int));
        assert(values@.take(i + 1).last() == values@[i as int]);
        match parse_multi_item(&values[i]) {
            Ok(item) => {
                out.push(item);
            },
            Err(msg) => {
                proof {
                    lemma_first_refusal(values@, i as int);
                }
                return Err(msg);
            },
        }
        i = i + 1;
    }
    assert(values@.take(values@.len() as int) =~= values@);
    Ok(out)
}

/// Once a prefix of a list holds a refused item, the whole list is refused
/// with that item's message.
proof fn lemma_first_refusal(values: Seq<JsonValue>, i: int)
    requires
        0 <= i < values.len(),
        multi_items_of(values.take(i)) is Ok,
        spec_multi_item(values[i]) is Err,
    ensures
        multi_items_of(values) == Err::<Seq<(Seq<char>, u64)>, Seq<char>>(
            spec_multi_item(values[i])->Err_0,
        ),
    decreases values.len(),
{
    if i == values.len() - 1 {
        assert(values.drop_last() =~= values.take(i));
    } else {
        assert(values.drop_last().take(i) =~= values.take(i));
        lemma_first_refusal(values.drop_last(), i);
    }
}

} // verus!
