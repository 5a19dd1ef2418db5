//! The decisions of the command-line and HTTP front ends: reading `key=cost`
//! arguments, checking a bearer token, choosing an HTTP status for an error,
//! and refusing an unsafe server configuration.

use vstd::prelude::*;

use crate::error::FlintError;
use crate::text::{
    all_digits, chars_equal, chars_of, digit_value, digits_value, is_digit, string_from_chars,
    string_from_range,
};
use crate::types::{items_view, ItemModel, MultiCheckItem};

verus! {

/// Why `u64::from_str` refuses a text.
#[derive(Debug, Clone, Copy, PartialEq, Eq, Structural)]
pub enum IntErrorKind {
    /// The text is empty.
    Empty,
    /// The text holds something other than an optional `+` and digits.
    InvalidDigit,
    /// The number is larger than `u64::MAX`.
    PosOverflow,
}

/// The first refusal met while reading the digits `s[i..]` onto `acc`, if any:
/// digits are read from left to right, and a non-digit or an overflow stops
/// the reading, whichever comes first.
pub open spec fn digits_error(s: Seq<char>, i: int, acc: nat) -> Option<IntErrorKind>
    decreases s.len() - i,
{
    if i < 0 || i >= s.len() {
        None
    } else if !is_digit(s[i]) {
        Some(IntErrorKind::InvalidDigit)
    } else if acc * 10 + digit_value(s[i]) > u64::MAX {
        Some(IntErrorKind::PosOverflow)
    } else {
        digits_error(s, i + 1, acc * 10 + digit_value(s[i]))
    }
}

/// The digits of a decimal text after its optional `+`.
pub open spec fn unsigned_digits(s: Seq<char>) -> Seq<char> {
    if s.len() > 0 && s[0] == '+' {
        s.drop_first()
    } else {
        s
    }
}

/// What `u64::from_str` gives for `s`: an optional `+` followed by at least one
/// digit, with a value that fits in `u64`.
pub open spec fn spec_parse_u64(s: Seq<char>) -> Result<u64, IntErrorKind> {
    let d = unsigned_digits(s);
    if s.len() == 0 {
        Err(IntErrorKind::Empty)
    } else if d.len() == 0 {
        Err(IntErrorKind::InvalidDigit)
    } else {
        match digits_error(d, 0, 0) {
            Some(k) => Err(k),
            None => Ok(digits_value(d) as u64),
        }
    }
}

proof fn lemma_digits_step(s: Seq<char>, i: int)
    requires
        0 <= i < s.len(),
    ensures
        digits_value(s.take(i + 1)) == digits_value(s.take(i)) * 10 + digit_value(s[i]),
{
    assert(s.take(i + 1).drop_last() =~= s.take(i));
}

/// Reads a decimal `u64` as `u64::from_str` does.
pub fn parse_u64(s: &str) -> (res: Result<u64, IntErrorKind>)
    ensures
        res == spec_parse_u64(s@),
{
    let cs = chars_of(s);
    if cs.len() == 0 {
        return Err(IntErrorKind::Empty);
    }
    let start: usize = if cs[0] == '+' {
        1
    } else {
        0
    };
    let ghost d = unsigned_digits(cs@);
    assert(d =~= cs@.skip(start as int));
    if start == cs.len() {
        return Err(IntErrorKind::InvalidDigit);
    }
    let mut acc: u64 = 0;
    let mut i: usize = start;
    while i < cs.len()
        invariant
            start <= i <= cs@.len(),
            cs@ == s@,
            cs@.len() > 0,
            d.len() > 0,
            d == unsigned_digits(s@),
            d == cs@.skip(start as int),
            acc == digits_value(d.take(i - start)),
            digits_error(d, 0, 0) == digits_error(d, i - start, acc as nat),
        decreases cs@.len() - i,
    {
        let c = cs[i];
        assert(d[i - start] == c);
        if c < '0' || c > '9' {
            return Err(IntErrorKind::InvalidDigit);
        }
        let digit = (c as u32 - '0' as u32) as u64;
        proof {
            lemma_digits_step(d, i - start);
        }
        if acc > (u64::MAX - digit) / 10 {
            assert(acc * 10 + digit > u64::MAX) by (nonlinear_arith)
                requires
                    acc > (u64::MAX - digit) / 10,
                    digit <= 9,
            ;
            return Err(IntErrorKind::PosOverflow);
        }
        assert(acc * 10 + digit <= u64::MAX) by (nonlinear_arith)
            requires
                acc <= (u64::MAX - digit) / 10,
                digit <= 9,
        ;
        acc = acc * 10 + digit;
        i = i + 1;
    }
    assert(d.take(d.len() as int) =~= d);
    Ok(acc)
}

/// Why `key=cost` arguments are refused.
#[derive(Debug)]
pub enum CliError {
    /// An argument without `=`.
    CostWithoutKey(String),
    /// A cost that is not a `u64`.
    BadCost(IntErrorKind),
    /// A key given two costs.
    DuplicateCost(String),
    /// Costs given for keys that are not checked, in the order of the arguments.
    UnknownCostKeys(Vec<String>),
}

/// The position of the first `=` in `s`, if any.
pub open spec fn eq_sign_at(s: Seq<char>) -> Option<int> {
    if exists|i: int| 0 <= i < s.len() && s[i] == '=' {
        Some(choose|i: int| 0 <= i < s.len() && s[i] == '=' && forall|j: int| 0 <= j < i ==> s[j] != '=')
    } else {
        None
    }
}

/// A cost argument read so far: the keys and costs, in order, or the first refusal.
pub enum CostTable {
    Read(Seq<(Seq<char>, u64)>),
    Refused(CliErrorModel),
}

/// A refusal of cost arguments as a mathematical value.
pub enum CliErrorModel {
    CostWithoutKey(Seq<char>),
    BadCost(IntErrorKind),
    DuplicateCost(Seq<char>),
}

/// Whether `table` has an entry for `key`.
pub open spec fn table_has(table: Seq<(Seq<char>, u64)>, key: Seq<char>) -> bool {
    exists|i: int| 0 <= i < table.len() && (#[trigger] table[i]).0 == key
}

/// What reading the `key=cost` arguments `costs` in order gives: each splits at
/// its first `=`, the cost must be a `u64`, and no key may come twice.
pub open spec fn cost_table(costs: Seq<Seq<char>>) -> CostTable
    decreases costs.len(),
{
    if costs.len() == 0 {
        CostTable::Read(Seq::empty())
    } else {
        match cost_table(costs.drop_last()) {
            CostTable::Refused(e) => CostTable::Refused(e),
            CostTable::Read(t) => {
                let arg = costs.last();
                match eq_sign_at(arg) {
                    None => CostTable::Refused(CliErrorModel::CostWithoutKey(arg)),
                    Some(p) => {
                        let key = arg.take(p);
                        match spec_parse_u64(arg.skip(p + 1)) {
                            Err(k) => CostTable::Refused(CliErrorModel::BadCost(k)),
                            Ok(n) => if table_has(t, key) {
                                CostTable::Refused(CliErrorModel::DuplicateCost(key))
                            } else {
                                CostTable::Read(t.push((key, n)))
                            },
                        }
                    },
                }
            },
        }
    }
}


/// The texts of a list of strings.
pub open spec fn strings_view(v: Seq<String>) -> Seq<Seq<char>> {
    v.map_values(|s: String| s@)
}

/// The entries of a cost table as mathematical values.
pub open spec fn table_view(v: Seq<(String, u64)>) -> Seq<(Seq<char>, u64)> {
    v.map_values(|e: (String, u64)| (e.0@, e.1))
}

/// Whether `err` is the refusal `e`.
pub open spec fn cli_error_is(err: CliError, e: CliErrorModel) -> bool {
    match e {
        CliErrorModel::CostWithoutKey(arg) => err matches CliError::CostWithoutKey(a) && a@ == arg,
        CliErrorModel::BadCost(k) => err matches CliError::BadCost(k2) && k2 == k,
        CliErrorModel::DuplicateCost(key) => err matches CliError::DuplicateCost(k) && k@ == key,
    }
}

/// The cost given in `table` for `key` (which it has).
pub open spec fn table_cost(table: Seq<(Seq<char>, u64)>, key: Seq<char>) -> u64 {
    table[choose|i: int| 0 <= i < table.len() && (#[trigger] table[i]).0 == key].1
}

/// Whether `keys[i]` is the first time its key is named.
pub open spec fn first_naming(keys: Seq<Seq<char>>, i: int) -> bool {
    forall|j: int| 0 <= j < i ==> keys[j] != keys[i]
}

/// The cost of the check of `keys[i]`: the cost given for its key, taken by the
/// first check of that key, or one.
pub open spec fn item_cost(keys: Seq<Seq<char>>, table: Seq<(Seq<char>, u64)>, i: int) -> u64 {
    if first_naming(keys, i) && table_has(table, keys[i]) {
        table_cost(table, keys[i])
    } else {
        1
    }
}

/// The keys of `table` that `keys` does not name, in order.
pub open spec fn unknown_keys(table: Seq<(Seq<char>, u64)>, keys: Seq<Seq<char>>) -> Seq<Seq<char>>
    decreases table.len(),
{
    if table.len() == 0 {
        Seq::empty()
    } else if keys.contains(table.last().0) {
        unknown_keys(table.drop_last(), keys)
    } else {
        unknown_keys(table.drop_last(), keys).push(table.last().0)
    }
}

/// Splits `arg` at its first `=`.
fn split_cost_arg(arg: &String) -> (res: Option<(String, String)>)
    ensures
        match eq_sign_at(arg@) {
            None => res is None,
            Some(p) => res matches Some((k, v)) && k@ == arg@.take(p) && v@ == arg@.skip(p + 1),
        },
{
    let cs = chars_of(arg.as_str());
    let mut i: usize = 0;
    while i < cs.len()
        invariant
            cs@ == arg@,
            i <= cs@.len(),
            forall|j: int| 0 <= j < i ==> cs@[j] != '=',
        decreases cs@.len() - i,
    {
        if cs[i] == '=' {
            proof {
                let p = eq_sign_at(arg@)->0;
                assert(cs@[i as int] == '=');
                assert(p == i) by {
                    if p < i {
                        assert(cs@[p] != '=');
                    }
                    if p > i {
                        assert(cs@[i as int] != '=');
                    }
                }
            }
            let key = string_from_range(cs.as_slice(), 0, i);
            let value = string_from_range(cs.as_slice(), i + 1, cs.len());
            proof {
                assert(cs@.subrange(0, i as int) =~= arg@.take(i as int));
                assert(cs@.subrange(i + 1, cs@.len() as int) =~= arg@.skip(i + 1));
            }
            return Some((key, value));
        }
        i = i + 1;
    }
    proof {
        assert(!(exists|j: int| 0 <= j < arg@.len() && arg@[j] == '='));
    }
    None
}


/// Whether the keys of `table` are distinct.
pub open spec fn table_keys_distinct(table: Seq<(Seq<char>, u64)>) -> bool {
    forall|a: int, b: int| 0 <= a < b < table.len() ==> (#[trigger] table[a]).0 != (#[trigger] table[b]).0
}

proof fn lemma_cost_table_distinct(costs: Seq<Seq<char>>)
    ensures
        cost_table(costs) matches CostTable::Read(t) ==> table_keys_distinct(t),
    decreases costs.len(),
{
    if costs.len() > 0 {
        lemma_cost_table_distinct(costs.drop_last());
        match cost_table(costs.drop_last()) {
            CostTable::Read(t) => {
                match cost_table(costs) { CostTable::Read(t2) => {
                    let p = eq_sign_at(costs.last())->0;
                    let key = costs.last().take(p);
                    assert(!table_has(t, key));
                    assert forall|a: int, b: int| 0 <= a < b < t2.len() implies (#[trigger] t2[a]).0
                        != (#[trigger] t2[b]).0 by {
                        if b == t2.len() - 1 {
                            assert(t2[a] == t[a]);
                        } else {
                            assert(t2[a] == t[a] && t2[b] == t[b]);
                        }
                    }
                }, _ => {} }
            },
            _ => {},
        }
    }
}

/// Whether `table` has an entry for `key`.
fn table_has_key(table: &Vec<(String, u64)>, key: &String) -> (res: bool)
    ensures
        res == table_has(table_view(table@), key@),
{
    let mut j: usize = 0;
    while j < table.len()
        invariant
            j <= table@.len(),
            forall|x: int| 0 <= x < j ==> table_view(table@)[x].0 != key@,
        decreases table@.len() - j,
    {
        if table[j].0 == *key {
            proof {
                assert(table_view(table@)[j as int].0 == key@);
            }
            return true;
        }
        j = j + 1;
    }
    proof {
        if table_has(table_view(table@), key@) {
            let x = choose|x: int| 0 <= x < table_view(table@).len() && (#[trigger] table_view(table@)[x]).0 == key@;
            assert(table_view(table@)[x].0 != key@);
        }
    }
    false
}

/// Reads the `key=cost` arguments in order.
fn read_cost_table(costs: &Vec<String>) -> (res: Result<Vec<(String, u64)>, CliError>)
    ensures
        match cost_table(strings_view(costs@)) {
            CostTable::Read(t) => res matches Ok(v) && table_view(v@) == t,
            CostTable::Refused(e) => res matches Err(err) && cli_error_is(err, e),
        },
{
    let ghost cv = strings_view(costs@);
    let mut table: Vec<(String, u64)> = Vec::new();
    let mut i: usize = 0;
    assert(cv.take(0) =~= Seq::<Seq<char>>::empty());
    assert(table_view(table@) =~= Seq::<(Seq<char>, u64)>::empty());
    while i < costs.len()
        invariant
            cv == strings_view(costs@),
            i <= costs@.len(),
            cost_table(cv.take(i as int)) == CostTable::Read(table_view(table@)),
        decreases costs@.len() - i,
    {
        let arg = &costs[i];
        proof {
            assert(cv.take(i + 1).drop_last() =~= cv.take(i as int));
            assert(cv.take(i + 1).last() == arg@);
        }
        let (key, value) = match split_cost_arg(arg) {
            None => {
                proof {
                    lemma_cost_table_prefix(cv, i as int + 1);
                }
                return Err(CliError::CostWithoutKey(arg.clone()));
            },
            Some(kv) => kv,
        };
        let n = match parse_u64(value.as_str()) {
            Err(k) => {
                proof {
                    lemma_cost_table_prefix(cv, i as int + 1);
                }
                return Err(CliError::BadCost(k));
            },
            Ok(n) => n,
        };
        if table_has_key(&table, &key) {
            proof {
                lemma_cost_table_prefix(cv, i as int + 1);
            }
            return Err(CliError::DuplicateCost(key));
        }
        let ghost before = table@;
        let ghost k = key@;
        table.push((key, n));
        proof {
            assert(table_view(table@) =~= table_view(before).push((k, n)));
        }
        i = i + 1;
    }
    proof {
        assert(cv.take(costs@.len() as int) =~= cv);
    }
    Ok(table)
}

/// Once the arguments read so far are refused, reading more keeps the refusal.
proof fn lemma_cost_table_prefix(costs: Seq<Seq<char>>, i: int)
    requires
        0 <= i <= costs.len(),
        cost_table(costs.take(i)) is Refused,
    ensures
        cost_table(costs) == cost_table(costs.take(i)),
    decreases costs.len() - i,
{
    if i < costs.len() {
        assert(costs.take(i + 1).drop_last() =~= costs.take(i));
        lemma_cost_table_prefix(costs, i + 1);
    } else {
        assert(costs.take(i) =~= costs);
    }
}

/// Builds the items of an all-or-nothing check from the command line: the
/// checked keys, in order, and `key=cost` arguments. The first check of a key
/// takes the cost given for it; every other check costs one. Arguments without
/// `=`, costs that are not numbers, keys given two costs and costs for keys that
/// are not checked are refused.
pub fn multi_items_from_cli(keys: Vec<String>, costs: Vec<String>) -> (res: Result<Vec<MultiCheckItem>, CliError>)
    ensures
        match cost_table(strings_view(costs@)) {
            CostTable::Refused(e) => res matches Err(err) && cli_error_is(err, e),
            CostTable::Read(t) => {
                let ks = strings_view(keys@);
                let unknown = unknown_keys(t, ks);
                if unknown.len() > 0 {
                    res matches Err(CliError::UnknownCostKeys(v)) && strings_view(v@) == unknown
                } else {
                    res matches Ok(items) && items_view(items@) == Seq::new(
                        keys@.len(),
                        |i: int| ItemModel { key: ks[i], cost: item_cost(ks, t, i) },
                    )
                }
            },
        },
{
    let ghost ks = strings_view(keys@);
    let table = read_cost_table(&costs)?;
    let ghost t = table_view(table@);
    proof {
        lemma_cost_table_distinct(strings_view(costs@));
    }
    let n = keys.len();
    let mut items: Vec<MultiCheckItem> = Vec::new();
    let mut i: usize = 0;
    while i < n
        invariant
            n == keys@.len(),
            ks == strings_view(keys@),
            t == table_view(table@),
            table_keys_distinct(t),
            i <= n,
            items@.len() == i,
            forall|z: int|
                0 <= z < i ==> (#[trigger] items@[z])@ == (ItemModel { key: ks[z], cost: item_cost(ks, t, z) }),
        decreases n - i,
    {
        let key = &keys[i];
        proof {
            assert(ks[i as int] == key@);
        }
        let mut first = true;
        let mut z: usize = 0;
        while z < i
            invariant
                z <= i < n == keys@.len(),
                ks == strings_view(keys@),
                ks[i as int] == key@,
                first == forall|w: int| 0 <= w < z ==> ks[w] != ks[i as int],
            decreases i - z,
        {
            if keys[z] == *key {
                proof {
                    assert(ks[z as int] == keys@[z as int]@);
                }
                first = false;
            }
            z = z + 1;
        }
        let mut cost: u64 = 1;
        if first {
            let mut y: usize = 0;
            while y < table.len()
                invariant_except_break
                    cost == 1,
                    forall|w: int| 0 <= w < y ==> t[w].0 != key@,
                invariant
                    y <= table@.len(),
                    t == table_view(table@),
                    table_keys_distinct(t),
                    i < ks.len(),
                    ks[i as int] == key@,
                    first_naming(ks, i as int),
                ensures
                    cost == item_cost(ks, t, i as int),
                decreases table@.len() - y,
            {
                if table[y].0 == *key {
                    proof {
                        assert(t[y as int].0 == key@);
                        let c = choose|w: int| 0 <= w < t.len() && (#[trigger] t[w]).0 == key@;
                        assert(c == y) by {
                            if c < y {
                                assert(t[c].0 != t[y as int].0);
                            }
                            if c > y {
                                assert(t[y as int].0 != t[c].0);
                            }
                        }
                    }
                    cost = table[y].1;
                    break;
                }
                y = y + 1;
            }
        } else {
            proof {
                assert(!first_naming(ks, i as int));
            }
        }
        proof {
            if first {
                assert(first_naming(ks, i as int));
            }
        }
        let ghost before = items@;
        items.push(MultiCheckItem { key: key.clone(), cost });
        proof {
            assert(items@[i as int]@ == (ItemModel { key: ks[i as int], cost: item_cost(ks, t, i as int) }));
        }
        i = i + 1;
    }
    proof {
        assert(items_view(items@) =~= Seq::new(
            keys@.len(),
            |z: int| ItemModel { key: ks[z], cost: item_cost(ks, t, z) },
        ));
    }
    let mut unknown: Vec<String> = Vec::new();
    let mut y: usize = 0;
    while y < table.len()
        invariant
            y <= table@.len(),
            n == keys@.len(),
            ks == strings_view(keys@),
            t == table_view(table@),
            strings_view(unknown@) == unknown_keys(t.take(y as int), ks),
        decreases table@.len() - y,
    {
        let entry_key = &table[y].0;
        let mut named = false;
        let mut z: usize = 0;
        while z < n
            invariant
                z <= n == keys@.len(),
                ks == strings_view(keys@),
                named == exists|w: int| 0 <= w < z && ks[w] == entry_key@,
            decreases n - z,
        {
            if keys[z] == *entry_key {
                proof {
                    assert(ks[z as int] == entry_key@);
                }
                named = true;
            }
            z = z + 1;
        }
        proof {
            assert(t.take(y + 1).drop_last() =~= t.take(y as int));
            assert(t.take(y + 1).last().0 == entry_key@);
            assert(named == ks.contains(entry_key@));
        }
        if !named {
            let ghost before = unknown@;
            unknown.push(entry_key.clone());
            proof {
                assert(strings_view(unknown@) =~= strings_view(before).push(entry_key@));
            }
        }
        y = y + 1;
    }
    proof {
        assert(t.take(table@.len() as int) =~= t);
    }
    if unknown.len() > 0 {
        return Err(CliError::UnknownCostKeys(unknown));
    }
    Ok(items)
}


/// The scheme that a bearer token is sent with: `Bearer ` and a space.
pub open spec fn bearer_prefix() -> Seq<char> {
    seq!['B', 'e', 'a', 'r', 'e', 'r', ' ']
}

/// Whether a request with the `Authorization` header `header` may go on when
/// the server expects the token `expected`: always when no token is set;
/// otherwise the header must be `Bearer ` followed by exactly the token.
pub open spec fn spec_authorized(expected: Option<Seq<char>>, header: Option<Seq<char>>) -> bool {
    match expected {
        None => true,
        Some(e) => match header {
            None => false,
            Some(h) => h.len() >= 7 && h.take(7) == bearer_prefix() && h.skip(7) == e,
        },
    }
}

/// The view of an optional string slice.
pub open spec fn opt_view(s: Option<&str>) -> Option<Seq<char>> {
    match s {
        Some(s) => Some(s@),
        None => None,
    }
}

/// Checks the bearer token of a request; `header` is the `Authorization`
/// header, when it is present and readable as text.
pub fn authorize(expected: Option<&str>, header: Option<&str>) -> (res: bool)
    ensures
        res == spec_authorized(opt_view(expected), opt_view(header)),
{
    let e = match expected {
        None => {
            return true;
        },
        Some(e) => e,
    };
    let h = match header {
        None => {
            return false;
        },
        Some(h) => h,
    };
    let hs = chars_of(h);
    let es = chars_of(e);
    if hs.len() < 7 {
        return false;
    }
    let prefix = hs[0] == 'B' && hs[1] == 'e' && hs[2] == 'a' && hs[3] == 'r' && hs[4] == 'e'
        && hs[5] == 'r' && hs[6] == ' ';
    if !prefix {
        proof {
            assert(hs@.take(7) != bearer_prefix()) by {
                if hs@.take(7) == bearer_prefix() {
                    assert(hs@.take(7)[0] == hs@[0]);
                    assert(hs@.take(7)[1] == hs@[1]);
                    assert(hs@.take(7)[2] == hs@[2]);
                    assert(hs@.take(7)[3] == hs@[3]);
                    assert(hs@.take(7)[4] == hs@[4]);
                    assert(hs@.take(7)[5] == hs@[5]);
                    assert(hs@.take(7)[6] == hs@[6]);
                }
            }
        }
        return false;
    }
    proof {
        assert(hs@.take(7) =~= bearer_prefix());
    }
    if hs.len() - 7 != es.len() {
        proof {
            assert(hs@.skip(7).len() != es@.len());
        }
        return false;
    }
    let mut i: usize = 0;
    while i < es.len()
        invariant
            hs@.len() == es@.len() + 7,
            hs@ == h@,
            es@ == e@,
            opt_view(expected) == Some(e@),
            opt_view(header) == Some(h@),
            hs@.take(7) == bearer_prefix(),
            i <= es@.len(),
            forall|j: int| 0 <= j < i ==> hs@[j + 7] == es@[j],
        decreases es@.len() - i,
    {
        assert(i + 7 < hs@.len());
        assert(hs@.len() == hs.len());
        if hs[i + 7] != es[i] {
            proof {
                assert(hs@.skip(7)[i as int] != es@[i as int]);
            }
            return false;
        }
        i = i + 1;
    }
    proof {
        assert(hs@.skip(7) =~= es@);
    }
    true
}

/// The HTTP status that answers a request that failed with `err`: 400 for a
/// bad request, 409 for a data directory held by another writer, 500 for
/// everything else.
pub fn error_status(err: &FlintError) -> (status: u16)
    ensures
        status == match err {
            FlintError::InvalidDuration(_) | FlintError::UnsupportedAlgorithm(_)
            | FlintError::LimitNotConfigured(_) => 400u16,
            FlintError::DataDirLocked { .. } => 409u16,
            _ => 500u16,
        },
{
    match err {
        FlintError::InvalidDuration(_) | FlintError::UnsupportedAlgorithm(_)
        | FlintError::LimitNotConfigured(_) => 400,
        FlintError::DataDirLocked { .. } => 409,
        FlintError::UnsupportedSnapshot(_) | FlintError::CorruptLog { .. }
        | FlintError::StorageIntegrity(_) => 500,
        FlintError::Io(_) | FlintError::Json(_) => 500,
    }
}

/// Whether `err` is the caller's mistake (a bad value) rather than a failure of
/// the limiter: the Python bindings raise `ValueError` for these.
pub fn is_value_error(err: &FlintError) -> (res: bool)
    ensures
        res == (err is InvalidDuration || err is UnsupportedAlgorithm),
{
    match err {
        FlintError::InvalidDuration(_) | FlintError::UnsupportedAlgorithm(_) => true,
        _ => false,
    }
}

/// Why a shared server refuses to start.
#[derive(Debug, Clone, Copy, PartialEq, Eq, Structural)]
pub enum ServerStartError {
    /// A server bound to an address other than loopback needs a token.
    TokenRequired,
    /// The server needs at least one blocking worker.
    NoBlockingWorkers,
}

/// Checks the configuration of a shared server: without a token it may only
/// listen on a loopback address, and it needs at least one blocking worker.
pub fn check_server_start(has_token: bool, bind_is_loopback: bool, max_blocking: usize) -> (res: Result<(), ServerStartError>)
    ensures
        !has_token && !bind_is_loopback ==> res == Err::<(), ServerStartError>(ServerStartError::TokenRequired),
        (has_token || bind_is_loopback) && max_blocking == 0 ==> res == Err::<(), ServerStartError>(
            ServerStartError::NoBlockingWorkers,
        ),
        (has_token || bind_is_loopback) && max_blocking > 0 ==> res is Ok,
{
    if !has_token && !bind_is_loopback {
        return Err(ServerStartError::TokenRequired);
    }
    if max_blocking == 0 {
        return Err(ServerStartError::NoBlockingWorkers);
    }
    Ok(())
}

/// The algorithm of a limit configured without one.
pub fn default_algorithm() -> (s: String)
    ensures
        s@ == "token_bucket"@,
{
    "token_bucket".to_owned()
}

/// The cost of a check that names none.
pub fn default_cost() -> (c: u64)
    ensures
        c == 1,
{
    1
}

} // verus!
