//! Parsing of durations such as `10s`, `1m`, `2h`, `1d` and `250ms`.

use vstd::prelude::*;

use crate::error::FlintError;
use crate::text::{
    all_digits, digit_prefix_len, digit_value, digits_value, is_digit, string_from_chars, trim,
    trimmed_chars,
};

verus! {

/// How many units of the result one unit of `suffix` is worth, when the result
/// counts seconds (`millis == false`) or milliseconds (`millis == true`).
/// A bare number counts seconds; `ms` is only known in milliseconds.
pub open spec fn suffix_factor(suffix: Seq<char>, millis: bool) -> Option<nat> {
    let per_second: nat = if millis { 1000 } else { 1 };
    if suffix.len() == 0 || suffix == seq!['s'] {
        Some(per_second)
    } else if suffix == seq!['m'] {
        Some(60 * per_second)
    } else if suffix == seq!['h'] {
        Some(3600 * per_second)
    } else if suffix == seq!['d'] {
        Some(86400 * per_second)
    } else if millis && suffix == seq!['m', 's'] {
        Some(1)
    } else {
        None
    }
}

/// The duration that `value` spells, before any check that it fits in `u64`:
/// surrounding white space is ignored, then a run of decimal digits that fits in
/// `u64` must be followed by a known suffix.
pub open spec fn spec_duration(value: Seq<char>, millis: bool) -> Option<nat> {
    let t = trim(value);
    let n = digit_prefix_len(t);
    let number = t.take(n as int);
    let suffix = t.skip(n as int);
    if t.len() == 0 || n == 0 || digits_value(number) > u64::MAX {
        None
    } else {
        match suffix_factor(suffix, millis) {
            Some(f) => Some(digits_value(number) * f),
            None => None,
        }
    }
}

/// Whether a duration that `value` spells, if any, fits in `u64`.
pub open spec fn duration_fits(value: Seq<char>, millis: bool) -> bool {
    match spec_duration(value, millis) {
        Some(v) => v <= u64::MAX,
        None => true,
    }
}

proof fn lemma_digit_prefix(s: Seq<char>)
    ensures
        digit_prefix_len(s) <= s.len(),
        all_digits(s.take(digit_prefix_len(s) as int)),
        digit_prefix_len(s) < s.len() ==> !is_digit(s[digit_prefix_len(s) as int]),
    decreases s.len(),
{
    if s.len() > 0 && is_digit(s[0]) {
        lemma_digit_prefix(s.drop_first());
        let n: int = digit_prefix_len(s.drop_first()) as int;
        assert forall|i: int| 0 <= i < n + 1 implies is_digit(#[trigger] s.take(n + 1)[i]) by {
            if i > 0 {
                assert(s.take(n + 1)[i] == s.drop_first().take(n)[i - 1]);
            }
        }
        if n + 1 < s.len() {
            assert(s[n + 1] == s.drop_first()[n]);
        }
    }
}

/// Finds where the leading digits of `cs` end.
fn digit_prefix(cs: &Vec<char>) -> (n: usize)
    ensures
        n == digit_prefix_len(cs@),
{
    proof {
        lemma_digit_prefix(cs@);
    }
    let mut i: usize = 0;
    while i < cs.len() && '0' <= cs[i] && cs[i] <= '9'
        invariant
            i <= cs@.len(),
            forall|j: int| 0 <= j < i ==> is_digit(#[trigger] cs@[j]),
            digit_prefix_len(cs@) <= cs@.len(),
            all_digits(cs@.take(digit_prefix_len(cs@) as int)),
            digit_prefix_len(cs@) < cs@.len() ==> !is_digit(cs@[digit_prefix_len(cs@) as int]),
        decreases cs@.len() - i,
    {
        i = i + 1;
    }
    proof {
        let p = digit_prefix_len(cs@) as int;
        if (i as int) < p {
            assert(is_digit(cs@.take(p)[i as int]));
        }
        if p < i {
            assert(is_digit(cs@[p]));
        }
    }
    i
}

/// The value of the digits `cs[0..n]`, or `None` when it does not fit in `u64`.
fn digits_to_u64(cs: &Vec<char>, n: usize) -> (res: Option<u64>)
    requires
        n <= cs@.len(),
        all_digits(cs@.take(n as int)),
    ensures
        match res {
            Some(v) => v == digits_value(cs@.take(n as int)),
            None => digits_value(cs@.take(n as int)) > u64::MAX,
        },
{
    let mut acc: u64 = 0;
    let mut i: usize = 0;
    while i < n
        invariant
            i <= n <= cs@.len(),
            all_digits(cs@.take(n as int)),
            acc == digits_value(cs@.take(i as int)),
        decreases n - i,
    {
        let c = cs[i];
        assert(cs@.take(n as int)[i as int] == c);
        let d = (c as u32 - '0' as u32) as u64;
        assert(cs@.take(i + 1).drop_last() =~= cs@.take(i as int));
        assert(cs@.take(i + 1).last() == c);
        match acc.checked_mul(10) {
            Some(m) => match m.checked_add(d) {
                Some(v) => {
                    acc = v;
                },
                None => {
                    proof {
                        lemma_digits_prefix_monotone(cs@.take(n as int), i + 1);
                        assert(cs@.take(n as int).take(i + 1) =~= cs@.take(i + 1));
                    }
                    return None;
                },
            },
            None => {
                proof {
                    lemma_digits_prefix_monotone(cs@.take(n as int), i + 1);
                    assert(cs@.take(n as int).take(i + 1) =~= cs@.take(i + 1));
                }
                return None;
            },
        }
        i = i + 1;
    }
    Some(acc)
}

/// A prefix of a run of digits never spells more than the whole run.
proof fn lemma_digits_prefix_monotone(s: Seq<char>, k: int)
    requires
        0 <= k <= s.len(),
    ensures
        digits_value(s.take(k)) <= digits_value(s),
    decreases s.len() - k,
{
    if k < s.len() {
        lemma_digits_prefix_monotone(s.drop_last(), k);
        assert(s.drop_last().take(k) =~= s.take(k));
    } else {
        assert(s.take(k) =~= s);
    }
}

/// The factor of the suffix `cs[n..]`.
fn suffix_factor_of(cs: &Vec<char>, n: usize, millis: bool) -> (res: Option<u64>)
    requires
        n <= cs@.len(),
    ensures
        match suffix_factor(cs@.skip(n as int), millis) {
            Some(f) => res == Some(f as u64),
            None => res is None,
        },
{
    let ghost suffix = cs@.skip(n as int);
    let len = cs.len() - n;
    let per_second: u64 = if millis { 1000 } else { 1 };
    assert(suffix.len() == len);
    if len == 0 {
        return Some(per_second);
    }
    let first = cs[n];
    assert(suffix[0] == first);
    if len == 1 {
        if first == 's' {
            assert(suffix =~= seq!['s']);
            Some(per_second)
        } else if first == 'm' {
            assert(suffix =~= seq!['m']);
            Some(60 * per_second)
        } else if first == 'h' {
            assert(suffix =~= seq!['h']);
            Some(3600 * per_second)
        } else if first == 'd' {
            assert(suffix =~= seq!['d']);
            Some(86400 * per_second)
        } else {
            assert(suffix != seq!['s'] && suffix != seq!['m'] && suffix != seq!['h']
                && suffix != seq!['d']);
            None
        }
    } else if len == 2 && millis && first == 'm' && cs[n + 1] == 's' {
        assert(suffix =~= seq!['m', 's']);
        Some(1)
    } else {
        if len == 2 {
            assert(suffix[1] == cs@[n + 1]);
            assert(suffix != seq!['m', 's'] || !millis);
        }
        assert(suffix.len() != 1 && suffix.len() != 0);
        assert(suffix != seq!['s'] && suffix != seq!['m'] && suffix != seq!['h']
            && suffix != seq!['d']);
        None
    }
}

/// Whether the duration that `value` spells, if it spells one, fits in `u64`
/// (see [`duration_fits`]); the parsers are defined only where it does.
pub fn duration_in_range(value: &str, millis: bool) -> (res: bool)
    ensures
        res == duration_fits(value@, millis),
{
    let t = trimmed_chars(value);
    if t.len() == 0 {
        return true;
    }
    let n = digit_prefix(&t);
    proof {
        lemma_digit_prefix(t@);
    }
    if n == 0 {
        return true;
    }
    let number = match digits_to_u64(&t, n) {
        Some(v) => v,
        None => {
            return true;
        },
    };
    match suffix_factor_of(&t, n, millis) {
        Some(f) => number.checked_mul(f).is_some(),
        None => true,
    }
}

/// The shared body of the two duration parsers.
fn parse_duration_in(value: &str, millis: bool) -> (res: Result<u64, FlintError>)
    requires
        duration_fits(value@, millis),
    ensures
        match spec_duration(value@, millis) {
            Some(v) => res matches Ok(r) && r == v,
            None => res matches Err(FlintError::InvalidDuration(m)) && m@ == trim(value@),
        },
{
    let t = trimmed_chars(value);
    if t.len() == 0 {
        return Err(FlintError::InvalidDuration(string_from_chars(t.as_slice())));
    }
    let n = digit_prefix(&t);
    proof {
        lemma_digit_prefix(t@);
    }
    if n == 0 {
        return Err(FlintError::InvalidDuration(string_from_chars(t.as_slice())));
    }
    let number = match digits_to_u64(&t, n) {
        Some(v) => v,
        None => {
            return Err(FlintError::InvalidDuration(string_from_chars(t.as_slice())));
        },
    };
    match suffix_factor_of(&t, n, millis) {
        Some(f) => {
            assert(number * f == spec_duration(value@, millis).unwrap());
            Ok(number * f)
        },
        None => Err(FlintError::InvalidDuration(string_from_chars(t.as_slice()))),
    }
}

/// Parses a duration in seconds: a whole number followed by nothing or `s`
/// (seconds), `m` (minutes), `h` (hours) or `d` (days), with white space around
/// it ignored. Anything else, `ms` included, is refused with
/// `InvalidDuration` carrying the trimmed text.
pub fn parse_duration(value: &str) -> (res: Result<u64, FlintError>)
    requires
        duration_fits(value@, false),
    ensures
        match spec_duration(value@, false) {
            Some(v) => res matches Ok(r) && r == v,
            None => res matches Err(FlintError::InvalidDuration(m)) && m@ == trim(value@),
        },
{
    parse_duration_in(value, false)
}

/// Parses the period of a limit in milliseconds: like [`parse_duration`], and
/// `ms` is accepted as a suffix too.
pub fn parse_duration_millis(value: &str) -> (res: Result<u64, FlintError>)
    requires
        duration_fits(value@, true),
    ensures
        match spec_duration(value@, true) {
            Some(v) => res matches Ok(r) && r == v,
            None => res matches Err(FlintError::InvalidDuration(m)) && m@ == trim(value@),
        },
{
    parse_duration_in(value, true)
}

} // verus!
