//! Parsing of duration strings such as `30m` or `90s`.

use vstd::prelude::*;

use crate::errors::{LaikaError, LaikaResult};
use crate::strutil::chars_of;

verus! {

broadcast use vstd::std_specs::vec::group_vec_axioms, vstd::seq::group_seq_axioms;

/// An ASCII letter.
pub open spec fn is_letter(c: char) -> bool {
    ('a' <= c && c <= 'z') || ('A' <= c && c <= 'Z')
}

/// An ASCII digit.
pub open spec fn is_digit(c: char) -> bool {
    '0' <= c && c <= '9'
}

/// The value of one ASCII digit.
pub open spec fn digit_val(c: char) -> int {
    c as int - '0' as int
}

/// Index of the first letter in `s` from `i` on, or the length.
pub open spec fn first_letter_at(s: Seq<char>, i: int) -> int
    decreases s.len() - i,
{
    if i < 0 || i >= s.len() {
        s.len() as int
    } else if is_letter(s[i]) {
        i
    } else {
        first_letter_at(s, i + 1)
    }
}

/// The value of a digit string, or none when it is empty or holds a
/// non-digit.
pub open spec fn digits_value(s: Seq<char>) -> Option<int>
    decreases s.len(),
{
    if s.len() == 0 {
        None
    } else if !is_digit(s.last()) {
        None
    } else if s.len() == 1 {
        Some(digit_val(s[0]))
    } else {
        match digits_value(s.drop_last()) {
            Some(v) => Some(v * 10 + digit_val(s.last())),
            None => None,
        }
    }
}

/// Seconds per unit word, or none for an unknown unit.  The `ms` unit
/// counts in thousandths and is handled apart.
pub open spec fn unit_seconds(u: Seq<char>) -> Option<int> {
    if u == "s"@ {
        Some(1)
    } else if u == "m"@ {
        Some(60)
    } else if u == "h"@ {
        Some(3600)
    } else if u == "d"@ {
        Some(86400)
    } else {
        None
    }
}

/// What `parse_time_str` yields: the whole seconds of `<digits><unit>`
/// with unit among `ms`, `s`, `m`, `h`, `d`.  Milliseconds round down
/// to whole seconds.
pub open spec fn parse_time_spec(s: Seq<char>) -> Option<int> {
    let p = first_letter_at(s, 0);
    let digits = s.subrange(0, p);
    let unit = s.subrange(p, s.len() as int);
    if p >= s.len() {
        None
    } else {
        match digits_value(digits) {
            None => None,
            Some(v) => {
                if unit == "ms"@ {
                    Some(v / 1000)
                } else {
                    match unit_seconds(unit) {
                        Some(mult) => Some(v * mult),
                        None => None,
                    }
                }
            },
        }
    }
}

fn is_letter_exec(c: char) -> (r: bool)
    ensures
        r == is_letter(c),
{
    ('a' <= c && c <= 'z') || ('A' <= c && c <= 'Z')
}

fn first_letter_exec(chars: &Vec<char>, i: usize) -> (r: usize)
    requires
        i <= chars@.len(),
    ensures
        r as int == first_letter_at(chars@, i as int),
        i <= r <= chars@.len(),
    decreases chars@.len() - i,
{
    if i >= chars.len() {
        chars.len()
    } else if is_letter_exec(chars[i]) {
        i
    } else {
        first_letter_exec(chars, i + 1)
    }
}

/// Read the digits of `chars[0..p]` as a value, refusing any non-digit,
/// an empty prefix, or a value beyond `i64`.
fn digits_exec(chars: &Vec<char>, p: usize) -> (r: Option<i64>)
    requires
        p <= chars@.len(),
    ensures
        match r {
            Some(v) => digits_value(chars@.subrange(0, p as int)) == Some(v as int) && v >= 0,
            None => digits_value(chars@.subrange(0, p as int)) is None || (
            digits_value(chars@.subrange(0, p as int)) matches Some(v) && v
                > 0x7fff_ffff_ffff_ffff),
        },
{
    if p == 0 {
        return None;
    }
    let mut acc: i64 = 0;
    let mut k: usize = 0;
    proof {
        assert(chars@.subrange(0, 0) =~= Seq::<char>::empty());
    }
    while k < p
        invariant
            k <= p <= chars@.len(),
            k > 0 ==> digits_value(chars@.subrange(0, k as int)) == Some(acc as int),
            k == 0 ==> acc == 0,
            acc >= 0,
        decreases p - k,
    {
        let ghost prefix = chars@.subrange(0, k as int);
        let ghost next_prefix = chars@.subrange(0, k + 1);
        proof {
            assert(next_prefix.drop_last() =~= prefix);
            assert(next_prefix.last() == chars@[k as int]);
        }
        let c = chars[k];
        if !('0' <= c && c <= '9') {
            proof {
                assert(digits_value(chars@.subrange(0, p as int)) is None) by {
                    lemma_digits_bad(chars@, k as int, p as int);
                }
            }
            return None;
        }
        let d: i64 = (c as u32 as i64) - ('0' as u32 as i64);
        if acc > (0x7fff_ffff_ffff_ffffi64 - d) / 10 {
            proof {
                lemma_digits_grow(chars@, k + 1, p as int);
            }
            return None;
        }
        acc = acc * 10 + d;
        k = k + 1;
    }
    Some(acc)
}

proof fn lemma_digits_bad(s: Seq<char>, k: int, p: int)
    requires
        0 <= k < p <= s.len(),
        !is_digit(s[k]),
    ensures
        digits_value(s.subrange(0, p)) is None,
    decreases p,
{
    let whole = s.subrange(0, p);
    if k == p - 1 {
        assert(whole.last() == s[k]);
    } else {
        lemma_digits_bad(s, k, p - 1);
        assert(whole.drop_last() =~= s.subrange(0, p - 1));
        if is_digit(whole.last()) && whole.len() > 1 {
        }
    }
}

proof fn lemma_digits_grow(s: Seq<char>, k: int, p: int)
    requires
        0 < k <= p <= s.len(),
        digits_value(s.subrange(0, k)) matches Some(v) && v > 0x7fff_ffff_ffff_ffff,
    ensures
        digits_value(s.subrange(0, p)) is None || (digits_value(s.subrange(0, p)) matches Some(w)
            && w > 0x7fff_ffff_ffff_ffff),
    decreases p - k,
{
    if k < p {
        let cur = s.subrange(0, k);
        let next = s.subrange(0, k + 1);
        assert(next.drop_last() =~= cur);
        assert(next.last() == s[k]);
        if is_digit(s[k]) {
            lemma_digits_grow(s, k + 1, p);
        } else {
            lemma_digits_bad(s, k, p);
        }
    }
}

/// Parse a duration such as `30m` into whole seconds.  The text is an
/// unsigned number followed directly by a unit among `ms`, `s`, `m`,
/// `h` and `d`; milliseconds round down.  Anything else is refused, as
/// is a value whose seconds leave the signed 64-bit range.
pub fn parse_time_str(time_str: &str) -> (r: LaikaResult<i64>)
    ensures
        match r {
            Ok(v) => parse_time_spec(time_str@) == Some(v as int) && v >= 0,
            Err(_) => {
                ||| parse_time_spec(time_str@) is None
                ||| (digits_value(
                    time_str@.subrange(0, first_letter_at(time_str@, 0)),
                ) matches Some(v) && v > 0x7fff_ffff_ffff_ffff)
                ||| (parse_time_spec(time_str@) matches Some(w) && w > 0x7fff_ffff_ffff_ffff)
            },
        },
{
    let chars = chars_of(time_str);
    let p = first_letter_exec(&chars, 0);
    if p >= chars.len() {
        return Err(LaikaError::Generic("missing unit".to_owned()));
    }
    let value = match digits_exec(&chars, p) {
        Some(v) => v,
        None => {
            return Err(LaikaError::Generic("invalid number".to_owned()));
        },
    };
    let mut unit = String::new();
    let mut k: usize = p;
    while k < chars.len()
        invariant
            p <= k <= chars@.len(),
            unit@ == chars@.subrange(p as int, k as int),
        decreases chars@.len() - k,
    {
        crate::strutil::push_char(&mut unit, chars[k]);
        k = k + 1;
        proof {
            assert(unit@ =~= chars@.subrange(p as int, k as int));
        }
    }
    proof {
        assert(unit@ =~= chars@.subrange(p as int, chars@.len() as int));
    }
    if unit == "ms".to_owned() {
        let secs: i64 = ((value as u64) / 1000) as i64;
        proof {
            assert(secs as int == value as int / 1000);
        }
        Ok(secs)
    } else if unit == "s".to_owned() {
        Ok(value)
    } else if unit == "m".to_owned() {
        match value.checked_mul(60) {
            Some(v) => {
                proof {
                    vstd::arithmetic::mul::lemma_mul_nonnegative(value as int, 60);
                }
                Ok(v)
            },
            None => {
                proof {
                    vstd::arithmetic::mul::lemma_mul_nonnegative(value as int, 60);
                }
                Err(LaikaError::Generic("duration too large".to_owned()))
            },
        }
    } else if unit == "h".to_owned() {
        match value.checked_mul(3600) {
            Some(v) => {
                proof {
                    vstd::arithmetic::mul::lemma_mul_nonnegative(value as int, 3600);
                }
                Ok(v)
            },
            None => {
                proof {
                    vstd::arithmetic::mul::lemma_mul_nonnegative(value as int, 3600);
                }
                Err(LaikaError::Generic("duration too large".to_owned()))
            },
        }
    } else if unit == "d".to_owned() {
        match value.checked_mul(86400) {
            Some(v) => {
                proof {
                    vstd::arithmetic::mul::lemma_mul_nonnegative(value as int, 86400);
                }
                Ok(v)
            },
            None => {
                proof {
                    vstd::arithmetic::mul::lemma_mul_nonnegative(value as int, 86400);
                }
                Err(LaikaError::Generic("duration too large".to_owned()))
            },
        }
    } else {
        Err(LaikaError::Generic("unknown unit".to_owned()))
    }
}

} // verus!
