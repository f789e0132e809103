//! Decimal text of machine integers.

use vstd::prelude::*;

verus! {

/// The character for one decimal digit.
pub open spec fn digit_char(d: int) -> char {
    if d == 0 {
        '0'
    } else if d == 1 {
        '1'
    } else if d == 2 {
        '2'
    } else if d == 3 {
        '3'
    } else if d == 4 {
        '4'
    } else if d == 5 {
        '5'
    } else if d == 6 {
        '6'
    } else if d == 7 {
        '7'
    } else if d == 8 {
        '8'
    } else {
        '9'
    }
}

/// The decimal text of a non-negative integer, without sign.
pub open spec fn nat_text(n: int) -> Seq<char>
    recommends
        n >= 0,
    decreases n,
{
    if n < 10 {
        seq![digit_char(n)]
    } else {
        nat_text(n / 10).push(digit_char(n % 10))
    }
}

/// The decimal text of an integer: a `-` sign for negative values,
/// then the digits.
pub open spec fn int_text(n: int) -> Seq<char> {
    if n < 0 {
        seq!['-'] + nat_text(-n)
    } else {
        nat_text(n)
    }
}

fn digit_exec(d: u64) -> (r: char)
    requires
        d < 10,
    ensures
        r == digit_char(d as int),
{
    if d == 0 {
        '0'
    } else if d == 1 {
        '1'
    } else if d == 2 {
        '2'
    } else if d == 3 {
        '3'
    } else if d == 4 {
        '4'
    } else if d == 5 {
        '5'
    } else if d == 6 {
        '6'
    } else if d == 7 {
        '7'
    } else if d == 8 {
        '8'
    } else {
        '9'
    }
}

fn push_nat_text(out: &mut String, m: u64)
    ensures
        final(out)@ == old(out)@ + nat_text(m as int),
    decreases m,
{
    if m >= 10 {
        push_nat_text(out, m / 10);
        crate::strutil::push_char(out, digit_exec(m % 10));
        proof {
            assert(final(out)@ =~= old(out)@ + nat_text(m as int));
        }
    } else {
        crate::strutil::push_char(out, digit_exec(m));
        proof {
            assert(final(out)@ =~= old(out)@ + nat_text(m as int));
        }
    }
}

/// The decimal text of an unsigned integer.
pub fn u64_to_string(n: u64) -> (r: String)
    ensures
        r@ == nat_text(n as int),
{
    let mut out = String::new();
    push_nat_text(&mut out, n);
    proof {
        assert(out@ =~= nat_text(n as int));
    }
    out
}

/// The decimal text of a signed integer.
pub fn i64_to_string(n: i64) -> (r: String)
    ensures
        r@ == int_text(n as int),
{
    let mut out = String::new();
    if n < 0 {
        crate::strutil::push_char(&mut out, '-');
        let mag: u64 = ((-(n + 1)) as u64) + 1;
        proof {
            assert(mag as int == -(n as int));
        }
        push_nat_text(&mut out, mag);
        proof {
            assert(out@ =~= int_text(n as int));
        }
    } else {
        push_nat_text(&mut out, n as u64);
        proof {
            assert(out@ =~= int_text(n as int));
        }
    }
    out
}

} // verus!
