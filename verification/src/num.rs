//! Decimal representation of the integers that appear in event logs and in
//! run records: parsing timestamp fields, and printing counters when a record
//! is written out.

use vstd::prelude::*;
use crate::text::push_char;

verus! {

/// `c` is a decimal digit.
pub open spec fn is_digit(c: char) -> bool {
    '0' <= c && c <= '9'
}

/// A non-empty run of decimal digits.
pub open spec fn is_digit_seq(s: Seq<char>) -> bool {
    s.len() > 0 && forall|i: int| 0 <= i < s.len() ==> is_digit(#[trigger] s[i])
}

/// The numeric value of a digit character.
pub open spec fn digit_val(c: char) -> int {
    c as int - '0' as int
}

/// The digit character for a value below ten.
pub open spec fn digit_char(d: int) -> char {
    if d == 0 {
        '0'
    } else if d == 1 {
        '1'
    } else if d == 2 {
        '2'
    } else if d == 3 {
        '3'
    } else if d == 4 {
        '4'
    } else if d == 5 {
        '5'
    } else if d == 6 {
        '6'
    } else if d == 7 {
        '7'
    } else if d == 8 {
        '8'
    } else {
        '9'
    }
}

/// The value of a digit string, most significant digit first.
pub open spec fn dec_value(s: Seq<char>) -> int
    decreases s.len(),
{
    if s.len() == 0 {
        0
    } else {
        dec_value(s.drop_last()) * 10 + digit_val(s.last())
    }
}

/// The canonical decimal digits of a non-negative number: no leading zero
/// except for zero itself.
pub open spec fn dec_digits(n: int) -> Seq<char>
    decreases n,
{
    if n < 10 {
        seq![digit_char(n)]
    } else {
        dec_digits(n / 10).push(digit_char(n % 10))
    }
}

pub proof fn lemma_dec_digits_are_digits(n: int)
    requires
        n >= 0,
    ensures
        is_digit_seq(dec_digits(n)),
    decreases n,
{
    if n >= 10 {
        lemma_dec_digits_are_digits(n / 10);
    }
}

/// Printing a number and reading the digits back yields the number.
pub proof fn lemma_dec_round_trip(n: int)
    requires
        n >= 0,
    ensures
        dec_value(dec_digits(n)) == n,
    decreases n,
{
    if n < 10 {
        let s0 = dec_digits(n);
        assert(s0.drop_last() =~= Seq::<char>::empty());
        assert(digit_val(digit_char(n)) == n);
        assert(dec_value(s0) == dec_value(s0.drop_last()) * 10 + digit_val(s0.last()));
    } else {
        lemma_dec_round_trip(n / 10);
        assert(dec_digits(n).drop_last() =~= dec_digits(n / 10));
        assert(dec_value(dec_digits(n)) == (n / 10) * 10 + n % 10);
        assert((n / 10) * 10 + n % 10 == n) by {
            vstd::arithmetic::div_mod::lemma_fundamental_div_mod(n, 10);
        }
    }
}

/// The digit character for a value below ten.
pub(crate) fn digit_char_of(d: u64) -> (c: char)
    requires
        d < 10,
    ensures
        c == digit_char(d as int),
{
    if d == 0 {
        '0'
    } else if d == 1 {
        '1'
    } else if d == 2 {
        '2'
    } else if d == 3 {
        '3'
    } else if d == 4 {
        '4'
    } else if d == 5 {
        '5'
    } else if d == 6 {
        '6'
    } else if d == 7 {
        '7'
    } else if d == 8 {
        '8'
    } else {
        '9'
    }
}

/// The numeric value of a digit character.
pub(crate) fn digit_val_of(c: char) -> (d: u64)
    requires
        is_digit(c),
    ensures
        d == digit_val(c),
        d < 10,
{
    (c as u32 - '0' as u32) as u64
}

/// Appends the canonical decimal form of `n` to `out`.
pub(crate) fn append_u64(out: &mut String, n: u64)
    ensures
        final(out)@ == old(out)@ + dec_digits(n as int),
{
    let mut digits: Vec<char> = Vec::new();
    let mut m: u64 = n;
    while m >= 10
        invariant
            dec_digits(n as int) == dec_digits(m as int) + digits@.reverse(),
        decreases m,
    {
        let d = digit_char_of(m % 10);
        proof {
            assert(dec_digits(m as int) == dec_digits(m as int / 10).push(digit_char(m as int % 10)));
            assert(digits@.push(d).reverse() =~= seq![d] + digits@.reverse());
            assert(dec_digits(m as int / 10) + (seq![d] + digits@.reverse()) =~= (dec_digits(
                m as int / 10,
            ).push(d)) + digits@.reverse());
        }
        digits.push(d);
        m = m / 10;
    }
    let d = digit_char_of(m);
    proof {
        assert(digits@.push(d).reverse() =~= seq![d] + digits@.reverse());
        assert(seq![digit_char(m as int)] + digits@.reverse() =~= seq![digit_char(m as int)]
            + digits@.reverse());
        assert(dec_digits(m as int) =~= seq![digit_char(m as int)]);
    }
    digits.push(d);
    proof {
        assert(dec_digits(n as int) =~= digits@.reverse());
    }
    let k = digits.len();
    let mut j: usize = 0;
    while j < k
        invariant
            0 <= j <= k,
            k == digits.len(),
            dec_digits(n as int) == digits@.reverse(),
            out@ == old(out)@ + digits@.reverse().take(j as int),
        decreases k - j,
    {
        let c = digits[k - 1 - j];
        push_char(out, c);
        proof {
            assert(digits@.reverse()[j as int] == digits@[k - 1 - j]);
            assert(old(out)@ + digits@.reverse().take(j + 1) =~= (old(out)@ + digits@.reverse().take(
                j as int,
            )).push(digits@[k - 1 - j as int]));
        }
        j += 1;
    }
    proof {
        assert(digits@.reverse().take(k as int) =~= digits@.reverse());
    }
}

/// A string of digits has a non-negative value.
pub proof fn lemma_dec_value_nonneg(s: Seq<char>)
    ensures
        (forall|i: int| 0 <= i < s.len() ==> is_digit(#[trigger] s[i])) ==> dec_value(s) >= 0,
    decreases s.len(),
{
    if s.len() > 0 {
        lemma_dec_value_nonneg(s.drop_last());
    }
}

/// Reads `s` as a decimal `u64`. Succeeds exactly on a non-empty all-digit
/// string whose value fits in a `u64`.
pub fn parse_u64_str(s: &str) -> (r: Option<u64>)
    ensures
        (r is Some) <==> (is_digit_seq(s@) && dec_value(s@) <= u64::MAX as int),
        r is Some ==> r->0 == dec_value(s@),
{
    proof {
        lemma_dec_value_nonneg(s@);
    }
    let n = s.unicode_len();
    if n == 0 {
        return None;
    }
    let mut acc: u64 = 0;
    let mut over: bool = false;
    let mut i: usize = 0;
    proof {
        assert(s@.take(0) =~= Seq::<char>::empty());
    }
    while i < n
        invariant
            0 <= i <= n,
            n == s@.len(),
            forall|k: int| 0 <= k < i ==> is_digit(#[trigger] s@[k]),
            !over ==> acc == dec_value(s@.take(i as int)),
            over ==> dec_value(s@.take(i as int)) > u64::MAX as int,
        decreases n - i,
    {
        let c = s.get_char(i);
        let digit_ok = '0' <= c && c <= '9';
        if !digit_ok {
            assert(!is_digit_seq(s@)) by {
                assert(!is_digit(s@[i as int]));
            }
            return None;
        }
        let d = digit_val_of(c);
        proof {
            assert(s@.take(i + 1).drop_last() =~= s@.take(i as int));
            assert(s@.take(i + 1).last() == s@[i as int]);
        }
        if !over {
            if acc <= (u64::MAX - d) / 10 {
                acc = acc * 10 + d;
            } else {
                proof {
                    assert(dec_value(s@.take(i + 1)) > u64::MAX as int);
                }
                over = true;
            }
        } else {
            proof {
                assert(dec_value(s@.take(i + 1)) >= dec_value(s@.take(i as int)));
            }
        }
        i += 1;
    }
    proof {
        assert(s@.take(n as int) =~= s@);
    }
    if over {
        None
    } else {
        Some(acc)
    }
}

} // verus!
