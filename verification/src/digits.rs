//! Numeric text fields: reading an unsigned integer out of a sequence of
//! digit characters, in a given radix, with an explicit bound.

use vstd::prelude::*;

verus! {

/// The numeric value of one digit character; digits beyond 9 are the
/// letters `a`..`f` in either case. Anything else gets a sentinel value
/// too large for every supported radix.
pub open spec fn digit_val(c: char) -> int {
    if '0' <= c && c <= '9' {
        c as int - '0' as int
    } else if 'a' <= c && c <= 'f' {
        c as int - 'a' as int + 10
    } else if 'A' <= c && c <= 'F' {
        c as int - 'A' as int + 10
    } else {
        99
    }
}

/// Whether `c` is a digit of the given radix.
pub open spec fn is_digit(c: char, radix: int) -> bool {
    digit_val(c) < radix
}

/// The value of a digit string read most-significant first.
pub open spec fn digits_value(s: Seq<char>, radix: int) -> int
    decreases s.len(),
{
    if s.len() == 0 {
        0
    } else {
        digits_value(s.drop_last(), radix) * radix + digit_val(s.last())
    }
}

/// A well-formed number field: non-empty, digits only, value within
/// `max`.
pub open spec fn is_number(s: Seq<char>, radix: int, max: int) -> bool {
    &&& s.len() >= 1
    &&& forall|i: int| 0 <= i < s.len() ==> is_digit(#[trigger] s[i], radix)
    &&& digits_value(s, radix) <= max
}

/// Digit values never go negative, so neither does a digit string.
pub proof fn lemma_digits_value_nonneg(s: Seq<char>, radix: int)
    requires
        radix >= 1,
    ensures
        digits_value(s, radix) >= 0,
    decreases s.len(),
{
    if s.len() != 0 {
        lemma_digits_value_nonneg(s.drop_last(), radix);
    }
}

/// Extending a digit string can only grow its value: every prefix is
/// bounded by the whole.
pub proof fn lemma_digits_prefix_le(s: Seq<char>, radix: int, j: int)
    requires
        radix >= 1,
        0 <= j <= s.len(),
    ensures
        digits_value(s.take(j), radix) <= digits_value(s, radix),
    decreases s.len() - j,
{
    if j < s.len() {
        let t = s.take(j + 1);
        assert(t.drop_last() =~= s.take(j));
        assert(t.last() == s[j]);
        lemma_digits_value_nonneg(s.take(j), radix);
        assert(digits_value(s.take(j + 1), radix) == digits_value(s.take(j), radix) * radix
            + digit_val(s[j]));
        assert(digits_value(s.take(j), radix) * radix >= digits_value(s.take(j), radix))
            by (nonlinear_arith)
            requires
                radix >= 1,
                digits_value(s.take(j), radix) >= 0,
        ;
        lemma_digits_prefix_le(s, radix, j + 1);
    } else {
        assert(s.take(j) =~= s);
    }
}

/// The digit value of `c`, or the sentinel when `c` is no digit.
fn digit_of(c: char) -> (d: u64)
    ensures
        d == digit_val(c),
{
    if '0' <= c && c <= '9' {
        (c as u64) - ('0' as u64)
    } else if 'a' <= c && c <= 'f' {
        (c as u64) - ('a' as u64) + 10
    } else if 'A' <= c && c <= 'F' {
        (c as u64) - ('A' as u64) + 10
    } else {
        99
    }
}

/// Reads the characters as an unsigned number of the given radix:
/// `Some` exactly when the field is non-empty, all digits, and its
/// value stays within `max`.
pub fn parse_number(s: &Vec<char>, radix: u64, max: u64) -> (r: Option<u64>)
    requires
        2 <= radix <= 16,
        max >= 15,
    ensures
        match r {
            Some(v) => is_number(s@, radix as int, max as int) && v == digits_value(
                s@,
                radix as int,
            ),
            None => !is_number(s@, radix as int, max as int),
        },
{
    if s.len() == 0 {
        return None;
    }
    let mut acc: u64 = 0;
    let mut i: usize = 0;
    while i < s.len()
        invariant
            2 <= radix <= 16,
            max >= 15,
            i <= s@.len(),
            forall|j: int| 0 <= j < i ==> is_digit(#[trigger] s@[j], radix as int),
            acc == digits_value(s@.take(i as int), radix as int),
            acc <= max,
        decreases s@.len() - i,
    {
        let c = s[i];
        let d = digit_of(c);
        if d >= radix {
            return None;
        }
        proof {
            assert(s@.take(i + 1).drop_last() =~= s@.take(i as int));
            assert(s@.take(i + 1).last() == s@[i as int]);
        }
        if acc > (max - d) / radix {
            proof {
                assert(digits_value(s@.take(i + 1), radix as int) == acc * radix + d);
                assert(acc * radix + d > max) by (nonlinear_arith)
                    requires
                        acc > (max - d) as int / radix as int,
                        radix >= 2,
                        d < radix,
                        max >= d,
                ;
                lemma_digits_prefix_le(s@, radix as int, i + 1);
            }
            return None;
        }
        proof {
            assert(acc * radix + d <= max) by (nonlinear_arith)
                requires
                    acc <= (max - d) as int / radix as int,
                    radix >= 2,
                    d < radix,
                    max >= d,
            ;
        }
        acc = acc * radix + d;
        i += 1;
    }
    proof {
        assert(s@.take(s@.len() as int) =~= s@);
    }
    Some(acc)
}

} // verus!
