//! The size-specification parser: a human size string such as `"789"`,
//! `"789B"`, `"12KB"` or `"4G"` becomes a byte count. The magnitude is a
//! non-negative base-10 integer; the optional unit suffix is one of `B`
//! (bytes), `K`/`KB` (kibibytes), `M`/`MB` (mebibytes) or `G`/`GB`
//! (gibibytes), in any letter case. Anything else — a sign, an empty
//! magnitude, stray letters, or a value past `u64::MAX` — is unparseable.

use vstd::arithmetic::div_mod::lemma_fundamental_div_mod;
use vstd::arithmetic::div_mod::lemma_mod_division_less_than_divisor;
use vstd::arithmetic::mul::lemma_mul_inequality;
use vstd::prelude::*;
use vstd::string::StrSliceExecFns;

verus! {

/// A decimal digit character.
pub open spec fn is_size_digit(c: char) -> bool {
    '0' <= c && c <= '9'
}

/// The numeric value of a decimal digit character.
pub open spec fn digit_value(c: char) -> int
    recommends
        is_size_digit(c),
{
    c as int - '0' as int
}

/// Every character of `s` is a decimal digit.
pub open spec fn all_digits(s: Seq<char>) -> bool {
    forall|k: int| 0 <= k < s.len() ==> is_size_digit(#[trigger] s[k])
}

/// The value of a digit string read as a base-10 number.
pub open spec fn digits_value(s: Seq<char>) -> int
    recommends
        all_digits(s),
    decreases s.len(),
{
    if s.len() == 0 {
        0
    } else {
        digits_value(s.drop_last()) * 10 + digit_value(s.last())
    }
}

/// The length of the maximal digit prefix of `s`: the magnitude part of a
/// size specification.
pub open spec fn digit_prefix_len(s: Seq<char>) -> int
    decreases s.len(),
{
    if s.len() == 0 {
        0
    } else if !is_size_digit(s[0]) {
        0
    } else {
        1 + digit_prefix_len(s.drop_first())
    }
}

/// The multiplier letter `K`, `M` or `G`, in either case, as its factor.
pub open spec fn multiplier_factor(c: char) -> Option<int> {
    if c == 'k' || c == 'K' {
        Some(1024)
    } else if c == 'm' || c == 'M' {
        Some(1048576)
    } else if c == 'g' || c == 'G' {
        Some(1073741824)
    } else {
        None
    }
}

/// The unit letter `B`, in either case.
pub open spec fn is_unit_b(c: char) -> bool {
    c == 'b' || c == 'B'
}

/// The factor of a unit suffix: nothing or a lone `B` count bytes; `K`, `M`
/// and `G`, with or without a trailing `B`, scale by their power of 1024.
/// Any other suffix makes the whole specification unparseable.
pub open spec fn unit_factor(u: Seq<char>) -> Option<int> {
    if u.len() == 0 {
        Some(1)
    } else if u.len() == 1 {
        if is_unit_b(u[0]) {
            Some(1)
        } else {
            multiplier_factor(u[0])
        }
    } else if u.len() == 2 && is_unit_b(u[1]) {
        multiplier_factor(u[0])
    } else {
        None
    }
}

/// What a size string denotes: the value of its digit prefix times the
/// factor of the rest, or nothing when the digit prefix is empty or the rest
/// is no recognised unit. The denoted value is unbounded; whether it fits a
/// machine word is the caller's concern.
pub open spec fn parse_size_spec(s: Seq<char>) -> Option<int> {
    let n = digit_prefix_len(s);
    if n == 0 {
        None
    } else {
        match unit_factor(s.skip(n)) {
            Some(f) => Some(digits_value(s.take(n)) * f),
            None => None,
        }
    }
}

/// A digit string never denotes a negative value.
proof fn lemma_digits_value_nonneg(s: Seq<char>)
    requires
        all_digits(s),
    ensures
        digits_value(s) >= 0,
    decreases s.len(),
{
    if s.len() > 0 {
        lemma_digits_value_nonneg(s.drop_last());
    }
}

/// Reading more digits never shrinks the value: the value of a digit prefix
/// is at most the value of any longer digit prefix of the same string.
proof fn lemma_digits_value_take_monotone(s: Seq<char>, k1: int, k2: int)
    requires
        0 <= k1 <= k2 <= s.len(),
        forall|j: int| 0 <= j < k2 ==> is_size_digit(#[trigger] s[j]),
    ensures
        digits_value(s.take(k1)) <= digits_value(s.take(k2)),
    decreases k2 - k1,
{
    if k1 < k2 {
        lemma_digits_value_take_monotone(s, k1, k2 - 1);
        assert(s.take(k2).drop_last() =~= s.take(k2 - 1));
        lemma_digits_value_nonneg(s.take(k2 - 1));
    }
}

/// The maximal digit prefix ends exactly where the first non-digit stands.
proof fn lemma_digit_prefix_len_is(s: Seq<char>, i: int)
    requires
        0 <= i <= s.len(),
        forall|k: int| 0 <= k < i ==> is_size_digit(#[trigger] s[k]),
        i < s.len() ==> !is_size_digit(s[i]),
    ensures
        digit_prefix_len(s) == i,
    decreases s.len(),
{
    if s.len() > 0 && i > 0 {
        lemma_digit_prefix_len_is(s.drop_first(), i - 1);
    }
}

/// Parse a size specification. Returns the denoted byte count, or `None`
/// when the string is unparseable or the count does not fit in a `u64`.
pub fn parse_size(s: &str) -> (r: Option<u64>)
    ensures
        ({
            match parse_size_spec(s@) {
                Some(v) => r == (if v <= u64::MAX as int {
                    Some(v as u64)
                } else {
                    None::<u64>
                }),
                None => r is None,
            }
        }),
{
    let n_chars: usize = s.unicode_len();

    // Find the digit prefix: the magnitude part of the specification.
    let mut i: usize = 0;
    loop
        invariant_except_break
            i <= n_chars,
            n_chars == s@.len(),
            forall|k: int| 0 <= k < i ==> is_size_digit(#[trigger] s@[k]),
        ensures
            i <= n_chars,
            n_chars == s@.len(),
            forall|k: int| 0 <= k < i ==> is_size_digit(#[trigger] s@[k]),
            i < n_chars ==> !is_size_digit(s@[i as int]),
        decreases n_chars - i,
    {
        if i >= n_chars {
            break;
        }
        let c = s.get_char(i);
        if !(c >= '0' && c <= '9') {
            break;
        }
        i += 1;
    }
    proof {
        lemma_digit_prefix_len_is(s@, i as int);
    }
    if i == 0 {
        return None;
    }

    // Read the unit suffix, if any, as its factor.
    let unit_len: usize = n_chars - i;
    let factor: u64 = if unit_len == 0 {
        1
    } else if unit_len == 1 {
        let c = s.get_char(i);
        if c == 'b' || c == 'B' {
            1
        } else if c == 'k' || c == 'K' {
            1024
        } else if c == 'm' || c == 'M' {
            1048576
        } else if c == 'g' || c == 'G' {
            1073741824
        } else {
            return None;
        }
    } else if unit_len == 2 {
        let c0 = s.get_char(i);
        let c1 = s.get_char(i + 1);
        if !(c1 == 'b' || c1 == 'B') {
            return None;
        }
        if c0 == 'k' || c0 == 'K' {
            1024
        } else if c0 == 'm' || c0 == 'M' {
            1048576
        } else if c0 == 'g' || c0 == 'G' {
            1073741824
        } else {
            return None;
        }
    } else {
        return None;
    };
    proof {
        assert(unit_factor(s@.skip(i as int)) == Some(factor as int));
    }

    // Accumulate the magnitude, rejecting any value past `u64::MAX`.
    let mut acc: u64 = 0;
    let mut k: usize = 0;
    while k < i
        invariant
            k <= i <= n_chars,
            n_chars == s@.len(),
            1 <= factor,
            unit_factor(s@.skip(i as int)) == Some(factor as int),
            digit_prefix_len(s@) == i as int,
            forall|j: int| 0 <= j < i ==> is_size_digit(#[trigger] s@[j]),
            acc as int == digits_value(s@.take(k as int)),
        decreases i - k,
    {
        let c = s.get_char(k);
        let dv: u64 = ((c as u32) - 48) as u64;
        proof {
            assert(s@.take(k as int + 1).drop_last() =~= s@.take(k as int));
            assert(dv as int == digit_value(s@[k as int]));
        }
        if acc > (u64::MAX - dv) / 10 {
            proof {
                lemma_fundamental_div_mod(u64::MAX as int - dv as int, 10);
                lemma_mod_division_less_than_divisor(u64::MAX as int - dv as int, 10);
                assert(digits_value(s@.take(k as int + 1)) == acc as int * 10 + dv as int);
                assert(acc as int * 10 + dv as int > u64::MAX as int);
                lemma_digits_value_take_monotone(s@, k as int + 1, i as int);
                lemma_digits_value_nonneg(s@.take(i as int));
                lemma_mul_inequality(1, factor as int, digits_value(s@.take(i as int)));
                assert(digits_value(s@.take(i as int)) * factor as int > u64::MAX as int);
            }
            return None;
        }
        proof {
            lemma_fundamental_div_mod(u64::MAX as int - dv as int, 10);
        }
        acc = acc * 10 + dv;
        k += 1;
    }

    // Apply the factor, rejecting multiplication overflow.
    if acc > u64::MAX / factor {
        proof {
            lemma_fundamental_div_mod(u64::MAX as int, factor as int);
            lemma_mod_division_less_than_divisor(u64::MAX as int, factor as int);
            lemma_mul_inequality(u64::MAX as int / factor as int + 1, acc as int, factor as int);
        }
        return None;
    }
    proof {
        lemma_fundamental_div_mod(u64::MAX as int, factor as int);
        lemma_mod_division_less_than_divisor(u64::MAX as int, factor as int);
        lemma_mul_inequality(acc as int, u64::MAX as int / factor as int, factor as int);
    }
    Some(acc * factor)
}

} // verus!
