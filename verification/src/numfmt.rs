//! Decimal rendering and parsing of the 64-bit timestamps the store keeps.
//!
//! `int_str` is the canonical decimal form (no leading zeros, `-` for
//! negative values); `parse_int_chars` accepts an optional sign followed by
//! one or more digits, as the standard library's integer parser does, and
//! rejects values outside the `i64` range.  Rendering and parsing are
//! proved inverse to each other in `lemma_int_str_roundtrip`.

use vstd::arithmetic::div_mod::lemma_fundamental_div_mod;
use vstd::prelude::*;

verus! {

pub open spec fn digit_char(d: int) -> char {
    if d == 0 {
        '0'
    } else if d == 1 {
        '1'
    } else if d == 2 {
        '2'
    } else if d == 3 {
        '3'
    } else if d == 4 {
        '4'
    } else if d == 5 {
        '5'
    } else if d == 6 {
        '6'
    } else if d == 7 {
        '7'
    } else if d == 8 {
        '8'
    } else {
        '9'
    }
}

pub open spec fn is_digit_char(c: char) -> bool {
    48 <= c as u32 <= 57
}

pub open spec fn digit_val(c: char) -> int {
    c as u32 - 48
}

/// Decimal digits of `n`, most significant first.
pub open spec fn dec_rep(n: nat) -> Seq<char>
    decreases n,
{
    if n < 10 {
        seq![digit_char(n as int)]
    } else {
        dec_rep(n / 10).push(digit_char((n % 10) as int))
    }
}

/// Canonical decimal form of an integer.
pub open spec fn int_str(n: int) -> Seq<char> {
    if n < 0 {
        seq!['-'] + dec_rep((-n) as nat)
    } else {
        dec_rep(n as nat)
    }
}

pub open spec fn all_digits(s: Seq<char>) -> bool {
    forall|i: int| 0 <= i < s.len() ==> is_digit_char(#[trigger] s[i])
}

/// Value of a digit string, most significant first.
pub open spec fn digits_val(s: Seq<char>) -> int
    decreases s.len(),
{
    if s.len() == 0 {
        0
    } else {
        digits_val(s.drop_last()) * 10 + digit_val(s.last())
    }
}

/// The integer a character sequence denotes: an optional sign, then one or
/// more digits.  `None` when the shape is wrong.
pub open spec fn parse_int_spec(s: Seq<char>) -> Option<int> {
    if s.len() == 0 {
        None
    } else {
        let negative = s[0] == '-';
        let body = if s[0] == '-' || s[0] == '+' {
            s.skip(1)
        } else {
            s
        };
        if body.len() == 0 || !all_digits(body) {
            None
        } else if negative {
            Some(-digits_val(body))
        } else {
            Some(digits_val(body))
        }
    }
}

/// As `parse_int_spec`, further rejecting values outside the `i64` range.
pub open spec fn parse_i64_spec(s: Seq<char>) -> Option<i64> {
    match parse_int_spec(s) {
        Some(v) => if i64::MIN <= v <= i64::MAX {
            Some(v as i64)
        } else {
            None
        },
        None => None,
    }
}

pub proof fn lemma_dec_rep_digits(n: nat)
    ensures
        dec_rep(n).len() >= 1,
        all_digits(dec_rep(n)),
    decreases n,
{
    if n >= 10 {
        lemma_dec_rep_digits(n / 10);
    }
}

pub proof fn lemma_digits_val_dec_rep(n: nat)
    ensures
        digits_val(dec_rep(n)) == n,
    decreases n,
{
    if n < 10 {
        let s = dec_rep(n);
        assert(s =~= seq![digit_char(n as int)]);
        assert(s.last() == digit_char(n as int));
        assert(s.drop_last() =~= Seq::<char>::empty());
        assert(digits_val(s.drop_last()) == 0);
        assert(digit_val(digit_char(n as int)) == n);
        assert(digits_val(s) == digits_val(s.drop_last()) * 10 + digit_val(s.last()));
    } else {
        lemma_digits_val_dec_rep(n / 10);
        assert(dec_rep(n).drop_last() =~= dec_rep(n / 10));
        lemma_fundamental_div_mod(n as int, 10);
    }
}

/// A step of left-to-right accumulation.
pub proof fn lemma_digits_val_take_step(s: Seq<char>, i: int)
    requires
        0 <= i < s.len(),
    ensures
        digits_val(s.take(i + 1)) == digits_val(s.take(i)) * 10 + digit_val(s[i]),
{
    assert(s.take(i + 1).drop_last() =~= s.take(i));
    assert(s.take(i + 1).last() == s[i]);
}

pub proof fn lemma_digits_val_bounds(s: Seq<char>)
    requires
        all_digits(s),
    ensures
        0 <= digits_val(s),
        digits_val(s) < vstd::arithmetic::power::pow(10, s.len() as nat),
    decreases s.len(),
{
    vstd::arithmetic::power::lemma_pow_positive(10, s.len() as nat);
    if s.len() > 0 {
        lemma_digits_val_bounds(s.drop_last());
        assert(is_digit_char(s[s.len() - 1]));
        assert(vstd::arithmetic::power::pow(10, s.len() as nat) == 10 * vstd::arithmetic::power::pow(
            10,
            (s.len() - 1) as nat,
        )) by {
            reveal_with_fuel(vstd::arithmetic::power::pow, 2);
        }
    }
}

/// Appending digits never shrinks the value.
pub proof fn lemma_digits_val_take_monotone(s: Seq<char>, i: int, j: int)
    requires
        all_digits(s),
        0 <= i <= j <= s.len(),
    ensures
        digits_val(s.take(i)) <= digits_val(s.take(j)),
    decreases j - i,
{
    if i < j {
        lemma_digits_val_take_monotone(s, i, j - 1);
        lemma_digits_val_take_step(s, j - 1);
        assert(all_digits(s.take(j - 1))) by {
            assert(forall|k: int|
                0 <= k < j - 1 ==> #[trigger] s.take(j - 1)[k] == s[k]);
        }
        lemma_digits_val_bounds(s.take(j - 1));
    }
}

/// Rendering then parsing gives the value back.
pub proof fn lemma_int_str_roundtrip(n: i64)
    ensures
        parse_i64_spec(int_str(n as int)) == Some(n),
{
    let s = int_str(n as int);
    if n < 0 {
        let m = (-(n as int)) as nat;
        lemma_dec_rep_digits(m);
        lemma_digits_val_dec_rep(m);
        assert(s.skip(1) =~= dec_rep(m));
        assert(s[0] == '-');
    } else {
        let m = n as nat;
        lemma_dec_rep_digits(m);
        lemma_digits_val_dec_rep(m);
        assert(is_digit_char(s[0]));
        assert(s[0] != '-' && s[0] != '+');
    }
}

fn char_of_digit(d: u64) -> (r: char)
    requires
        d < 10,
    ensures
        r == digit_char(d as int),
{
    match d {
        0 => '0',
        1 => '1',
        2 => '2',
        3 => '3',
        4 => '4',
        5 => '5',
        6 => '6',
        7 => '7',
        8 => '8',
        _ => '9',
    }
}

/// Decimal rendering of a 64-bit integer.
pub fn format_i64(n: i64) -> (r: Vec<char>)
    ensures
        r@ == int_str(n as int),
{
    let negative = n < 0;
    let mag: u64 = if n < 0 {
        (-(n as i128)) as u64
    } else {
        n as u64
    };
    let ghost mag0 = mag as nat;
    let mut low_first: Vec<char> = Vec::new();
    let mut m: u64 = mag;
    if m == 0 {
        low_first.push('0');
    }
    while m > 0
        invariant
            if m > 0 {
                dec_rep(mag0) == dec_rep(m as nat) + low_first@.reverse()
            } else {
                dec_rep(mag0) == low_first@.reverse()
            },
        decreases m,
    {
        let ghost pre = low_first@;
        let d = m % 10;
        low_first.push(char_of_digit(d));
        proof {
            assert(low_first@.reverse() =~= seq![digit_char(d as int)] + pre.reverse());
            if m >= 10 {
                assert(dec_rep(m as nat) =~= dec_rep((m / 10) as nat).push(
                    digit_char((m % 10) as int),
                ));
                assert(dec_rep((m / 10) as nat) + low_first@.reverse() =~= dec_rep(m as nat)
                    + pre.reverse());
            } else {
                assert(dec_rep(m as nat) =~= seq![digit_char(d as int)]);
                assert(dec_rep(mag0) =~= low_first@.reverse());
            }
        }
        m = m / 10;
    }
    let mut r: Vec<char> = Vec::new();
    if negative {
        r.push('-');
    }
    let ghost sign_part = r@;
    let mut j: usize = low_first.len();
    while j > 0
        invariant
            j <= low_first.len(),
            r@ == sign_part + low_first@.skip(j as int).reverse(),
        decreases j,
    {
        j = j - 1;
        let ghost pre = r@;
        r.push(low_first[j]);
        proof {
            assert(low_first@.skip(j as int).reverse() =~= low_first@.skip(j as int + 1).reverse()
                + seq![low_first@[j as int]]);
            assert(r@ =~= sign_part + low_first@.skip(j as int).reverse());
        }
    }
    proof {
        assert(low_first@.skip(0) =~= low_first@);
        if negative {
            assert(-(n as int) == mag0);
            assert(r@ =~= seq!['-'] + dec_rep(mag0));
        } else {
            assert(r@ =~= dec_rep(mag0));
        }
    }
    r
}

/// Parses an optional sign followed by digits; `None` on any other shape or
/// on values outside the `i64` range.
pub fn parse_i64_chars(s: &Vec<char>) -> (r: Option<i64>)
    ensures
        r == parse_i64_spec(s@),
{
    if s.len() == 0 {
        return None;
    }
    let first = s[0];
    let negative = first == '-';
    let start: usize = if first == '-' || first == '+' {
        1
    } else {
        0
    };
    let ghost body = s@.skip(start as int);
    proof {
        assert(s@.skip(0) =~= s@);
    }
    if s.len() == start {
        return None;
    }
    let mut acc: i128 = 0;
    let mut i: usize = start;
    while i < s.len()
        invariant
            start <= i <= s@.len(),
            start == 0 || start == 1,
            start == 1 <==> (s@[0] == '-' || s@[0] == '+'),
            negative == (s@[0] == '-'),
            s@.len() > start,
            body == s@.skip(start as int),
            start == 0 ==> body == s@,
            acc == digits_val(body.take(i - start)),
            0 <= acc <= i64::MAX as i128 * 10 + 9,
            all_digits(body.take(i - start)),
        decreases s@.len() - i,
    {
        let c = s[i];
        let code = c as u32;
        if code < 48 || code > 57 {
            proof {
                assert(body[i - start] == s@[i as int]);
                assert(!is_digit_char(s@[i as int]));
                assert(!all_digits(body));
                assert(parse_int_spec(s@) is None);
            }
            return None;
        }
        if acc > i64::MAX as i128 {
            // Already past the representable range; the remaining digits
            // can only multiply the value further up.
            proof {
                assert(body[i - start] == s@[i as int]);
                if all_digits(body) {
                    lemma_digits_val_take_step(body, i - start);
                    lemma_digits_val_take_monotone(body, i - start + 1, body.len() as int);
                    assert(body.take(body.len() as int) =~= body);
                    assert(digits_val(body.take(i - start + 1)) == acc * 10 + digit_val(
                        body[i - start],
                    ));
                    assert(digits_val(body) >= acc * 10);
                    assert(digits_val(body) > -(i64::MIN as int));
                }
            }
            return None;
        }
        let d = code - 48;
        proof {
            lemma_digits_val_take_step(body, i - start);
            assert(body[i - start] == s@[i as int]);
        }
        acc = acc * 10 + (d as i128);
        proof {
            assert(body.take(i - start + 1) =~= body.take(i - start).push(s@[i as int]));
        }
        i = i + 1;
    }
    proof {
        assert(body.take(body.len() as int) =~= body);
    }
    if negative {
        let v = -acc;
        if v < i64::MIN as i128 {
            return None;
        }
        Some(v as i64)
    } else {
        if acc > i64::MAX as i128 {
            return None;
        }
        Some(acc as i64)
    }
}

} // verus!

