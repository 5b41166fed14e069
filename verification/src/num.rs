//! Decimal digit strings: formatting unsigned and signed integers, the value
//! of a digit string, and the lemmas that make the two inverse.

use vstd::arithmetic::div_mod::lemma_fundamental_div_mod;
use vstd::prelude::*;

verus! {

/// Whether `c` is an ASCII decimal digit.
pub open spec fn is_digit_char(c: char) -> bool {
    48 <= c as u32 <= 57
}

/// The numeric value of a digit character.
pub open spec fn digit_of(c: char) -> int {
    c as u32 - 48
}

/// The digit character for a value below ten.
pub open spec fn digit_char(d: int) -> char {
    ((48 + d) as u8) as char
}

/// The decimal digits of `n`, most significant first, without leading zeros
/// (a single zero digit for zero).
pub open spec fn dec_digits(n: nat) -> Seq<char>
    decreases n,
{
    if n < 10 {
        seq![digit_char(n as int)]
    } else {
        dec_digits(n / 10) + seq![digit_char((n % 10) as int)]
    }
}

/// The decimal form of a signed integer: a minus sign before the digits of
/// the magnitude when it is negative.
pub open spec fn dec_signed(x: int) -> Seq<char> {
    if x < 0 {
        seq!['-'] + dec_digits((-x) as nat)
    } else {
        dec_digits(x as nat)
    }
}

/// Every character of `s` is a decimal digit.
pub open spec fn all_digits(s: Seq<char>) -> bool {
    forall|i: int| 0 <= i < s.len() ==> is_digit_char(#[trigger] s[i])
}

/// The value of a digit string, read most significant first.
pub open spec fn val_of(s: Seq<char>) -> int
    decreases s.len(),
{
    if s.len() == 0 {
        0
    } else {
        val_of(s.drop_last()) * 10 + digit_of(s.last())
    }
}

/// Ten to the `n`th power.
pub open spec fn pow10(n: nat) -> int
    decreases n,
{
    if n == 0 {
        1
    } else {
        10 * pow10((n - 1) as nat)
    }
}

/// What parsing an unsigned decimal field yields: the value of a nonempty
/// all-digit string when it fits in a `u64`, nothing otherwise.
pub open spec fn sp_digits_val(t: Seq<char>) -> Option<u64> {
    if all_digits(t) && t.len() > 0 && val_of(t) <= u64::MAX {
        Some(val_of(t) as u64)
    } else {
        None
    }
}

/// What parsing a signed decimal field yields: an optional minus sign before
/// a nonempty all-digit string, when the value fits in an `i64`.
pub open spec fn sp_signed_val(t: Seq<char>) -> Option<i64> {
    if t.len() > 0 && t[0] == '-' {
        let d = t.skip(1);
        if all_digits(d) && d.len() > 0 && val_of(d) <= 0x8000_0000_0000_0000 {
            Some((-val_of(d)) as i64)
        } else {
            None
        }
    } else {
        if all_digits(t) && t.len() > 0 && val_of(t) <= i64::MAX {
            Some(val_of(t) as i64)
        } else {
            None
        }
    }
}

/// A digit character is a digit and stands for its value.
pub proof fn lemma_digit_char_val(d: int)
    requires
        0 <= d <= 9,
    ensures
        is_digit_char(digit_char(d)),
        digit_of(digit_char(d)) == d,
{
    if d == 0 {
    } else if d == 1 {
    } else if d == 2 {
    } else if d == 3 {
    } else if d == 4 {
    } else if d == 5 {
    } else if d == 6 {
    } else if d == 7 {
    } else if d == 8 {
    } else {
    }
}

/// The first position at or after `i` that does not hold a digit, or the end
/// of the string.
pub open spec fn digit_run_end(s: Seq<char>, i: int) -> int
    decreases s.len() - i,
{
    if 0 <= i < s.len() && is_digit_char(s[i]) {
        digit_run_end(s, i + 1)
    } else {
        i
    }
}

/// The digit run starting at `i` ends exactly at `j` when everything before
/// `j` is a digit and `j` is the end or holds a non-digit.
pub proof fn lemma_digit_run(s: Seq<char>, i: int, j: int)
    requires
        0 <= i <= j <= s.len(),
        forall|k: int| i <= k < j ==> is_digit_char(#[trigger] s[k]),
        j == s.len() || !is_digit_char(s[j]),
    ensures
        digit_run_end(s, i) == j,
    decreases j - i,
{
    if i < j {
        lemma_digit_run(s, i + 1, j);
    }
}

/// The decimal digits of `n` are digits, at least one, and stand for `n`.
pub proof fn lemma_dec_digits(n: nat)
    ensures
        all_digits(dec_digits(n)),
        dec_digits(n).len() >= 1,
        val_of(dec_digits(n)) == n,
    decreases n,
{
    if n < 10 {
        lemma_digit_char_val(n as int);
        let s = dec_digits(n);
        assert(s == seq![digit_char(n as int)]);
        assert(s.len() == 1);
        assert(s.last() == digit_char(n as int));
        assert(s.drop_last() =~= Seq::empty());
        assert(val_of(s.drop_last()) == 0);
        assert(val_of(s) == val_of(s.drop_last()) * 10 + digit_of(s.last()));
        assert(val_of(s) == digit_of(digit_char(n as int)));
    } else {
        lemma_digit_char_val((n % 10) as int);
        lemma_dec_digits(n / 10);
        let s = dec_digits(n);
        assert(s == dec_digits(n / 10) + seq![digit_char((n % 10) as int)]);
        assert(s.drop_last() =~= dec_digits(n / 10));
        assert(s.last() == digit_char((n % 10) as int));
        assert(val_of(s) == (n / 10) * 10 + n % 10);
        assert((n / 10) * 10 + n % 10 == n) by {
            lemma_fundamental_div_mod(n as int, 10);
        }
        assert forall|i: int| 0 <= i < s.len() implies is_digit_char(#[trigger] s[i]) by {
            if i < s.len() - 1 {
                assert(s[i] == dec_digits(n / 10)[i]);
            }
        }
    }
}

/// A digit string is worth at least its prefix: appending digits only grows
/// the value.
pub proof fn lemma_val_prefix(a: Seq<char>, b: Seq<char>)
    requires
        all_digits(a),
        all_digits(b),
    ensures
        val_of(a + b) >= val_of(a),
        val_of(a + b) >= val_of(b),
        val_of(a) >= 0,
        val_of(b) >= 0,
    decreases b.len(),
{
    lemma_val_nonneg(a);
    lemma_val_nonneg(b);
    if b.len() == 0 {
        assert(a + b =~= a);
    } else {
        let b2 = b.drop_last();
        assert(all_digits(b2)) by {
            assert(forall|i: int| 0 <= i < b2.len() ==> b2[i] == b[i]);
        }
        lemma_val_prefix(a, b2);
        lemma_val_nonneg(b2);
        assert((a + b).drop_last() =~= a + b2);
        assert((a + b).last() == b.last());
        assert(val_of(a + b) == val_of(a + b2) * 10 + digit_of(b.last()));
        assert(val_of(a + b2) * 10 >= val_of(a + b2)) by (nonlinear_arith)
            requires
                val_of(a + b2) >= 0,
        ;
        assert(val_of(b) == val_of(b2) * 10 + digit_of(b.last()));
        assert(val_of(b2) * 10 >= val_of(b2)) by (nonlinear_arith)
            requires
                val_of(b2) >= 0,
        ;
        assert(val_of(a + b2) >= val_of(b2));
        assert(val_of(a + b2) * 10 >= val_of(b2) * 10) by (nonlinear_arith)
            requires
                val_of(a + b2) >= val_of(b2),
        ;
    }
}

/// The value of an all-digit string is not negative.
pub proof fn lemma_val_nonneg(s: Seq<char>)
    requires
        all_digits(s),
    ensures
        val_of(s) >= 0,
    decreases s.len(),
{
    if s.len() > 0 {
        let s2 = s.drop_last();
        assert(all_digits(s2)) by {
            assert(forall|i: int| 0 <= i < s2.len() ==> s2[i] == s[i]);
        }
        lemma_val_nonneg(s2);
        assert(val_of(s2) * 10 >= 0) by (nonlinear_arith)
            requires
                val_of(s2) >= 0,
        ;
    }
}

/// Parsing inverts formatting for `u64` values.
pub proof fn lemma_digits_round_trip(n: u64)
    ensures
        sp_digits_val(dec_digits(n as nat)) == Some(n),
{
    lemma_dec_digits(n as nat);
}

/// Parsing inverts formatting for `i64` values.
pub proof fn lemma_signed_round_trip(x: i64)
    ensures
        sp_signed_val(dec_signed(x as int)) == Some(x),
{
    if x < 0 {
        let m = (-(x as int)) as nat;
        lemma_dec_digits(m);
        let t = dec_signed(x as int);
        assert(t == seq!['-'] + dec_digits(m));
        assert(t[0] == '-');
        assert(t.skip(1) =~= dec_digits(m));
    } else {
        lemma_dec_digits(x as nat);
        let t = dec_signed(x as int);
        assert(t.len() > 0 && is_digit_char(t[0]));
        assert(t[0] != '-');
    }
}

/// Formats `n` as decimal digits.
pub fn u64_to_chars(n: u64) -> (r: Vec<char>)
    ensures
        r@ == dec_digits(n as nat),
    decreases n,
{
    if n < 10 {
        let d: u8 = n as u8;
        let c: char = (48 + d) as char;
        let mut r: Vec<char> = Vec::new();
        r.push(c);
        proof {
            assert(r@ =~= seq![digit_char(n as int)]);
        }
        r
    } else {
        let mut r = u64_to_chars(n / 10);
        let d: u8 = (n % 10) as u8;
        r.push((48 + d) as char);
        proof {
            assert(r@ =~= dec_digits((n / 10) as nat) + seq![digit_char((n % 10) as int)]);
        }
        r
    }
}

/// Formats `x` as an optionally signed decimal.
pub fn i64_to_chars(x: i64) -> (r: Vec<char>)
    ensures
        r@ == dec_signed(x as int),
{
    if x >= 0 {
        u64_to_chars(x as u64)
    } else {
        let m: u64 = (-(x as i128)) as u64;
        let mut r: Vec<char> = Vec::new();
        r.push('-');
        let mut digits = u64_to_chars(m);
        r.append(&mut digits);
        proof {
            assert(r@ =~= seq!['-'] + dec_digits(m as nat));
        }
        r
    }
}

/// Reads the characters `v[start..end]` as an unsigned decimal number.
pub fn digits_to_u64(v: &Vec<char>, start: usize, end: usize) -> (r: Option<u64>)
    requires
        start <= end <= v@.len(),
    ensures
        r == sp_digits_val(v@.subrange(start as int, end as int)),
{
    let ghost t = v@.subrange(start as int, end as int);
    if start == end {
        proof {
            assert(t.len() == 0);
        }
        return None;
    }
    let mut acc: u64 = 0;
    let mut i: usize = start;
    while i < end
        invariant
            start <= i <= end <= v@.len(),
            t == v@.subrange(start as int, end as int),
            all_digits(v@.subrange(start as int, i as int)),
            acc == val_of(v@.subrange(start as int, i as int)),
        decreases end - i,
    {
        let c = v[i];
        let code = c as u32;
        let ghost pre = v@.subrange(start as int, i as int);
        let ghost cur = v@.subrange(start as int, i + 1int);
        proof {
            assert(cur.drop_last() =~= pre);
            assert(cur.last() == c);
        }
        if code < 48 || code > 57 {
            proof {
                assert(!is_digit_char(t[i - start as int]));
            }
            return None;
        }
        let d: u64 = (code - 48) as u64;
        if acc > (u64::MAX - d) / 10 {
            proof {
                lemma_fundamental_div_mod((u64::MAX - d) as int, 10);
                assert(acc * 10 + d > u64::MAX) by (nonlinear_arith)
                    requires
                        acc >= ((u64::MAX - d) as int) / 10 + 1,
                        ((u64::MAX - d) as int) / 10 * 10 + ((u64::MAX - d) as int) % 10 == u64::MAX
                            - d,
                        ((u64::MAX - d) as int) % 10 < 10,
                ;
                assert(val_of(cur) > u64::MAX);
                assert(all_digits(cur));
                if all_digits(t) {
                    assert(t =~= cur + v@.subrange(i + 1int, end as int));
                    assert forall|j: int|
                        0 <= j < v@.subrange(i + 1int, end as int).len() implies is_digit_char(
                        #[trigger] v@.subrange(i + 1int, end as int)[j],
                    ) by {
                        assert(v@.subrange(i + 1int, end as int)[j] == t[j + i + 1 - start]);
                    }
                    lemma_val_prefix(cur, v@.subrange(i + 1int, end as int));
                    assert(val_of(t) > u64::MAX);
                }
            }
            return None;
        }
        proof {
            lemma_fundamental_div_mod((u64::MAX - d) as int, 10);
            assert(acc * 10 + d <= u64::MAX) by (nonlinear_arith)
                requires
                    0 <= acc <= ((u64::MAX - d) as int) / 10,
                    ((u64::MAX - d) as int) / 10 * 10 + ((u64::MAX - d) as int) % 10 == u64::MAX
                        - d,
                    ((u64::MAX - d) as int) % 10 >= 0,
                    d >= 0,
            ;
        }
        acc = acc * 10 + d;
        i = i + 1;
    }
    proof {
        assert(v@.subrange(start as int, end as int) =~= t);
    }
    Some(acc)
}

/// Reads the characters `v[start..end]` as an optionally signed decimal
/// number.
pub fn digits_to_i64(v: &Vec<char>, start: usize, end: usize) -> (r: Option<i64>)
    requires
        start <= end <= v@.len(),
    ensures
        r == sp_signed_val(v@.subrange(start as int, end as int)),
{
    let ghost t = v@.subrange(start as int, end as int);
    if start < end && v[start] == '-' {
        let m = digits_to_u64(v, start + 1, end);
        proof {
            assert(t[0] == v@[start as int]);
            assert(v@.subrange(start + 1int, end as int) =~= t.skip(1));
        }
        match m {
            None => None,
            Some(m) => {
                if m <= 0x8000_0000_0000_0000 {
                    let r: i64 = (-(m as i128)) as i64;
                    proof {
                        let sub = v@.subrange(start + 1int, end as int);
                        assert(sp_digits_val(sub) == Some(m));
                        assert(sub == t.skip(1));
                        assert(sp_digits_val(t.skip(1)) == Some(m));
                        assert(all_digits(t.skip(1)) && t.skip(1).len() > 0);
                        lemma_val_nonneg(t.skip(1));
                        assert(m == val_of(t.skip(1)));
                        assert(r as int == -val_of(t.skip(1)));
                        assert(sp_signed_val(t) == Some(r));
                    }
                    Some(r)
                } else {
                    proof {
                        assert(v@.subrange(start + 1int, end as int) == t.skip(1));
                        lemma_val_nonneg(t.skip(1));
                        assert(m == val_of(t.skip(1)));
                    }
                    None
                }
            },
        }
    } else {
        let m = digits_to_u64(v, start, end);
        proof {
            if t.len() > 0 {
                assert(t[0] == v@[start as int]);
            }
        }
        match m {
            None => None,
            Some(m) => {
                if m <= i64::MAX as u64 {
                    proof {
                        lemma_val_nonneg(t);
                    }
                    Some(m as i64)
                } else {
                    proof {
                        lemma_val_nonneg(t);
                        assert(m == val_of(t));
                    }
                    None
                }
            },
        }
    }
}

} // verus!
