//! Decimal text for the integers that the store format carries: spec-level
//! digit sequences, executable printing into a `String`, and executable
//! parsing with exact success conditions.

use vstd::prelude::*;
use vstd::string::StrSliceExecFns;

verus! {

/// `c` is a decimal digit character.
pub open spec fn is_digit(c: char) -> bool {
    48 <= c as u32 && c as u32 <= 57
}

/// The numeric value of a digit character.
pub open spec fn digit_val(c: char) -> nat {
    (c as u32 - 48) as nat
}

/// The digit character for a value below ten.
pub open spec fn digit_char(d: nat) -> char {
    if d == 0 {
        '0'
    } else if d == 1 {
        '1'
    } else if d == 2 {
        '2'
    } else if d == 3 {
        '3'
    } else if d == 4 {
        '4'
    } else if d == 5 {
        '5'
    } else if d == 6 {
        '6'
    } else if d == 7 {
        '7'
    } else if d == 8 {
        '8'
    } else {
        '9'
    }
}

/// The decimal digits of `n`, most significant first, with no sign and no
/// leading zero (a single `'0'` for zero).
pub open spec fn dec_digits(n: nat) -> Seq<char>
    decreases n,
{
    if n < 10 {
        seq![digit_char(n)]
    } else {
        dec_digits(n / 10).push(digit_char(n % 10))
    }
}

/// Every character of `s` is a decimal digit.
pub open spec fn all_digits(s: Seq<char>) -> bool {
    forall|i: int| 0 <= i < s.len() ==> is_digit(#[trigger] s[i])
}

/// `s` is a well-formed unsigned decimal numeral: at least one character,
/// all of them digits. Leading zeros are allowed.
pub open spec fn is_unsigned_dec(s: Seq<char>) -> bool {
    s.len() >= 1 && all_digits(s)
}

/// The value of a digit sequence, reading most significant first.
pub open spec fn digits_val(s: Seq<char>) -> nat
    decreases s.len(),
{
    if s.len() == 0 {
        0
    } else {
        digits_val(s.drop_last()) * 10 + digit_val(s.last())
    }
}

/// The decimal text of a signed value: a leading `'-'` for negatives.
pub open spec fn signed_digits(v: int) -> Seq<char> {
    if v < 0 {
        seq!['-'] + dec_digits((-v) as nat)
    } else {
        dec_digits(v as nat)
    }
}

/// `s` is a well-formed signed decimal numeral: an optional leading `'-'`
/// followed by at least one digit.
pub open spec fn is_signed_dec(s: Seq<char>) -> bool {
    if s.len() >= 1 && s[0] == '-' {
        s.len() >= 2 && all_digits(s.skip(1))
    } else {
        is_unsigned_dec(s)
    }
}

/// The value of a well-formed signed decimal numeral.
pub open spec fn signed_val(s: Seq<char>) -> int {
    if s.len() >= 1 && s[0] == '-' {
        -(digits_val(s.skip(1)) as int)
    } else {
        digits_val(s) as int
    }
}

/// The printed digits of `n` form a well-formed numeral whose value is `n`
/// and whose first character is a digit.
pub proof fn lemma_dec_digits_ok(n: nat)
    ensures
        dec_digits(n).len() >= 1,
        all_digits(dec_digits(n)),
        digits_val(dec_digits(n)) == n,
    decreases n,
{
    if n < 10 {
        let s = dec_digits(n);
        assert(s.len() == 1);
        assert(s.last() == digit_char(n));
        assert(s.drop_last() =~= Seq::<char>::empty());
        assert(digits_val(Seq::<char>::empty()) == 0);
        assert(digits_val(s) == digits_val(s.drop_last()) * 10 + digit_val(s.last()));
        assert(digit_val(digit_char(n)) == n);
    } else {
        lemma_dec_digits_ok(n / 10);
        let p = dec_digits(n / 10);
        let s = dec_digits(n);
        assert(s == p.push(digit_char(n % 10)));
        assert(s.drop_last() =~= p);
        assert(s.last() == digit_char(n % 10));
        assert(digits_val(s) == (n / 10) * 10 + n % 10);
        assert((n / 10) * 10 + n % 10 == n) by (nonlinear_arith);
        assert forall|i: int| 0 <= i < s.len() implies is_digit(#[trigger] s[i]) by {
            if i < p.len() {
                assert(s[i] == p[i]);
            }
        }
    }
}

/// The printed text of a signed value is a well-formed signed numeral with
/// that value.
pub proof fn lemma_signed_digits_ok(v: int)
    ensures
        signed_digits(v).len() >= 1,
        is_signed_dec(signed_digits(v)),
        signed_val(signed_digits(v)) == v,
        v >= 0 ==> is_digit(signed_digits(v)[0]),
        v < 0 ==> signed_digits(v)[0] == '-' && signed_digits(v).len() >= 2,
{
    if v < 0 {
        lemma_dec_digits_ok((-v) as nat);
        let s = signed_digits(v);
        assert(s.skip(1) =~= dec_digits((-v) as nat));
    } else {
        lemma_dec_digits_ok(v as nat);
        let s = signed_digits(v);
        assert(is_digit(s[0]));
        assert(s[0] != '-');
    }
}

/// For a digit sequence, every prefix has a value no greater than the whole.
pub proof fn lemma_digits_val_prefix(s: Seq<char>, k: int)
    requires
        0 <= k <= s.len(),
    ensures
        digits_val(s.take(k)) <= digits_val(s),
    decreases s.len() - k,
{
    if k < s.len() {
        lemma_digits_val_prefix(s, k + 1);
        let t = s.take(k + 1);
        assert(t.drop_last() =~= s.take(k));
        assert(digits_val(t) == digits_val(s.take(k)) * 10 + digit_val(t.last()));
        assert(digits_val(s.take(k)) * 10 >= digits_val(s.take(k))) by (nonlinear_arith);
    } else {
        assert(s.take(k) =~= s);
    }
}

/// Appends the digit character for `d` to `buf`.
fn push_digit(buf: &mut String, d: u64)
    requires
        d < 10,
    ensures
        final(buf)@ == old(buf)@ + seq![digit_char(d as nat)],
{
    match d {
        0 => buf.append("0"),
        1 => buf.append("1"),
        2 => buf.append("2"),
        3 => buf.append("3"),
        4 => buf.append("4"),
        5 => buf.append("5"),
        6 => buf.append("6"),
        7 => buf.append("7"),
        8 => buf.append("8"),
        _ => buf.append("9"),
    }
    proof {
        reveal_strlit("0");
        reveal_strlit("1");
        reveal_strlit("2");
        reveal_strlit("3");
        reveal_strlit("4");
        reveal_strlit("5");
        reveal_strlit("6");
        reveal_strlit("7");
        reveal_strlit("8");
        reveal_strlit("9");
        assert(final(buf)@ =~= old(buf)@ + seq![digit_char(d as nat)]);
    }
}

/// Appends the decimal digits of `n` to `buf`.
pub(crate) fn push_u64_decimal(buf: &mut String, n: u64)
    ensures
        final(buf)@ == old(buf)@ + dec_digits(n as nat),
    decreases n,
{
    if n >= 10 {
        push_u64_decimal(buf, n / 10);
        push_digit(buf, n % 10);
        proof {
            assert(final(buf)@ =~= old(buf)@ + dec_digits(n as nat));
        }
    } else {
        push_digit(buf, n);
    }
}

/// Appends the signed decimal text of `v` to `buf`.
pub(crate) fn push_i64_decimal(buf: &mut String, v: i64)
    ensures
        final(buf)@ == old(buf)@ + signed_digits(v as int),
{
    if v < 0 {
        let magnitude: u64 = if v == i64::MIN {
            9223372036854775808u64
        } else {
            (-v) as u64
        };
        buf.append("-");
        push_u64_decimal(buf, magnitude);
        proof {
            reveal_strlit("-");
            assert("-"@ =~= seq!['-']);
            assert(final(buf)@ =~= old(buf)@ + signed_digits(v as int));
        }
    } else {
        push_u64_decimal(buf, v as u64);
    }
}

/// Parses the suffix of `s` starting at character `start` as an unsigned
/// decimal numeral, succeeding exactly when the suffix is a well-formed
/// numeral whose value is at most `max`.
pub(crate) fn parse_u64_range(s: &str, start: usize, max: u64) -> (r: Option<u64>)
    requires
        start as int <= s@.len(),
    ensures
        ({
            let t = s@.skip(start as int);
            match r {
                Some(v) => is_unsigned_dec(t) && digits_val(t) == v && v <= max,
                None => !(is_unsigned_dec(t) && digits_val(t) <= max),
            }
        }),
{
    let ghost t = s@.skip(start as int);
    let len = s.unicode_len();
    let mut acc: u64 = 0;
    let mut i = start;
    while i < len
        invariant
            start <= i <= len,
            len == s@.len(),
            t == s@.skip(start as int),
            all_digits(t.take(i - start)),
            acc == digits_val(t.take(i - start)),
            acc <= max,
        decreases len - i,
    {
        let c = s.get_char(i);
        let cu = c as u32;
        proof {
            assert(t[i - start] == s@[i as int]);
        }
        if cu < 48 || cu > 57 {
            proof {
                assert(!is_digit(t[i - start]));
            }
            return None;
        }
        let d: u64 = (cu - 48) as u64;
        let wide: u128 = acc as u128 * 10 + d as u128;
        proof {
            let j = i - start;
            assert(t.take(j + 1).drop_last() =~= t.take(j));
            assert(t.take(j + 1).last() == t[j]);
            assert(digits_val(t.take(j + 1)) == digits_val(t.take(j)) * 10 + digit_val(t[j]));
            assert(digit_val(t[j]) == d);
        }
        if wide > max as u128 {
            proof {
                let j = i - start;
                assert(digits_val(t.take(j + 1)) > max);
                if is_unsigned_dec(t) && digits_val(t) <= max {
                    lemma_digits_val_prefix(t, j + 1);
                }
            }
            return None;
        }
        acc = wide as u64;
        i = i + 1;
        proof {
            let j = i - start;
            assert(all_digits(t.take(j))) by {
                assert forall|k: int| 0 <= k < j implies is_digit(#[trigger] t.take(j)[k]) by {
                    assert(t.take(j)[k] == t.take(j - 1 + 1)[k]);
                }
            }
        }
    }
    if start == len {
        proof {
            assert(t.len() == 0);
        }
        return None;
    }
    proof {
        assert(t.take(len - start) =~= t);
    }
    Some(acc)
}

/// Parses `s` as an unsigned decimal numeral that fits in `u32`, succeeding
/// exactly when `s` is a well-formed numeral with value at most `u32::MAX`.
pub(crate) fn parse_u32(s: &str) -> (r: Option<u32>)
    ensures
        match r {
            Some(v) => is_unsigned_dec(s@) && digits_val(s@) == v,
            None => !(is_unsigned_dec(s@) && digits_val(s@) <= u32::MAX),
        },
{
    proof {
        assert(s@.skip(0) =~= s@);
    }
    match parse_u64_range(s, 0, 4294967295u64) {
        Some(v) => Some(v as u32),
        None => None,
    }
}

/// Parses `s` as a signed decimal numeral that fits in `i64`, succeeding
/// exactly when `s` is a well-formed signed numeral within the `i64` range.
pub(crate) fn parse_i64(s: &str) -> (r: Option<i64>)
    ensures
        match r {
            Some(v) => is_signed_dec(s@) && signed_val(s@) == v as int,
            None => !(is_signed_dec(s@) && i64::MIN <= signed_val(s@) <= i64::MAX),
        },
{
    let len = s.unicode_len();
    if len == 0 {
        return None;
    }
    if s.get_char(0) == '-' {
        let ghost t = s@.skip(1);
        match parse_u64_range(s, 1, 9223372036854775808u64) {
            Some(m) => {
                if m == 9223372036854775808u64 {
                    Some(i64::MIN)
                } else {
                    Some(-(m as i64))
                }
            },
            None => {
                proof {
                    assert(!(is_unsigned_dec(t) && digits_val(t) <= 9223372036854775808u64));
                    if is_signed_dec(s@) {
                        assert(is_unsigned_dec(t));
                        assert(digits_val(t) > 9223372036854775808u64);
                        assert(signed_val(s@) < i64::MIN);
                    }
                }
                None
            },
        }
    } else {
        proof {
            assert(s@.skip(0) =~= s@);
        }
        match parse_u64_range(s, 0, 9223372036854775807u64) {
            Some(m) => Some(m as i64),
            None => None,
        }
    }
}

} // verus!
