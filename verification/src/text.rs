//! Characters and names: case folding, white space, decimal numbers.

use vstd::prelude::*;
use crate::store::{fold_case, upper_char};

verus! {

/// `String::push`: appends one character.
pub assume_specification[ String::push ](s: &mut String, c: char)
    ensures
        final(s)@ == old(s)@.push(c),
;

/// The upper-case form of an ASCII lower-case letter; any other character
/// unchanged.
pub fn to_upper(c: char) -> (r: char)
    ensures
        r == upper_char(c),
{
    if 'a' <= c && c <= 'z' {
        ((c as u8) - 32u8) as char
    } else {
        c
    }
}

/// The name with its ASCII lower-case letters in upper case.
pub fn fold(name: &str) -> (r: String)
    ensures
        r@ == fold_case(name@),
{
    let mut out = String::new();
    for c in it: name.chars()
        invariant
            it.seq() == name@,
            out@ == fold_case(name@.take(it.index() as int)),
    {
        assert(c == name@[it.index() as int]);
        out.push(to_upper(c));
        assert(out@ =~= fold_case(name@.take(it.index() + 1)));
    }
    assert(name@.take(name@.len() as int) =~= name@);
    out
}

/// The characters of a text.
pub fn chars_of(text: &str) -> (r: Vec<char>)
    ensures
        r@ == text@,
{
    let mut out: Vec<char> = Vec::new();
    for c in it: text.chars()
        invariant
            it.seq() == text@,
            out@ == text@.take(it.index() as int),
    {
        out.push(c);
        assert(out@ =~= text@.take(it.index() + 1));
    }
    assert(text@.take(text@.len() as int) =~= text@);
    out
}

/// The ten decimal digits.
pub open spec fn is_digit(c: char) -> bool {
    '0' <= c && c <= '9'
}

/// The number that a decimal digit stands for.
pub open spec fn digit_value(c: char) -> int {
    (c as int) - 48
}

/// The digit that stands for a number below ten.
pub open spec fn digit_char(d: int) -> char {
    ((d + 48) as u8) as char
}

/// Every character is a decimal digit.
pub open spec fn all_digits(s: Seq<char>) -> bool {
    forall|i: int| 0 <= i < s.len() ==> is_digit(#[trigger] s[i])
}

/// The number that a sequence of decimal digits stands for.
pub open spec fn digits_value(s: Seq<char>) -> int
    decreases s.len(),
{
    if s.len() == 0 {
        0
    } else {
        10 * digits_value(s.drop_last()) + digit_value(s.last())
    }
}

/// The 64-bit integer that a text stands for: an optional minus sign and at
/// least one decimal digit, nothing else, and a value that fits.
pub open spec fn decimal(v: Seq<char>) -> Option<i64> {
    let negative = v.len() > 0 && v[0] == '-';
    let digits = if negative {
        v.drop_first()
    } else {
        v
    };
    let x = if negative {
        -digits_value(digits)
    } else {
        digits_value(digits)
    };
    if digits.len() == 0 || !all_digits(digits) || x < i64::MIN || x > i64::MAX {
        None
    } else {
        Some(x as i64)
    }
}

/// The decimal digits of a natural number, without leading zeros.
pub open spec fn digits_of(x: nat) -> Seq<char>
    decreases x,
{
    if x < 10 {
        seq![digit_char(x as int)]
    } else {
        digits_of(x / 10).push(digit_char((x % 10) as int))
    }
}

/// The decimal text of an integer.
pub open spec fn decimal_of(n: int) -> Seq<char> {
    if n < 0 {
        seq!['-'] + digits_of((-n) as nat)
    } else {
        digits_of(n as nat)
    }
}

/// More digits do not make a number smaller.
pub proof fn lemma_digits_value_grows(s: Seq<char>, k: int)
    requires
        all_digits(s),
        0 <= k <= s.len(),
    ensures
        0 <= digits_value(s.take(k)) <= digits_value(s),
    decreases s.len() - k,
{
    lemma_digits_value_nonneg(s.take(k));
    if k < s.len() {
        lemma_digits_value_grows(s, k + 1);
        assert(s.take(k + 1).drop_last() =~= s.take(k));
        assert(is_digit(s[k]));
        assert(s.take(k + 1).last() == s[k]);
    } else {
        assert(s.take(k) =~= s);
    }
}

/// The value of a sequence of digits is not negative.
pub proof fn lemma_digits_value_nonneg(s: Seq<char>)
    requires
        all_digits(s),
    ensures
        0 <= digits_value(s),
    decreases s.len(),
{
    if s.len() > 0 {
        lemma_digits_value_nonneg(s.drop_last());
        assert(is_digit(s.last()));
    }
}

/// The integer that a text stands for, if it stands for one.
pub fn parse_decimal(text: &Vec<char>) -> (r: Option<i64>)
    ensures
        r == decimal(text@),
{
    let n = text.len();
    let negative = n > 0 && text[0] == '-';
    let start: usize = if negative {
        1
    } else {
        0
    };
    if start >= n {
        return None;
    }
    let ghost digits = if negative {
        text@.drop_first()
    } else {
        text@
    };
    let mut acc: i64 = 0;
    let mut i: usize = start;
    while i < n
        invariant
            start <= i <= n,
            n == text@.len(),
            start == (if negative {
                1usize
            } else {
                0usize
            }),
            negative == (text@.len() > 0 && text@[0] == '-'),
            digits == (if negative {
                text@.drop_first()
            } else {
                text@
            }),
            all_digits(digits.take(i - start)),
            acc == (if negative {
                -digits_value(digits.take(i - start))
            } else {
                digits_value(digits.take(i - start))
            }),
        decreases n - i,
    {
        let c = text[i];
        let ghost k = i - start;
        proof {
            assert(digits[k] == c);
            assert(digits.take(k + 1).drop_last() =~= digits.take(k));
            assert(digits.take(k + 1).last() == c);
        }
        if !('0' <= c && c <= '9') {
            assert(!all_digits(digits));
            return None;
        }
        let d: i64 = ((c as u8) - 48u8) as i64;
        let next = match acc.checked_mul(10) {
            None => None,
            Some(m) => if negative {
                m.checked_sub(d)
            } else {
                m.checked_add(d)
            },
        };
        match next {
            None => {
                proof {
                    if all_digits(digits) {
                        lemma_digits_value_grows(digits, k + 1);
                        lemma_digits_value_nonneg(digits.take(k));
                    }
                }
                return None;
            },
            Some(x) => {
                acc = x;
            },
        }
        assert forall|j: int| 0 <= j < k + 1 implies is_digit(#[trigger] digits.take(k + 1)[j]) by {
            if j < k {
                assert(digits.take(k)[j] == digits.take(k + 1)[j]);
            }
        }
        i = i + 1;
    }
    assert(digits.take(n - start) =~= digits);
    Some(acc)
}

/// The decimal text of an integer.
pub fn decimal_text(n: i64) -> (r: String)
    ensures
        r@ == decimal_of(n as int),
{
    let negative = n < 0;
    let magnitude: u64 = if negative {
        ((-(n + 1)) as u64) + 1
    } else {
        n as u64
    };
    let mut m = magnitude;
    let mut low: Vec<char> = Vec::new();
    while m >= 10
        invariant
            digits_of(magnitude as nat) == digits_of(m as nat) + low@.reverse(),
        decreases m,
    {
        let ghost before = low@;
        let c = (((m % 10) as u8) + 48u8) as char;
        low.push(c);
        proof {
            assert(low@.reverse() =~= seq![c] + before.reverse());
            assert(digits_of(m as nat) == digits_of((m / 10) as nat).push(c));
            assert(digits_of((m / 10) as nat).push(c) + before.reverse() =~= digits_of((m / 10) as nat) + (seq![c]
                + before.reverse()));
        }
        m = m / 10;
    }
    let ghost before = low@;
    let c = ((m as u8) + 48u8) as char;
    low.push(c);
    proof {
        assert(low@.reverse() =~= seq![c] + before.reverse());
        assert(digits_of(m as nat) =~= seq![c]);
    }
    let mut out = String::new();
    if negative {
        out.push('-');
    }
    let ghost head = out@;
    let mut i: usize = low.len();
    while i > 0
        invariant
            i <= low.len(),
            out@ == head + low@.reverse().take(low@.len() - i),
        decreases i,
    {
        i = i - 1;
        out.push(low[i]);
        proof {
            let r = low@.reverse();
            let k = low@.len() - i - 1;
            assert(r[k] == low@[i as int]);
            assert(r.take(k + 1) =~= r.take(k).push(r[k]));
            assert(head + r.take(k + 1) =~= (head + r.take(k)).push(r[k]));
        }
    }
    proof {
        let r = low@.reverse();
        assert(r.take(low@.len() as int) =~= r);
        if !negative {
            assert(head + r =~= r);
        }
    }
    out
}

} // verus!
