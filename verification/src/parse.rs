//! Whole numbers written in decimal.

#[allow(unused_imports)]
use crate::report::{decimal_text, digit_text};
use crate::text::chars_of;
use vstd::prelude::*;

verus! {

/// Whether a character is one of the ten digits.
pub open spec fn is_digit(c: char) -> bool {
    '0' <= c <= '9'
}

/// Whether a text is made of digits, at least one.
pub open spec fn is_digits(s: Seq<char>) -> bool {
    s.len() > 0 && forall|i: int| 0 <= i < s.len() ==> is_digit(#[trigger] s[i])
}

/// The number that digits stand for.
pub open spec fn digits_value(s: Seq<char>) -> nat
    decreases s.len(),
{
    if s.len() == 0 {
        0
    } else {
        (digits_value(s.drop_last()) * 10 + (s.last() as int - '0' as int)) as nat
    }
}

/// The number that a text stands for: digits, with or without a plus sign before them.
pub open spec fn unsigned_value(s: Seq<char>) -> Option<nat> {
    let digits = if s.len() > 0 && s[0] == '+' {
        s.skip(1)
    } else {
        s
    };
    if is_digits(digits) {
        Some(digits_value(digits))
    } else {
        None
    }
}

/// The number that a text stands for: digits, with or without a sign before them.
pub open spec fn signed_value(s: Seq<char>) -> Option<int> {
    if s.len() > 0 && s[0] == '-' {
        if is_digits(s.skip(1)) {
            Some(-(digits_value(s.skip(1)) as int))
        } else {
            None
        }
    } else {
        match unsigned_value(s) {
            Some(n) => Some(n as int),
            None => None,
        }
    }
}

/// More digits make no smaller number.
proof fn lemma_digits_grow(s: Seq<char>, k: int)
    requires
        is_digits(s),
        0 <= k <= s.len(),
    ensures
        digits_value(s.take(k)) <= digits_value(s),
    decreases s.len() - k,
{
    if k < s.len() {
        let t = s.take(k + 1);
        assert(t.drop_last() =~= s.take(k));
        assert(is_digit(s[k]));
        assert(t.last() == s[k]);
        assert(digits_value(s.take(k)) <= digits_value(t));
        lemma_digits_grow(s, k + 1);
    } else {
        assert(s.take(k) =~= s);
    }
}

/// The number that the digits from `from` on stand for, if it fits.
fn parse_digits(v: &Vec<char>, from: usize) -> (r: Option<u64>)
    requires
        from <= v@.len(),
    ensures
        r == (if is_digits(v@.skip(from as int)) && digits_value(v@.skip(from as int))
            <= u64::MAX {
            Some(digits_value(v@.skip(from as int)) as u64)
        } else {
            None
        }),
{
    let ghost digits = v@.skip(from as int);
    if from == v.len() {
        return None;
    }
    let mut n: u64 = 0;
    let mut i: usize = from;
    assert(digits.take(0) =~= Seq::<char>::empty());
    while i < v.len()
        invariant
            from <= i <= v@.len(),
            from < v@.len(),
            digits == v@.skip(from as int),
            forall|k: int| 0 <= k < i - from ==> is_digit(#[trigger] digits[k]),
            n == digits_value(digits.take(i - from)),
        decreases v@.len() - i,
    {
        let c = v[i];
        assert(digits[i - from] == c);
        if c < '0' || c > '9' {
            return None;
        }
        let d: u64 = (c as u32 - '0' as u32) as u64;
        proof {
            let t = digits.take(i + 1 - from);
            assert(t.drop_last() =~= digits.take(i - from));
            assert(t.last() == c);
            assert(digits_value(t) == n * 10 + d);
            if is_digits(digits) {
                lemma_digits_grow(digits, i + 1 - from);
            }
        }
        match n.checked_mul(10) {
            None => {
                return None;
            },
            Some(tens) => match tens.checked_add(d) {
                None => {
                    return None;
                },
                Some(next) => {
                    n = next;
                },
            },
        }
        i = i + 1;
    }
    assert(digits.take(i - from) =~= digits);
    Some(n)
}

/// The whole number that a text stands for, if there is one and it fits.
pub fn parse_usize(s: &str) -> (r: Option<usize>)
    ensures
        r == (match unsigned_value(s@) {
            Some(n) => if n <= usize::MAX {
                Some(n as usize)
            } else {
                None
            },
            None => None,
        }),
{
    let v = chars_of(s);
    let from: usize = if v.len() > 0 && v[0] == '+' {
        1
    } else {
        0
    };
    assert(v@.skip(0) =~= v@);
    match parse_digits(&v, from) {
        Some(n) => {
            if n <= usize::MAX as u64 {
                Some(n as usize)
            } else {
                None
            }
        },
        None => None,
    }
}

/// The whole number that a text stands for, if there is one and it fits.
pub fn parse_i32(s: &str) -> (r: Option<i32>)
    ensures
        r == (match signed_value(s@) {
            Some(n) => if i32::MIN <= n <= i32::MAX {
                Some(n as i32)
            } else {
                None
            },
            None => None,
        }),
{
    let v = chars_of(s);
    assert(v@.skip(0) =~= v@);
    if v.len() > 0 && v[0] == '-' {
        match parse_digits(&v, 1) {
            Some(n) => {
                if n <= 2147483648 {
                    Some((-(n as i64)) as i32)
                } else {
                    None
                }
            },
            None => None,
        }
    } else {
        let from: usize = if v.len() > 0 && v[0] == '+' {
            1
        } else {
            0
        };
        match parse_digits(&v, from) {
            Some(n) => {
                if n <= 2147483647 {
                    Some(n as i32)
                } else {
                    None
                }
            },
            None => None,
        }
    }
}

/// A number written in decimal is read back.
pub proof fn law_decimal_is_read_back(n: nat)
    ensures
        unsigned_value(decimal_text(n)) == Some(n),
        signed_value(decimal_text(n)) == Some(n as int),
{
    lemma_decimal_digits(n);
    let s = decimal_text(n);
    assert(is_digit(s[0]));
}

proof fn lemma_digit(d: nat)
    requires
        d < 10,
    ensures
        digit_text(d).len() == 1,
        is_digit(digit_text(d)[0]),
        digit_text(d)[0] as int - '0' as int == d,
{
    reveal_strlit("0");
    reveal_strlit("1");
    reveal_strlit("2");
    reveal_strlit("3");
    reveal_strlit("4");
    reveal_strlit("5");
    reveal_strlit("6");
    reveal_strlit("7");
    reveal_strlit("8");
    reveal_strlit("9");
}

proof fn lemma_decimal_digits(n: nat)
    ensures
        is_digits(decimal_text(n)),
        digits_value(decimal_text(n)) == n,
    decreases n,
{
    let s = decimal_text(n);
    if n < 10 {
        lemma_digit(n);
        assert(s.drop_last() =~= Seq::<char>::empty());
        assert(digits_value(s.drop_last()) == 0);
    } else {
        lemma_decimal_digits(n / 10);
        lemma_digit(n % 10);
        assert(s.drop_last() =~= decimal_text(n / 10));
        assert(s.last() == digit_text(n % 10)[0]);
        assert forall|i: int| 0 <= i < s.len() implies is_digit(#[trigger] s[i]) by {
            if i < s.len() - 1 {
                assert(s[i] == decimal_text(n / 10)[i]);
            }
        }
    }
}

/// A minus sign makes the number negative, a plus sign changes nothing, and leading zeros
/// count for nothing.
pub proof fn law_signs_and_zeros(s: Seq<char>, n: nat)
    requires
        s.len() > 0,
        s[0] != '+' && s[0] != '-',
        unsigned_value(s) == Some(n),
    ensures
        signed_value(s) == Some(n as int),
        signed_value(seq!['-'] + s) == Some(-(n as int)),
        signed_value(seq!['+'] + s) == Some(n as int),
        unsigned_value(seq!['+'] + s) == Some(n),
        unsigned_value(seq!['-'] + s) is None,
        unsigned_value(seq!['0'] + s) == Some(n),
{
    assert((seq!['-'] + s).skip(1) =~= s);
    assert((seq!['+'] + s).skip(1) =~= s);
    assert(!is_digit((seq!['-'] + s)[0]));
    lemma_leading_zero(s);
    let z = seq!['0'] + s;
    assert forall|i: int| 0 <= i < z.len() implies is_digit(#[trigger] z[i]) by {
        if i > 0 {
            assert(z[i] == s[i - 1]);
        }
    }
}

proof fn lemma_leading_zero(s: Seq<char>)
    ensures
        digits_value(seq!['0'] + s) == digits_value(s),
    decreases s.len(),
{
    let z = seq!['0'] + s;
    if s.len() == 0 {
        assert(z.drop_last() =~= Seq::<char>::empty());
        assert(digits_value(z.drop_last()) == 0);
    } else {
        lemma_leading_zero(s.drop_last());
        assert(z.drop_last() =~= seq!['0'] + s.drop_last());
    }
}

/// Digits count by their places: one more digit behind is ten times the number and the digit.
/// What holds anything but digits, or nothing, is no number.
pub proof fn law_digits_by_their_places(s: Seq<char>, n: nat, d: nat, c: char, i: int)
    requires
        unsigned_value(s) == Some(n),
        d < 10,
        c as int == '0' as int + d,
        0 <= i < s.len(),
    ensures
        unsigned_value(s.push(c)) == Some((10 * n + d) as nat),
        unsigned_value(Seq::empty()) is None,
        signed_value(Seq::empty()) is None,
        i > 0 ==> ('0' <= s[i] <= '9'),
        forall|x: char| #![auto]
            !('0' <= x <= '9') ==> unsigned_value(s.push(x)) is None && signed_value(s.push(x)) is None,
{
    let digits = if s[0] == '+' {
        s.skip(1)
    } else {
        s
    };
    let more = if s[0] == '+' {
        s.push(c).skip(1)
    } else {
        s.push(c)
    };
    assert(more =~= digits.push(c));
    assert(more.drop_last() =~= digits);
    assert forall|k: int| 0 <= k < more.len() implies is_digit(#[trigger] more[k]) by {
        if k < digits.len() {
            assert(more[k] == digits[k]);
        }
    }
    if i > 0 {
        if s[0] == '+' {
            assert(is_digit(digits[i - 1]));
        } else {
            assert(is_digit(digits[i]));
        }
    }
    assert forall|x: char| !('0' <= x <= '9') implies unsigned_value(#[trigger] s.push(x)) is None
        && signed_value(s.push(x)) is None by {
        let t = s.push(x);
        assert(t[t.len() - 1] == x);
        assert(t.skip(1)[t.len() - 2] == x);
        assert(!is_digit(x));
    }
}

} // verus!
