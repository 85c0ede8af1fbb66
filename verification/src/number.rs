//! Integers in a radix, and decimal literals.

use crate::text;
use vstd::prelude::*;

verus! {

/// Why a text is no integer.
#[derive(Debug, Clone, Copy, PartialEq, Eq, Structural)]
pub enum IntFault {
    /// There is nothing to read.
    Empty,
    /// A character is no digit of the radix, or there is only a sign.
    InvalidDigit,
    /// The value does not fit.
    TooLarge,
}

/// The value of `c` as a digit of a radix, if it is one.
pub open spec fn digit_value(c: char, radix: nat) -> Option<nat> {
    let v = if '0' <= c <= '9' {
        c as int - '0' as int
    } else if 'a' <= c <= 'z' {
        c as int - 'a' as int + 10
    } else if 'A' <= c <= 'Z' {
        c as int - 'A' as int + 10
    } else {
        radix as int
    };
    if v < radix {
        Some(v as nat)
    } else {
        None
    }
}

/// The value of a row of digits, read from the left: the first character that
/// is no digit, or that takes the value over `max`, decides the fault.
pub open spec fn digits_value(s: Seq<char>, radix: nat, max: nat) -> Result<nat, IntFault>
    decreases s.len(),
{
    if s.len() == 0 {
        Ok(0)
    } else {
        match digits_value(s.drop_last(), radix, max) {
            Err(e) => Err(e),
            Ok(v) => match digit_value(s.last(), radix) {
                None => Err(IntFault::InvalidDigit),
                Some(d) => if v * radix + d <= max {
                    Ok(v * radix + d)
                } else {
                    Err(IntFault::TooLarge)
                },
            },
        }
    }
}

/// The unsigned integer that `s` spells in `radix`: an optional `+` and at least
/// one digit, with a value of at most `max`.
pub open spec fn unsigned_value(s: Seq<char>, radix: nat, max: nat) -> Result<nat, IntFault> {
    if s.len() == 0 {
        Err(IntFault::Empty)
    } else if s[0] == '+' {
        if s.len() == 1 {
            Err(IntFault::InvalidDigit)
        } else {
            digits_value(s.skip(1), radix, max)
        }
    } else {
        digits_value(s, radix, max)
    }
}

/// The value of `c` as a digit of `radix`, if it is one.
fn digit(c: char, radix: u32) -> (r: Option<u32>)
    requires
        radix <= 36,
    ensures
        match r {
            Some(d) => digit_value(c, radix as nat) == Some(d as nat),
            None => digit_value(c, radix as nat) is None,
        },
{
    let v: u32 = if '0' <= c && c <= '9' {
        c as u32 - '0' as u32
    } else if 'a' <= c && c <= 'z' {
        c as u32 - 'a' as u32 + 10
    } else if 'A' <= c && c <= 'Z' {
        c as u32 - 'A' as u32 + 10
    } else {
        radix
    };
    if v < radix {
        Some(v)
    } else {
        None
    }
}

/// A prefix with a fault passes it on to the whole row.
pub(crate) proof fn lemma_fault_stays(s: Seq<char>, k: int, radix: nat, max: nat)
    requires
        0 <= k <= s.len(),
        digits_value(s.take(k), radix, max) is Err,
    ensures
        digits_value(s, radix, max) == digits_value(s.take(k), radix, max),
    decreases s.len() - k,
{
    if k < s.len() {
        assert(s.take(k + 1).drop_last() == s.take(k));
        lemma_fault_stays(s, k + 1, radix, max);
    } else {
        assert(s.take(k) == s);
    }
}

/// Reads an unsigned integer in `radix` that is at most `max`.
pub fn parse_unsigned(s: &[char], radix: u32, max: u64) -> (r: Result<u64, IntFault>)
    requires
        2 <= radix <= 36,
    ensures
        match r {
            Ok(v) => unsigned_value(s@, radix as nat, max as nat) == Ok::<nat, IntFault>(v as nat),
            Err(e) => unsigned_value(s@, radix as nat, max as nat) == Err::<nat, IntFault>(e),
        },
{
    let n: usize = s.len();
    if n == 0 {
        return Err(IntFault::Empty);
    }
    let from: usize = if s[0] == '+' {
        1
    } else {
        0
    };
    if from == n {
        return Err(IntFault::InvalidDigit);
    }
    let ghost row = s@.skip(from as int);
    assert(from == 0 ==> row == s@);
    let mut v: u64 = 0;
    let mut i: usize = from;
    while i < n
        invariant
            2 <= radix <= 36,
            from <= i <= n == s.len(),
            row == s@.skip(from as int),
            digits_value(row, radix as nat, max as nat) == unsigned_value(
                s@,
                radix as nat,
                max as nat,
            ),
            digits_value(row.take(i - from), radix as nat, max as nat) == Ok::<nat, IntFault>(
                v as nat,
            ),
        decreases n - i,
    {
        let ghost k: int = i - from;
        assert(row.take(k + 1).drop_last() == row.take(k));
        assert(row.take(k + 1).last() == s@[i as int]);
        match digit(s[i], radix) {
            None => {
                proof {
                    lemma_fault_stays(row, k + 1, radix as nat, max as nat);
                }
                return Err(IntFault::InvalidDigit);
            },
            Some(d) => {
                assert(v * radix <= u64::MAX * 36) by (nonlinear_arith)
                    requires
                        v <= u64::MAX,
                        radix <= 36,
                ;
                let wide: u128 = (v as u128) * (radix as u128) + (d as u128);
                if wide > max as u128 {
                    proof {
                        lemma_fault_stays(row, k + 1, radix as nat, max as nat);
                    }
                    return Err(IntFault::TooLarge);
                }
                v = wide as u64;
            },
        }
        i = i + 1;
    }
    assert(row.take(n - from) == row);
    Ok(v)
}

/// An integer that was read is at most `max`.
pub proof fn lemma_value_fits(s: Seq<char>, radix: nat, max: nat)
    ensures
        unsigned_value(s, radix, max) matches Ok(v) ==> v <= max,
{
}

/// A row of decimal digits, which may be empty.
pub open spec fn all_digits(s: Seq<char>) -> bool {
    forall|i: int| 0 <= i < s.len() ==> text::is_digit(#[trigger] s[i])
}

/// `s` without one leading sign.
pub open spec fn without_sign(s: Seq<char>) -> Seq<char> {
    if s.len() > 0 && (s[0] == '+' || s[0] == '-') {
        s.skip(1)
    } else {
        s
    }
}

/// At least one digit, with at most one point before, between or behind the
/// digits.
pub open spec fn is_mantissa(s: Seq<char>) -> bool {
    ||| s.len() > 0 && all_digits(s)
    ||| s.len() > 1 && exists|p: int|
        0 <= p < s.len() && #[trigger] s[p] == '.' && all_digits(s.take(p)) && all_digits(
            s.skip(p + 1),
        )
}

/// An `e` of either case, an optional sign and at least one digit.
pub open spec fn is_exponent(s: Seq<char>) -> bool {
    let digits = without_sign(s.skip(1));
    s.len() > 0 && (s[0] == 'e' || s[0] == 'E') && digits.len() > 0 && all_digits(digits)
}

/// A mantissa with an optional exponent behind it.
pub open spec fn is_plain_number(s: Seq<char>) -> bool {
    ||| is_mantissa(s)
    ||| exists|k: int|
        0 <= k < s.len() && is_mantissa(#[trigger] s.take(k)) && is_exponent(s.skip(k))
}

/// The decimal literals: an optional sign and a plain number.
pub open spec fn is_decimal(s: Seq<char>) -> bool {
    is_plain_number(without_sign(s))
}

/// The end of the row of digits that starts at `from`.
fn digits_end(s: &[char], from: usize) -> (r: usize)
    requires
        from <= s.len(),
    ensures
        from <= r <= s.len(),
        forall|i: int| from <= i < r ==> text::is_digit(#[trigger] s@[i]),
        r < s.len() ==> !text::is_digit(s@[r as int]),
{
    let mut r: usize = from;
    while r < s.len() && '0' <= s[r] && s[r] <= '9'
        invariant
            from <= r <= s.len(),
            forall|i: int| from <= i < r ==> text::is_digit(#[trigger] s@[i]),
        decreases s.len() - r,
    {
        r = r + 1;
    }
    r
}

/// What `s` holds as a `u32` in decimal, if it is one: an optional `+` and at
/// least one digit.
pub open spec fn u32_value(s: Seq<char>) -> Option<u32> {
    match unsigned_value(s, 10, u32::MAX as nat) {
        Ok(v) => Some(v as u32),
        Err(_) => None,
    }
}

/// Reads a `u32` in decimal.
pub fn parse_u32(s: &[char]) -> (r: Option<u32>)
    ensures
        r == u32_value(s@),
{
    match parse_unsigned(s, 10, u32::MAX as u64) {
        Ok(v) => {
            proof {
                lemma_value_fits(s@, 10, u32::MAX as nat);
            }
            Some(v as u32)
        },
        Err(_) => None,
    }
}

/// The value of a row of at least one decimal digit, without a sign, if it fits
/// in a `u32`.
pub open spec fn row_value(s: Seq<char>) -> Option<u32> {
    if all_digits(s) {
        u32_value(s)
    } else {
        None
    }
}

/// Reads a row of decimal digits, without a sign, as a `u32`.
pub fn parse_row(s: &[char]) -> (r: Option<u32>)
    ensures
        r == row_value(s@),
{
    if digits_end(s, 0) < s.len() {
        return None;
    }
    parse_u32(s)
}

/// `a` is the end of the digits at the start of `s`, `b` that of the digits
/// behind the point, if there is one.
spec fn scanned(s: Seq<char>, a: int, b: int) -> bool {
    &&& 0 <= a <= b <= s.len()
    &&& forall|i: int| 0 <= i < a ==> text::is_digit(#[trigger] s[i])
    &&& a < s.len() ==> !text::is_digit(s[a])
    &&& if a < s.len() && s[a] == '.' {
        &&& a < b
        &&& forall|i: int| a < i < b ==> text::is_digit(#[trigger] s[i])
        &&& b < s.len() ==> !text::is_digit(s[b])
    } else {
        a == b
    }
}

/// A mantissa that reaches the end of `s` or an `e` ends where the scan ended.
proof fn lemma_mantissa_end(s: Seq<char>, a: int, b: int, k: int)
    requires
        scanned(s, a, b),
        0 <= k <= s.len(),
        is_mantissa(s.take(k)),
        k < s.len() ==> s[k] == 'e' || s[k] == 'E',
    ensures
        k == b,
        a > 0 || b > 1,
{
    let m = s.take(k);
    if all_digits(m) {
        if k > a {
            assert(text::is_digit(m[a]));
        }
    } else {
        let p = choose|p: int|
            0 <= p < m.len() && #[trigger] m[p] == '.' && all_digits(m.take(p)) && all_digits(
                m.skip(p + 1),
            );
        if p > a {
            assert(text::is_digit(m.take(p)[a]));
        }
        assert(p == a);
        if k > b {
            assert(text::is_digit(m.skip(p + 1)[b - a - 1]));
        }
    }
}

/// What the scan tells of a plain number.
proof fn lemma_plain_number(s: Seq<char>, a: int, b: int)
    requires
        scanned(s, a, b),
    ensures
        is_plain_number(s) == ((a > 0 || b > 1) && (b == s.len() || is_exponent(s.skip(b)))),
{
    let n = s.len() as int;
    assert(s.take(n) == s);
    if is_mantissa(s) {
        lemma_mantissa_end(s, a, b, n);
    } else if is_plain_number(s) {
        let k = choose|k: int|
            0 <= k < s.len() && is_mantissa(#[trigger] s.take(k)) && is_exponent(s.skip(k));
        assert(s[k] == s.skip(k)[0]);
        lemma_mantissa_end(s, a, b, k);
    }
    if a > 0 || b > 1 {
        let m = s.take(b);
        if a < n && s[a] == '.' {
            assert(m[a] == '.');
            assert(all_digits(m.take(a)));
            assert(all_digits(m.skip(a + 1)));
        } else {
            assert(all_digits(m));
        }
        assert(is_mantissa(m));
    }
}

/// Whether `s` is a mantissa with an optional exponent behind it.
fn plain_number(s: &[char]) -> (r: bool)
    ensures
        r == is_plain_number(s@),
{
    let n: usize = s.len();
    let a: usize = digits_end(s, 0);
    let b: usize = if a < n && s[a] == '.' {
        digits_end(s, a + 1)
    } else {
        a
    };
    proof {
        lemma_plain_number(s@, a as int, b as int);
    }
    if a == 0 && b <= 1 {
        return false;
    }
    if b == n {
        return true;
    }
    assert(s@.skip(b as int)[0] == s@[b as int]);
    if s[b] != 'e' && s[b] != 'E' {
        return false;
    }
    let c: usize = if b + 1 < n && (s[b + 1] == '+' || s[b + 1] == '-') {
        b + 2
    } else {
        b + 1
    };
    let ghost digits = without_sign(s@.skip(b as int).skip(1));
    assert(digits == s@.skip(c as int));
    let d: usize = digits_end(s, c);
    proof {
        if d < n {
            assert(digits[d - c] == s@[d as int]);
        }
    }
    d > c && d == n
}

/// Whether `s` is a decimal literal.
pub fn decimal(s: &[char]) -> (r: bool)
    ensures
        r == is_decimal(s@),
{
    let n: usize = s.len();
    let from: usize = if n > 0 && (s[0] == '+' || s[0] == '-') {
        1
    } else {
        0
    };
    let body = &s[from..n];
    assert(body@ == without_sign(s@));
    plain_number(body)
}

} // verus!
