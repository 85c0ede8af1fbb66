//! The values of parameters, told from their characters.

use crate::laws::blanks;
use crate::laws::forms;
use crate::laws::quoting;
use crate::laws::values;
use crate::number;
use crate::number::IntFault;
use crate::param;
use crate::param::{NumberModel, ParamModel};
use crate::pattern::ParamKind;
use crate::text;
use vstd::prelude::*;

verus! {

/// The letters from `a` to `z`, in either case.
pub open spec fn is_ascii_letter(c: char) -> bool {
    'a' <= c <= 'z' || 'A' <= c <= 'Z'
}

/// Whether a text is made of such letters.
pub open spec fn is_word(s: Seq<char>) -> bool {
    forall|i: int| 0 <= i < s.len() ==> is_ascii_letter(#[trigger] s[i])
}

/// Whether a text ends in neither a letter nor white space.
pub open spec fn ends_plainly(s: Seq<char>) -> bool {
    s.len() > 0 ==> !is_ascii_letter(s[s.len() - 1]) && !text::is_space(s[s.len() - 1])
}

/// Whether a text ends in a digit.
pub open spec fn ends_in_digit(s: Seq<char>) -> bool {
    s.len() > 0 && '0' <= s[s.len() - 1] <= '9'
}

/// Where letters behind a text start.
proof fn lemma_letters(s: Seq<char>, unit: Seq<char>)
    requires
        is_word(unit),
        s.len() == 0 || !is_ascii_letter(s[s.len() - 1]),
    ensures
        param::letters_start(s + unit) == s.len(),
    decreases unit.len(),
{
    let whole = s + unit;
    if unit.len() == 0 {
        assert(whole =~= s);
    } else {
        let rest = unit.drop_last();
        assert forall|i: int| 0 <= i < rest.len() implies is_ascii_letter(#[trigger] rest[i]) by {
            assert(rest[i] == unit[i]);
        }
        lemma_letters(s, rest);
        assert(whole.drop_last() =~= s + rest);
        assert(whole.last() == unit[unit.len() - 1]);
    }
}

/// A unit, and the white space before it, is stripped from a number. A lone `e`
/// behind a digit is none.
pub proof fn law_unit_stripped(n: Seq<char>, space: Seq<char>, unit: Seq<char>)
    requires
        n.len() > 0 ==> !text::is_space(n[n.len() - 1]),
        n.len() > 0 && space.len() == 0 ==> !is_ascii_letter(n[n.len() - 1]),
        blanks::is_blank(space),
        is_word(unit),
        unit.len() > 0,
        n.len() + space.len() > 0,
        space.len() == 0 && (unit == seq!['e'] || unit == seq!['E']) ==> !ends_in_digit(n),
    ensures
        param::without_unit(n + space + unit) == n,
{
    let s = n + space;
    let whole = s + unit;
    let end = s.len() as int;
    assert(!is_ascii_letter(s[end - 1])) by {
        if space.len() > 0 {
            assert(text::is_space(space[space.len() - 1]));
            assert(s[end - 1] == space[space.len() - 1]);
        }
    }
    lemma_letters(s, unit);
    assert(whole.take(end) =~= s);
    blanks::lemma_trim_end_blank(n, space);
    if end + 1 == whole.len() && (whole[end] == 'e' || whole[end] == 'E') && text::is_digit(
        whole[end - 1],
    ) {
        assert(whole[end] == unit[0]);
        assert(unit =~= seq![unit[0]]);
        assert(whole[end - 1] == s[end - 1]);
        if space.len() > 0 {
            assert(text::is_space(space[space.len() - 1]));
            assert(s[end - 1] == space[space.len() - 1]);
        }
    }
}

/// Nothing is stripped from a text that does not end in a letter, from one that is
/// letters only, and from one that ends in a digit and a lone `e`.
pub proof fn law_nothing_stripped(s: Seq<char>)
    ensures
        s.len() == 0 || !is_ascii_letter(s[s.len() - 1]) ==> param::without_unit(s) == s,
        is_word(s) ==> param::without_unit(s) == s,
        s.len() >= 2 && (s[s.len() - 1] == 'e' || s[s.len() - 1] == 'E') && '0' <= s[s.len() - 2]
            <= '9' ==> param::without_unit(s) == s,
{
    let none = Seq::<char>::empty();
    if s.len() == 0 || !is_ascii_letter(s[s.len() - 1]) {
        lemma_letters(s, none);
        assert(s + none =~= s);
    }
    if is_word(s) {
        lemma_letters(none, s);
        assert(none + s =~= s);
    }
    if s.len() >= 2 && (s[s.len() - 1] == 'e' || s[s.len() - 1] == 'E') && '0' <= s[s.len() - 2]
        <= '9' {
        let front = s.drop_last();
        let last = seq![s.last()];
        assert(front[front.len() - 1] == s[s.len() - 2]);
        lemma_letters(front, last);
        assert(front + last =~= s);
    }
}

/// No sign, or one.
pub open spec fn is_sign(s: Seq<char>) -> bool {
    s.len() == 0 || s == seq!['+'] || s == seq!['-']
}

/// A decimal literal taken apart: its sign, the digits before and behind the point,
/// if there is one, and the exponent, if there is one.
pub struct Decimal {
    pub sign: Seq<char>,
    pub whole: Seq<char>,
    pub point: bool,
    pub fraction: Seq<char>,
    pub power: Option<(char, Seq<char>, Seq<char>)>,
}

/// The point of a literal.
pub open spec fn point_text(point: bool) -> Seq<char> {
    if point {
        seq!['.']
    } else {
        seq![]
    }
}

/// The exponent of a literal.
pub open spec fn power_text(power: Option<(char, Seq<char>, Seq<char>)>) -> Seq<char> {
    match power {
        None => seq![],
        Some((e, sign, digits)) => seq![e] + sign + digits,
    }
}

/// Whether the parts are those of a literal: at least one digit stands before the
/// exponent, and at least one in it.
pub open spec fn is_literal(d: Decimal) -> bool {
    &&& is_sign(d.sign)
    &&& forms::is_row(d.whole)
    &&& forms::is_row(d.fraction)
    &&& !d.point ==> d.fraction.len() == 0
    &&& d.whole.len() + d.fraction.len() > 0
    &&& match d.power {
        None => true,
        Some((e, sign, digits)) => (e == 'e' || e == 'E') && is_sign(sign) && digits.len() > 0
            && forms::is_row(digits),
    }
}

/// The digits of a literal before its exponent, with the point.
pub open spec fn digits_text(d: Decimal) -> Seq<char> {
    d.whole + point_text(d.point) + d.fraction
}

/// The text of a literal.
pub open spec fn literal_text(d: Decimal) -> Seq<char> {
    d.sign + digits_text(d) + power_text(d.power)
}

/// A row of digits is one.
proof fn lemma_row(s: Seq<char>)
    requires
        forms::is_row(s),
    ensures
        number::all_digits(s),
{
    assert forall|i: int| 0 <= i < s.len() implies text::is_digit(#[trigger] s[i]) by {
        assert('0' <= s[i] <= '9');
    }
}

/// The digits of a literal are its mantissa.
proof fn lemma_mantissa(d: Decimal)
    requires
        is_literal(d),
    ensures
        number::is_mantissa(digits_text(d)),
        digits_text(d).len() > 0,
        '0' <= digits_text(d)[0] <= '9' || digits_text(d)[0] == '.',
        forall|i: int|
            0 <= i < digits_text(d).len() ==> '0' <= #[trigger] digits_text(d)[i] <= '9'
                || digits_text(d)[i] == '.',
{
    let m = digits_text(d);
    let p = d.whole.len() as int;
    lemma_row(d.whole);
    lemma_row(d.fraction);
    assert forall|i: int| 0 <= i < m.len() implies '0' <= #[trigger] m[i] <= '9' || m[i] == '.' by {
        if i < p {
            assert(m[i] == d.whole[i]);
        } else if d.point && i > p {
            assert(m[i] == d.fraction[i - p - 1]);
        }
    }
    if d.point {
        assert(m[p] == '.');
        assert(m.take(p) =~= d.whole);
        assert(m.skip(p + 1) =~= d.fraction);
    } else {
        assert(m =~= d.whole);
    }
    assert('0' <= m[0] <= '9' || m[0] == '.');
}

/// The exponent of a literal.
proof fn lemma_power(e: char, sign: Seq<char>, digits: Seq<char>)
    requires
        e == 'e' || e == 'E',
        is_sign(sign),
        digits.len() > 0,
        forms::is_row(digits),
    ensures
        number::is_exponent(seq![e] + sign + digits),
{
    let s = seq![e] + sign + digits;
    let rest = sign + digits;
    lemma_row(digits);
    assert(s.skip(1) =~= rest);
    if sign.len() > 0 {
        assert(rest[0] == sign[0]);
        assert(rest.skip(1) =~= digits);
    } else {
        assert(rest =~= digits);
        assert('0' <= digits[0] <= '9');
    }
}

/// A literal is decimal, and ends in no letter.
#[verifier::rlimit(40)]
proof fn lemma_literal(d: Decimal)
    requires
        is_literal(d),
    ensures
        number::is_decimal(literal_text(d)),
        literal_text(d).len() > 0,
        ends_plainly(literal_text(d)),
        literal_text(d)[0] != '#',
        !text::is_space(literal_text(d)[0]),
{
    let s = literal_text(d);
    let m = digits_text(d);
    let x = power_text(d.power);
    let body = m + x;
    lemma_mantissa(d);
    assert(s =~= d.sign + body);
    if d.sign.len() > 0 {
        assert(s[0] == d.sign[0]);
        assert(s.skip(1) =~= body);
    } else {
        assert(s =~= body);
        assert(s[0] == m[0]);
    }
    assert(number::without_sign(s) == body);
    match d.power {
        None => {
            assert(body =~= m);
            assert(s[s.len() - 1] == m[m.len() - 1]);
        },
        Some((e, sign, digits)) => {
            lemma_power(e, sign, digits);
            assert(body.take(m.len() as int) =~= m);
            assert(body.skip(m.len() as int) =~= x);
            assert(s[s.len() - 1] == digits[digits.len() - 1]);
            assert('0' <= digits[digits.len() - 1] <= '9');
        },
    }
}

/// A decimal literal is kept character for character, with its sign, its point and
/// its exponent.
pub proof fn law_decimal_kept(d: Decimal)
    requires
        is_literal(d),
    ensures
        param::number_value(literal_text(d)) == Ok::<NumberModel, Seq<char>>(
            NumberModel::Decimal(literal_text(d)),
        ),
{
    lemma_literal(d);
    law_nothing_stripped(literal_text(d));
}

/// A unit behind a decimal literal makes no difference, but for a lone `e`.
pub proof fn law_decimal_with_unit(d: Decimal, space: Seq<char>, unit: Seq<char>)
    requires
        is_literal(d),
        blanks::is_blank(space),
        is_word(unit),
        unit.len() > 0,
        space.len() == 0 ==> unit != seq!['e'] && unit != seq!['E'],
    ensures
        param::number_value(literal_text(d) + space + unit) == Ok::<NumberModel, Seq<char>>(
            NumberModel::Decimal(literal_text(d)),
        ),
{
    let n = literal_text(d);
    lemma_literal(d);
    law_unit_stripped(n, space, unit);
    assert((n + space + unit)[0] == n[0]);
}

/// A row of digits, told from the characters.
proof fn lemma_is_row(s: Seq<char>)
    requires
        number::all_digits(s),
    ensures
        forms::is_row(s),
{
    assert forall|i: int| 0 <= i < s.len() implies '0' <= #[trigger] s[i] <= '9' by {
        assert(text::is_digit(s[i]));
    }
}

/// The sign of a text, and what is behind it.
proof fn lemma_sign(s: Seq<char>) -> (sign: Seq<char>)
    ensures
        is_sign(sign),
        s == sign + number::without_sign(s),
{
    if s.len() > 0 && (s[0] == '+' || s[0] == '-') {
        let sign = seq![s[0]];
        assert(s =~= sign + s.skip(1));
        sign
    } else {
        assert(s =~= Seq::<char>::empty() + s);
        seq![]
    }
}

/// A mantissa, taken apart.
proof fn lemma_mantissa_parts(m: Seq<char>) -> (r: (Seq<char>, bool, Seq<char>))
    requires
        number::is_mantissa(m),
    ensures
        forms::is_row(r.0),
        forms::is_row(r.2),
        !r.1 ==> r.2.len() == 0,
        r.0.len() + r.2.len() > 0,
        m == r.0 + point_text(r.1) + r.2,
{
    let none = Seq::<char>::empty();
    if m.len() > 0 && number::all_digits(m) {
        lemma_is_row(m);
        assert(m =~= m + none + none);
        (m, false, none)
    } else {
        let p = choose|p: int|
            0 <= p < m.len() && #[trigger] m[p] == '.' && number::all_digits(m.take(p))
                && number::all_digits(m.skip(p + 1));
        lemma_is_row(m.take(p));
        lemma_is_row(m.skip(p + 1));
        assert(m =~= m.take(p) + seq!['.'] + m.skip(p + 1));
        (m.take(p), true, m.skip(p + 1))
    }
}

/// What is decimal is a literal.
#[verifier::rlimit(40)]
proof fn lemma_decimal_parts(s: Seq<char>) -> (d: Decimal)
    requires
        number::is_decimal(s),
    ensures
        is_literal(d),
        s == literal_text(d),
{
    let sign = lemma_sign(s);
    let body = number::without_sign(s);
    if number::is_mantissa(body) {
        let (whole, point, fraction) = lemma_mantissa_parts(body);
        let d = Decimal { sign, whole, point, fraction, power: None };
        assert(s =~= literal_text(d));
        d
    } else {
        let k = choose|k: int|
            0 <= k < body.len() && number::is_mantissa(#[trigger] body.take(k))
                && number::is_exponent(body.skip(k));
        let x = body.skip(k);
        let (whole, point, fraction) = lemma_mantissa_parts(body.take(k));
        let xs = lemma_sign(x.skip(1));
        let digits = number::without_sign(x.skip(1));
        lemma_is_row(digits);
        let d = Decimal { sign, whole, point, fraction, power: Some((x[0], xs, digits)) };
        assert(x =~= seq![x[0]] + x.skip(1));
        assert(x =~= power_text(d.power));
        assert(body =~= body.take(k) + x);
        assert(s =~= literal_text(d));
        d
    }
}

/// What is stripped is white space and letters.
proof fn lemma_stripped(s: Seq<char>) -> (r: (Seq<char>, Seq<char>))
    ensures
        blanks::is_blank(r.0),
        is_word(r.1),
        s == param::without_unit(s) + r.0 + r.1,
{
    let none = Seq::<char>::empty();
    let end = param::letters_start(s);
    lemma_letters_are_letters(s);
    if param::without_unit(s) == s {
        assert(s =~= s + none + none);
        (none, none)
    } else {
        let space = blanks::lemma_end_padding(s.take(end));
        let unit = s.skip(end);
        assert(s =~= s.take(end) + unit);
        assert(s =~= param::without_unit(s) + space + unit);
        (space, unit)
    }
}

/// The letters at the end of a text are letters.
proof fn lemma_letters_are_letters(s: Seq<char>)
    ensures
        0 <= param::letters_start(s) <= s.len(),
        is_word(s.skip(param::letters_start(s))),
    decreases s.len(),
{
    if s.len() > 0 && text::is_letter(s.last()) {
        let front = s.drop_last();
        lemma_letters_are_letters(front);
        let end = param::letters_start(s);
        let unit = s.skip(end);
        assert forall|i: int| 0 <= i < unit.len() implies is_ascii_letter(#[trigger] unit[i]) by {
            if i < unit.len() - 1 {
                assert(unit[i] == front.skip(end)[i]);
            }
        }
    }
}

/// Whether a text is a decimal literal with a unit behind it or not. A lone `e`
/// behind a digit is no unit.
pub open spec fn is_measure(s: Seq<char>, d: Decimal, space: Seq<char>, unit: Seq<char>) -> bool {
    &&& is_literal(d)
    &&& blanks::is_blank(space)
    &&& is_word(unit)
    &&& space.len() == 0 && (unit == seq!['e'] || unit == seq!['E']) ==> !ends_in_digit(
        literal_text(d),
    )
    &&& s == literal_text(d) + space + unit
}

/// Without a `#` in front, only decimal literals are numbers, with a unit or not,
/// and the value is the literal. Everything else is refused.
#[verifier::rlimit(40)]
pub proof fn law_only_decimals(s: Seq<char>)
    requires
        s.len() > 0 ==> s[0] != '#' && !text::is_space(s[0]),
    ensures
        match param::number_value(s) {
            Ok(NumberModel::Decimal(n)) => exists|d: Decimal, space: Seq<char>, unit: Seq<char>|
                #[trigger] is_measure(s, d, space, unit) && n == literal_text(d),
            Ok(NumberModel::Integer(_)) => false,
            Err(message) => message == (if s.len() == 0 {
                "cannot parse float from empty string"@
            } else {
                "invalid float literal"@
            }),
        },
{
    let n = param::without_unit(s);
    let (space, unit) = lemma_stripped(s);
    assert(n.len() > 0 ==> n[0] == s[0]);
    if s.len() > 0 && n.len() == 0 {
        let end = param::letters_start(s);
        lemma_letters_are_letters(s);
        if n != s {
            assert(s.take(end)[0] == s[0]);
            lemma_trim_keeps(s.take(end));
        }
    }
    if number::is_decimal(n) {
        let d = lemma_decimal_parts(n);
        if space.len() == 0 && (unit == seq!['e'] || unit == seq!['E']) && ends_in_digit(n) {
            assert(s[s.len() - 1] == unit[0]);
            assert(s[s.len() - 2] == n[n.len() - 1]);
            law_nothing_stripped(s);
        }
        assert(is_measure(s, d, space, unit));
    }
}

/// A text that starts with something else than white space is not blank.
proof fn lemma_trim_keeps(s: Seq<char>)
    requires
        s.len() > 0,
        !text::is_space(s[0]),
    ensures
        text::trim_end(s).len() > 0,
{
    blanks::lemma_trim_end_keeps(s);
}

/// The worth of a digit: the letters follow the decimal digits, in either case.
pub open spec fn worth(c: char) -> int {
    if '0' <= c <= '9' {
        c as int - '0' as int
    } else if 'a' <= c <= 'z' {
        c as int - 'a' as int + 10
    } else if 'A' <= c <= 'Z' {
        c as int - 'A' as int + 10
    } else {
        99
    }
}

/// Whether a text is made of digits of a radix.
pub open spec fn is_radix_row(s: Seq<char>, radix: nat) -> bool {
    forall|i: int| 0 <= i < s.len() ==> worth(#[trigger] s[i]) < radix
}

/// The worth of a row of digits in a radix.
pub open spec fn radix_worth(s: Seq<char>, radix: nat) -> int
    decreases s.len(),
{
    if s.len() == 0 {
        0
    } else {
        radix_worth(s.drop_last(), radix) * radix + worth(s.last())
    }
}

/// The two ways to value digits agree.
proof fn lemma_radix_worth(s: Seq<char>, radix: nat)
    requires
        is_radix_row(s, radix),
        radix <= 36,
    ensures
        values::place_value(s, radix) == radix_worth(s, radix),
        values::in_radix(s, radix),
        radix_worth(s, radix) >= 0,
    decreases s.len(),
{
    if s.len() > 0 {
        let front = s.drop_last();
        assert forall|i: int| 0 <= i < front.len() implies worth(#[trigger] front[i]) < radix by {
            assert(front[i] == s[i]);
        }
        lemma_radix_worth(front, radix);
        assert(worth(s[s.len() - 1]) < radix);
    }
    assert forall|i: int| 0 <= i < s.len() implies number::digit_value(
        #[trigger] s[i],
        radix,
    ) is Some by {
        assert(worth(s[i]) < radix);
    }
}

/// The sign of an integer.
pub open spec fn plus_text(plus: bool) -> Seq<char> {
    if plus {
        seq!['+']
    } else {
        seq![]
    }
}

/// An integer is read as the worth of its digits, with a `+` or without, if that is
/// at most `max`, and is too large otherwise.
pub proof fn law_integer_read(plus: bool, digits: Seq<char>, radix: nat, max: nat)
    requires
        1 <= radix <= 36,
        digits.len() > 0,
        is_radix_row(digits, radix),
    ensures
        number::unsigned_value(plus_text(plus) + digits, radix, max) == (if radix_worth(
            digits,
            radix,
        ) <= max {
            Ok(radix_worth(digits, radix) as nat)
        } else {
            Err(IntFault::TooLarge)
        }),
{
    let s = plus_text(plus) + digits;
    lemma_radix_worth(digits, radix);
    values::law_integer_value(s, radix, max);
    if plus {
        assert(s.skip(1) =~= digits);
    } else {
        assert(s =~= digits);
        assert(worth(digits[0]) < radix);
    }
    lemma_only_too_large(digits, radix, max);
}

/// Digits of the radix are never wrong ones.
proof fn lemma_only_too_large(s: Seq<char>, radix: nat, max: nat)
    requires
        radix <= 36,
        is_radix_row(s, radix),
    ensures
        number::digits_value(s, radix, max) matches Err(e) ==> e == IntFault::TooLarge,
    decreases s.len(),
{
    if s.len() > 0 {
        let front = s.drop_last();
        assert forall|i: int| 0 <= i < front.len() implies worth(#[trigger] front[i]) < radix by {
            assert(front[i] == s[i]);
        }
        lemma_only_too_large(front, radix, max);
        assert(worth(s[s.len() - 1]) < radix);
    }
}

/// The first character that is no digit, or that makes the integer too large,
/// decides what is wrong with it. Nothing is empty, and a sign alone is wrong.
#[verifier::rlimit(40)]
pub proof fn law_integer_faults(
    plus: bool,
    a: Seq<char>,
    c: char,
    rest: Seq<char>,
    radix: nat,
    max: nat,
)
    requires
        1 <= radix <= 36,
        is_radix_row(a, radix),
        radix_worth(a, radix) <= max,
        !plus && a.len() == 0 ==> c != '+',
        worth(c) < radix ==> radix_worth(a.push(c), radix) > max,
    ensures
        number::unsigned_value(plus_text(plus) + a.push(c) + rest, radix, max) == Err::<
            nat,
            IntFault,
        >(
            if worth(c) < radix {
                IntFault::TooLarge
            } else {
                IntFault::InvalidDigit
            },
        ),
        number::unsigned_value(seq![], radix, max) == Err::<nat, IntFault>(IntFault::Empty),
        number::unsigned_value(seq!['+'], radix, max) == Err::<nat, IntFault>(
            IntFault::InvalidDigit,
        ),
{
    let row = a.push(c);
    let digits = row + rest;
    let s = plus_text(plus) + row + rest;
    assert(s =~= plus_text(plus) + digits);
    if plus {
        assert(s.skip(1) =~= digits);
    } else {
        assert(s =~= digits);
        assert(digits[0] == row[0]);
        if a.len() > 0 {
            assert(row[0] == a[0]);
            assert(worth(a[0]) < radix);
        }
    }
    if a.len() > 0 {
        law_integer_read(false, a, radix, max);
        assert(plus_text(false) + a =~= a);
        assert(worth(a[0]) < radix);
    }
    assert(number::digits_value(a, radix, max) == Ok::<nat, IntFault>(
        radix_worth(a, radix) as nat,
    )) by {
        lemma_radix_worth(a, radix);
    }
    assert(row.drop_last() =~= a);
    lemma_radix_worth(a, radix);
    assert(digits.take(row.len() as int) =~= row);
    number::lemma_fault_stays(digits, row.len() as int, radix, max);
}

/// What is said of an integer that is none.
pub open spec fn said_of(fault: IntFault) -> Seq<char> {
    match fault {
        IntFault::Empty => "cannot parse integer from empty string"@,
        IntFault::InvalidDigit => "invalid digit found in string"@,
        IntFault::TooLarge => "number too large to fit in target type"@,
    }
}

/// What digits of a radix are read as.
pub open spec fn read_in(x: Seq<char>, radix: nat) -> Result<NumberModel, Seq<char>> {
    match number::unsigned_value(x, radix, u64::MAX as nat) {
        Ok(v) => Ok(NumberModel::Integer(v as u64)),
        Err(fault) => Err(said_of(fault)),
    }
}

/// Whether a letter behind a `#` tells this radix.
pub open spec fn tells_radix(letter: char, radix: nat) -> bool {
    ||| (letter == 'H' || letter == 'h') && radix == 16
    ||| (letter == 'Q' || letter == 'q') && radix == 8
    ||| (letter == 'B' || letter == 'b') && radix == 2
}

/// A `#H`, `#Q` or `#B` literal is read in its radix, and what is wrong with its
/// digits is what it is refused with. A lone `e` behind octal or binary digits is
/// taken for one.
pub proof fn law_radix_literal(letter: char, x: Seq<char>, radix: nat)
    requires
        tells_radix(letter, radix),
        x.len() > 0,
        ends_plainly(x) || (radix != 16 && x.len() >= 2 && (x[x.len() - 1] == 'e' || x[x.len() - 1]
            == 'E') && '0' <= x[x.len() - 2] <= '9'),
    ensures
        param::number_value(seq!['#', letter] + x) == read_in(x, radix),
{
    let s = seq!['#', letter] + x;
    assert(s[s.len() - 1] == x[x.len() - 1]);
    if x.len() >= 2 {
        assert(s[s.len() - 2] == x[x.len() - 2]);
    }
    law_nothing_stripped(s);
    assert(s.skip(2) =~= x);
    assert(s[0] == '#' && s[1] == letter);
    if param::starts_hex(s) {
        let sign = param::sign_len(x);
        let end = param::hex_end(x, sign);
        lemma_hex_within(x, sign);
        let behind = x.skip(end);
        if end < x.len() {
            assert(behind.len() > 0);
            assert(behind[behind.len() - 1] == x[x.len() - 1]);
            lemma_no_unit(behind);
        } else {
            assert(x.take(end) =~= x);
        }
    }
}

/// Hexadecimal digits end within the text.
proof fn lemma_hex_within(s: Seq<char>, i: int)
    requires
        0 <= i <= s.len(),
    ensures
        i <= param::hex_end(s, i) <= s.len(),
    decreases s.len() - i,
{
    if i < s.len() {
        lemma_hex_within(s, i + 1);
    }
}

/// What ends in neither a letter nor white space is no unit.
proof fn lemma_no_unit(s: Seq<char>)
    requires
        s.len() > 0,
        ends_plainly(s),
    ensures
        !param::is_unit(s),
    decreases s.len(),
{
    if text::is_space(s[0]) {
        let rest = s.drop_first();
        assert(s.len() > 1);
        assert(rest[rest.len() - 1] == s[s.len() - 1]);
        lemma_no_unit(rest);
        assert(text::trim_start(s) == text::trim_start(rest));
    } else {
        let letters = text::trim_start(s);
        assert(letters == s);
        assert(!text::is_letter(letters[letters.len() - 1]));
    }
}

/// A hexadecimal literal has the worth of its digits, letters among them, with a
/// sign or not, and with a unit behind it or not, which starts with no digit.
#[verifier::rlimit(40)]
pub proof fn law_hex_worth(
    letter: char,
    plus: bool,
    digits: Seq<char>,
    space: Seq<char>,
    unit: Seq<char>,
)
    requires
        letter == 'H' || letter == 'h',
        digits.len() > 0,
        is_radix_row(digits, 16),
        blanks::is_blank(space),
        is_word(unit),
        space.len() == 0 && unit.len() > 0 ==> worth(unit[0]) >= 16,
    ensures
        param::number_value(seq!['#', letter] + plus_text(plus) + digits + space + unit) == (
        if radix_worth(digits, 16) <= u64::MAX {
            Ok(NumberModel::Integer(radix_worth(digits, 16) as u64))
        } else {
            Err("number too large to fit in target type"@)
        }),
{
    let sign = plus_text(plus);
    let behind = space + unit;
    let body = sign + digits + behind;
    let s = seq!['#', letter] + sign + digits + space + unit;
    let from = sign.len() as int;
    let end = from + digits.len();
    assert(s.skip(2) =~= body);
    assert(s[0] == '#' && s[1] == letter);
    assert(worth(digits[0]) < 16);
    assert(body[from] == digits[0]);
    assert(param::sign_len(body) == from) by {
        if plus {
            assert(body[0] == '+');
        }
    }
    assert(behind.len() > 0 ==> worth(behind[0]) >= 16) by {
        if space.len() > 0 {
            assert(text::is_space(space[0]));
            assert(behind[0] == space[0]);
        } else if unit.len() > 0 {
            assert(behind[0] == unit[0]);
        }
    }
    lemma_hex_ends(body, from, end);
    assert(body.skip(end) =~= behind);
    assert(body.take(end) =~= sign + digits);
    lemma_unit(space, unit);
    law_integer_read(plus, digits, 16, u64::MAX as nat);
    lemma_radix_worth(digits, 16);
}

/// Where hexadecimal digits end, told from their worth.
proof fn lemma_hex_ends(s: Seq<char>, i: int, end: int)
    requires
        0 <= i <= end <= s.len(),
        forall|j: int| i <= j < end ==> worth(#[trigger] s[j]) < 16,
        end < s.len() ==> worth(s[end]) >= 16,
    ensures
        param::hex_end(s, i) == end,
    decreases end - i,
{
    if i < end {
        assert(worth(s[i]) < 16);
        lemma_hex_ends(s, i + 1, end);
    }
}

/// White space and letters are a unit.
proof fn lemma_unit(space: Seq<char>, unit: Seq<char>)
    requires
        blanks::is_blank(space),
        is_word(unit),
    ensures
        param::is_unit(space + unit),
{
    blanks::lemma_trim_start_blank(space, unit);
    assert(text::trim_start(unit) == unit) by {
        if unit.len() > 0 {
            assert(is_ascii_letter(unit[0]));
        }
    }
    assert forall|i: int| 0 <= i < unit.len() implies text::is_letter(#[trigger] unit[i]) by {
        assert(is_ascii_letter(unit[i]));
    }
}

/// A unit behind an octal or binary literal makes no difference, but for a lone
/// `e`.
pub proof fn law_radix_unit(
    letter: char,
    x: Seq<char>,
    radix: nat,
    space: Seq<char>,
    unit: Seq<char>,
)
    requires
        tells_radix(letter, radix),
        radix != 16,
        x.len() > 0,
        ends_plainly(x),
        blanks::is_blank(space),
        is_word(unit),
        unit.len() > 0,
        space.len() == 0 && (unit == seq!['e'] || unit == seq!['E']) ==> !ends_in_digit(x),
    ensures
        param::number_value(seq!['#', letter] + x + space + unit) == param::number_value(
            seq!['#', letter] + x,
        ),
{
    let n = seq!['#', letter] + x;
    assert(n[n.len() - 1] == x[x.len() - 1]);
    law_unit_stripped(n, space, unit);
    law_nothing_stripped(n);
    assert((n + space + unit)[0] == '#');
    assert((n + space + unit)[1] == letter);
    assert(n[1] == letter);
}

/// A `#` with another letter behind it, or none, starts no number.
#[verifier::rlimit(40)]
pub proof fn law_no_radix(s: Seq<char>)
    requires
        s.len() > 0,
        s[0] == '#',
        s.len() >= 2 ==> s[1] != 'H' && s[1] != 'h' && s[1] != 'Q' && s[1] != 'q' && s[1] != 'B'
            && s[1] != 'b',
    ensures
        param::number_value(s) == Err::<NumberModel, Seq<char>>("invalid float literal"@),
{
    let n = param::without_unit(s);
    let (space, unit) = lemma_stripped(s);
    let end = param::letters_start(s);
    lemma_letters_are_letters(s);
    assert(n.len() > 0) by {
        if n != s {
            assert(s.take(end)[0] == s[0]);
            lemma_trim_keeps(s.take(end));
        }
    }
    assert(n[0] == s[0]);
    if n.len() >= 2 {
        assert(n[1] == s[1]);
    }
    if number::is_decimal(n) {
        let d = lemma_decimal_parts(n);
        lemma_literal(d);
    }
}

/// `ON` and `1` are true, `OFF` and `0` are false, in either case, and nothing else
/// is a truth value.
pub proof fn law_truth_values(raw: Seq<char>)
    ensures
        ({
            let s = text::trimmed(raw);
            let on = s.len() == 2 && (s[0] == 'o' || s[0] == 'O') && (s[1] == 'n' || s[1] == 'N');
            let off = s.len() == 3 && (s[0] == 'o' || s[0] == 'O') && (s[1] == 'f' || s[1] == 'F')
                && (s[2] == 'f' || s[2] == 'F');
            let one = s.len() == 1 && s[0] == '1';
            let zero = s.len() == 1 && s[0] == '0';
            param::param_value(ParamKind::Bool, raw) == (if on || one {
                Ok(ParamModel::Bool(true))
            } else if off || zero {
                Ok(ParamModel::Bool(false))
            } else {
                Err("invalid boolean: "@ + s)
            })
        }),
{
    let s = text::trimmed(raw);
    let word = text::upper(s);
    assert(word == seq!['O', 'N'] <==> word.len() == 2 && word[0] == 'O' && word[1] == 'N') by {
        if word.len() == 2 && word[0] == 'O' && word[1] == 'N' {
            assert(word =~= seq!['O', 'N']);
        }
    }
    assert(word == seq!['O', 'F', 'F'] <==> word.len() == 3 && word[0] == 'O' && word[1] == 'F'
        && word[2] == 'F') by {
        if word.len() == 3 && word[0] == 'O' && word[1] == 'F' && word[2] == 'F' {
            assert(word =~= seq!['O', 'F', 'F']);
        }
    }
    assert(word == seq!['1'] <==> word.len() == 1 && word[0] == '1') by {
        if word.len() == 1 && word[0] == '1' {
            assert(word =~= seq!['1']);
        }
    }
    assert(word == seq!['0'] <==> word.len() == 1 && word[0] == '0') by {
        if word.len() == 1 && word[0] == '0' {
            assert(word =~= seq!['0']);
        }
    }
}

/// A string loses one pair of the same quotation marks around it, and no other
/// character.
pub proof fn law_string_values(mark: char, s: Seq<char>)
    ensures
        quoting::is_mark(mark) ==> param::param_value(ParamKind::Str, quoting::quoted(mark, s))
            == Ok::<ParamModel, Seq<char>>(ParamModel::String(s)),
        (s.len() < 2 || !quoting::is_mark(s[0]) || s[s.len() - 1] != s[0]) && text::trimmed(s) == s
            ==> param::param_value(ParamKind::Str, s) == Ok::<ParamModel, Seq<char>>(
            ParamModel::String(s),
        ),
{
    if quoting::is_mark(mark) {
        let q = quoting::quoted(mark, s);
        assert(q[0] == mark && q[q.len() - 1] == mark);
        blanks::lemma_already_trimmed(q);
        assert(q.subrange(1, q.len() - 1) =~= s);
    }
}

/// White space around a parameter makes no difference.
pub proof fn law_space_around(
    kind: ParamKind,
    before: Seq<char>,
    raw: Seq<char>,
    behind: Seq<char>,
)
    requires
        blanks::is_blank(before),
        blanks::is_blank(behind),
    ensures
        param::param_value(kind, before + raw + behind) == param::param_value(kind, raw),
{
    blanks::lemma_trimmed_padded(before, raw, behind);
}

/// A numeric parameter is the number that its text spells.
pub proof fn law_numeric_parameter(s: Seq<char>)
    requires
        text::trimmed(s) == s,
    ensures
        param::param_value(ParamKind::Num, s) == (match param::number_value(s) {
            Ok(n) => Ok(ParamModel::Numeric(n)),
            Err(message) => Err(message),
        }),
{
}

/// Whether a text starts with a hexadecimal digit, behind a `+` or not.
pub open spec fn starts_with_hex(x: Seq<char>) -> bool {
    ||| x.len() > 0 && worth(x[0]) < 16
    ||| x.len() > 1 && x[0] == '+' && worth(x[1]) < 16
}

/// Hexadecimal digits at the start, told from their worth.
proof fn lemma_starts_hex(letter: char, x: Seq<char>)
    ensures
        param::starts_hex(seq!['#', letter] + x) <==> (letter == 'H' || letter == 'h')
            && starts_with_hex(x),
{
    let s = seq!['#', letter] + x;
    let sign = param::sign_len(x);
    assert(s.skip(2) =~= x);
    assert(s[0] == '#' && s[1] == letter);
    if sign < x.len() && number::digit_value(x[sign], 16) is Some {
        lemma_hex_within(x, sign + 1);
    }
}

/// Behind white space a unit is stripped from every `#H`, `#Q` or `#B` literal, also
/// from one that has no digits.
pub proof fn law_radix_spaced(
    letter: char,
    x: Seq<char>,
    radix: nat,
    space: Seq<char>,
    unit: Seq<char>,
)
    requires
        tells_radix(letter, radix),
        x.len() > 0 ==> !text::is_space(x[x.len() - 1]),
        radix == 16 ==> !starts_with_hex(x),
        blanks::is_blank(space),
        space.len() > 0,
        is_word(unit),
        unit.len() > 0,
    ensures
        param::number_value(seq!['#', letter] + x + space + unit) == read_in(x, radix),
{
    let n = seq!['#', letter] + x;
    let s = n + space + unit;
    let behind = x + space + unit;
    if x.len() > 0 {
        assert(n[n.len() - 1] == x[x.len() - 1]);
    }
    law_unit_stripped(n, space, unit);
    assert(s =~= seq!['#', letter] + behind);
    lemma_starts_hex(letter, behind);
    assert(!(radix == 16 && starts_with_hex(behind))) by {
        if radix == 16 && starts_with_hex(behind) {
            assert(text::is_space(space[0]));
            if x.len() == 0 {
                assert(behind[0] == space[0]);
            } else {
                assert(behind[0] == x[0]);
                if x.len() > 1 {
                    assert(behind[1] == x[1]);
                } else {
                    assert(behind[1] == space[0]);
                }
            }
        }
    }
    assert(n.skip(2) =~= x);
    assert(n[0] == '#' && n[1] == letter);
}

/// Without hexadecimal digits behind a `#H`, a unit makes no difference to what
/// starts with a `#`.
pub proof fn law_unit_behind_number_sign(n: Seq<char>, space: Seq<char>, unit: Seq<char>)
    requires
        n.len() > 0,
        n[0] == '#',
        ends_plainly(n),
        blanks::is_blank(space),
        is_word(unit),
        unit.len() > 0,
        space.len() == 0 && (unit == seq!['e'] || unit == seq!['E']) ==> !ends_in_digit(n),
        ({
            let s = n + space + unit;
            s.len() >= 2 && (s[1] == 'H' || s[1] == 'h') ==> !starts_with_hex(s.skip(2))
        }),
    ensures
        param::number_value(n + space + unit) == param::number_value(n),
{
    let s = n + space + unit;
    law_unit_stripped(n, space, unit);
    law_nothing_stripped(n);
    assert(s[0] == '#');
    if s.len() >= 2 {
        assert(s =~= seq!['#', s[1]] + s.skip(2));
        lemma_starts_hex(s[1], s.skip(2));
    }
    if n.len() >= 2 {
        let x = n.skip(2);
        let y = s.skip(2);
        assert(s[1] == n[1]);
        assert(n =~= seq!['#', n[1]] + x);
        lemma_starts_hex(n[1], x);
        if starts_with_hex(x) {
            assert(y[0] == x[0]);
            if x.len() > 1 {
                assert(y[1] == x[1]);
            }
        }
    }
}

/// Hexadecimal digits with something behind them that is no unit are refused for
/// it, whole.
pub proof fn law_hex_refused(letter: char, x: Seq<char>, k: int)
    requires
        letter == 'H' || letter == 'h',
        starts_with_hex(x),
        0 < k < x.len(),
        x[0] == '+' ==> k > 1,
        forall|i: int| 0 <= i < k ==> worth(#[trigger] x[i]) < 16 || (i == 0 && x[0] == '+'),
        worth(x[k]) >= 16,
        forall|space: Seq<char>, unit: Seq<char>|
            blanks::is_blank(space) && is_word(unit) ==> x.skip(k) != #[trigger] (space + unit),
    ensures
        param::number_value(seq!['#', letter] + x) == read_in(x, 16),
{
    let s = seq!['#', letter] + x;
    let sign = param::sign_len(x);
    let behind = x.skip(k);
    lemma_starts_hex(letter, x);
    assert(s.skip(2) =~= x);
    assert forall|j: int| sign <= j < k implies worth(#[trigger] x[j]) < 16 by {}
    lemma_hex_ends(x, sign, k);
    if param::is_unit(behind) {
        let space = blanks::lemma_front_padding(behind);
        let unit = text::trim_start(behind);
        assert(is_word(unit)) by {
            assert forall|i: int| 0 <= i < unit.len() implies is_ascii_letter(
                #[trigger] unit[i],
            ) by {
                assert(text::is_letter(unit[i]));
            }
        }
        assert(behind == space + unit);
    }
}

/// The decimal literals are exactly the texts of these parts.
pub proof fn law_decimal_grammar(s: Seq<char>)
    ensures
        number::is_decimal(s) <==> exists|d: Decimal|
            #[trigger] is_literal(d) && s == literal_text(d),
{
    if number::is_decimal(s) {
        let d = lemma_decimal_parts(s);
        assert(is_literal(d) && s == literal_text(d));
    }
    if exists|d: Decimal| #[trigger] is_literal(d) && s == literal_text(d) {
        let d = choose|d: Decimal| #[trigger] is_literal(d) && s == literal_text(d);
        lemma_literal(d);
    }
}

} // verus!
