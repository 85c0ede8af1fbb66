//! The values of parameters.

use crate::laws::blanks;
use crate::line;
use crate::number::IntFault;
use crate::number;
use crate::param::ParamModel;
use crate::param;
use crate::pattern::ParamKind;
use crate::text;
use vstd::prelude::*;

verus! {

/// A string in quotes of either kind keeps every character between them.
pub proof fn law_quoted_string(quote: char, s: Seq<char>)
    requires
        line::is_quote(quote),
    ensures
        param::param_value(ParamKind::Str, seq![quote] + s + seq![quote]) == Ok::<
            ParamModel,
            Seq<char>,
        >(ParamModel::String(s)),
{
    let raw = seq![quote] + s + seq![quote];
    blanks::lemma_already_trimmed(raw);
    assert(raw.subrange(1, raw.len() - 1) =~= s);
}

/// The value of a row of digits in a place-value system.
pub open spec fn place_value(s: Seq<char>, radix: nat) -> nat
    decreases s.len(),
{
    if s.len() == 0 {
        0
    } else {
        place_value(s.drop_last(), radix) * radix + (match number::digit_value(s.last(), radix) {
            Some(d) => d,
            None => 0,
        })
    }
}

/// Whether a text is made of digits of the radix.
pub open spec fn in_radix(s: Seq<char>, radix: nat) -> bool {
    forall|i: int| 0 <= i < s.len() ==> number::digit_value(#[trigger] s[i], radix) is Some
}

/// The digits of an integer that was read.
proof fn lemma_digits_are_digits(s: Seq<char>, radix: nat, max: nat)
    ensures
        number::digits_value(s, radix, max) is Ok ==> forall|i: int|
            0 <= i < s.len() ==> number::digit_value(#[trigger] s[i], radix) is Some,
    decreases s.len(),
{
    if s.len() > 0 && number::digits_value(s, radix, max) is Ok {
        lemma_digits_are_digits(s.drop_last(), radix, max);
        assert forall|i: int| 0 <= i < s.len() implies number::digit_value(
            #[trigger] s[i],
            radix,
        ) is Some by {
            if i < s.len() - 1 {
                assert(s[i] == s.drop_last()[i]);
            }
        }
    }
}

/// A row of digits is read as its place value, if that is not too large.
proof fn lemma_digits_value(s: Seq<char>, radix: nat, max: nat)
    requires
        radix >= 1,
    ensures
        match number::digits_value(s, radix, max) {
            Ok(v) => in_radix(s, radix) && v == place_value(s, radix) && v <= max,
            Err(IntFault::TooLarge) => in_radix(s, radix) ==> place_value(s, radix) > max,
            Err(_) => !in_radix(s, radix),
        },
    decreases s.len(),
{
    if s.len() > 0 {
        let front = s.drop_last();
        lemma_digits_value(front, radix, max);
        lemma_digits_are_digits(s, radix, max);
        if in_radix(s, radix) {
            assert(in_radix(front, radix)) by {
                assert forall|i: int| 0 <= i < front.len() implies number::digit_value(
                    #[trigger] front[i],
                    radix,
                ) is Some by {
                    assert(front[i] == s[i]);
                }
            }
            assert(number::digit_value(s[s.len() - 1], radix) is Some);
            let v = place_value(front, radix);
            assert(v * radix >= v) by (nonlinear_arith)
                requires
                    radix >= 1,
                    v >= 0,
            ;
        }
    }
}

/// An unsigned integer is read exactly when it is an optional `+` and at least
/// one digit with a place value of at most `max`, and its value is that.
pub proof fn law_integer_value(s: Seq<char>, radix: nat, max: nat)
    requires
        radix >= 1,
    ensures
        ({
            let digits = if s.len() > 0 && s[0] == '+' {
                s.skip(1)
            } else {
                s
            };
            match number::unsigned_value(s, radix, max) {
                Ok(v) => digits.len() > 0 && in_radix(digits, radix) && place_value(digits, radix)
                    == v && v <= max,
                Err(_) => digits.len() == 0 || !in_radix(digits, radix) || place_value(
                    digits,
                    radix,
                ) > max,
            }
        }),
{
    let digits = if s.len() > 0 && s[0] == '+' {
        s.skip(1)
    } else {
        s
    };
    lemma_digits_value(digits, radix, max);
}

/// Whether a text is made of ASCII letters.
pub open spec fn all_letters(s: Seq<char>) -> bool {
    forall|i: int| 0 <= i < s.len() ==> text::is_letter(#[trigger] s[i])
}

/// The letters behind a text that ends in none start behind it.
proof fn lemma_letters_behind(s: Seq<char>, unit: Seq<char>)
    requires
        all_letters(unit),
        s.len() > 0 ==> !text::is_letter(s.last()),
    ensures
        param::letters_start(s + unit) == s.len(),
    decreases unit.len(),
{
    let whole = s + unit;
    if unit.len() == 0 {
        assert(whole =~= s);
    } else {
        let front = unit.drop_last();
        assert(text::is_letter(unit[unit.len() - 1]));
        assert(whole.drop_last() =~= s + front);
        assert(all_letters(front)) by {
            assert forall|i: int| 0 <= i < front.len() implies text::is_letter(
                #[trigger] front[i],
            ) by {
                assert(front[i] == unit[i]);
            }
        }
        lemma_letters_behind(s, front);
    }
}

/// A row of hexadecimal digits ends behind its start exactly when there is one.
proof fn lemma_hex_start(s: Seq<char>, i: int)
    requires
        0 <= i,
    ensures
        i <= param::hex_end(s, i),
        i < param::hex_end(s, i) <==> i < s.len() && number::digit_value(s[i], 16) is Some,
    decreases s.len() - i,
{
    if i < s.len() && number::digit_value(s[i], 16) is Some {
        lemma_hex_start(s, i + 1);
    }
}

/// A unit behind a number makes no difference, with or without white space
/// between them, unless it could be read as part of the number: a lone `e` behind
/// a digit, or letters behind the digits of a `#H` literal.
pub proof fn law_unit_is_ignored(n: Seq<char>, space: Seq<char>, unit: Seq<char>)
    requires
        n.len() > 0 && !text::is_letter(n.last()) && !text::is_space(n.last()),
        blanks::is_blank(space),
        unit.len() > 0 && all_letters(unit),
        space.len() == 0 && (unit == seq!['e'] || unit == seq!['E']) ==> !text::is_digit(n.last()),
        !param::starts_hex(n + space + unit),
    ensures
        param::without_unit(n + space + unit) == n,
        param::number_value(n + space + unit) == param::number_value(n),
{
    let s = n + space;
    let whole = s + unit;
    assert(!text::is_letter(s.last())) by {
        if space.len() > 0 {
            assert(text::is_space(space[space.len() - 1]));
            assert(s.last() == space[space.len() - 1]);
        } else {
            assert(s =~= n);
        }
    }
    lemma_letters_behind(s, unit);
    assert(whole.take(s.len() as int) =~= s);
    blanks::lemma_trim_end_blank(n, space);
    assert(text::trim_end(n) == n);
    if s.len() + 1 == whole.len() && (whole[s.len() as int] == 'e' || whole[s.len() as int] == 'E')
        && text::is_digit(whole[s.len() - 1]) {
        if space.len() > 0 {
            assert(whole[s.len() - 1] == space[space.len() - 1]);
            assert(text::is_space(space[space.len() - 1]));
        } else {
            assert(whole[s.len() - 1] == n.last());
            assert(unit =~= seq![unit[0]]);
            assert(whole[s.len() as int] == unit[0]);
        }
    }
    lemma_letters_behind(n, seq![]);
    assert(n + Seq::<char>::empty() =~= n);
    assert(param::without_unit(n) == n);
    if param::starts_hex(n) {
        let body = n.skip(2);
        let longer = whole.skip(2);
        let i = param::sign_len(body);
        lemma_hex_start(body, i);
        assert(whole[0] == n[0] && whole[1] == n[1]);
        assert(longer[0] == body[0] && longer[i] == body[i]);
        lemma_hex_start(longer, i);
    }
}

/// Where a row of hexadecimal digits ends.
proof fn lemma_hex_end(digits: Seq<char>, behind: Seq<char>, i: int)
    requires
        in_radix(digits, 16),
        behind.len() > 0 ==> number::digit_value(behind[0], 16) is None,
        0 <= i <= digits.len(),
    ensures
        param::hex_end(digits + behind, i) == digits.len(),
    decreases digits.len() - i,
{
    let whole = digits + behind;
    if i < digits.len() {
        assert(whole[i] == digits[i]);
        lemma_hex_end(digits, behind, i + 1);
    } else if behind.len() > 0 {
        assert(whole[i] == behind[0]);
    }
}

/// A `#H` literal has the value of its hexadecimal digits, letters among them
/// included, with or without a unit behind it.
pub proof fn law_hex_literal(
    letter: char,
    digits: Seq<char>,
    space: Seq<char>,
    unit: Seq<char>,
)
    requires
        letter == 'H' || letter == 'h',
        digits.len() > 0,
        in_radix(digits, 16),
        blanks::is_blank(space),
        all_letters(unit),
        space.len() > 0 || unit.len() == 0 || number::digit_value(unit[0], 16) is None,
    ensures
        param::number_value(seq!['#', letter] + digits + space + unit) == param::radix_value(
            digits,
            16,
        ),
{
    let s = seq!['#', letter] + digits + space + unit;
    let behind = space + unit;
    let body = digits + behind;
    assert(s.skip(2) =~= body);
    assert(behind.len() > 0 ==> number::digit_value(behind[0], 16) is None) by {
        if space.len() > 0 {
            assert(text::is_space(space[0]));
            assert(behind[0] == space[0]);
        } else if unit.len() > 0 {
            assert(behind[0] == unit[0]);
        }
    }
    assert(number::digit_value(digits[0], 16) is Some);
    assert(body[0] == digits[0]);
    lemma_hex_end(digits, behind, 0);
    assert(body.skip(digits.len() as int) =~= behind);
    assert(body.take(digits.len() as int) =~= digits);
    blanks::lemma_trim_start_blank(space, unit);
    assert(text::trim_start(unit) == unit) by {
        if unit.len() > 0 {
            assert(text::is_letter(unit[0]));
        }
    }
    assert(param::is_unit(behind));
}

/// A `#Q` or `#B` literal has the value of its octal or binary digits.
pub proof fn law_octal_and_binary_literals(letter: char, digits: Seq<char>, radix: nat)
    requires
        (letter == 'Q' || letter == 'q') && radix == 8 || (letter == 'B' || letter == 'b') && radix
            == 2,
        digits.len() > 0,
        in_radix(digits, radix),
    ensures
        param::number_value(seq!['#', letter] + digits) == param::radix_value(digits, radix),
{
    let s = seq!['#', letter] + digits;
    assert(s.last() == digits[digits.len() - 1]);
    assert(number::digit_value(digits[digits.len() - 1], radix) is Some);
    assert(param::letters_start(s) == s.len());
    assert(s.skip(2) =~= digits);
    assert(s[0] == '#' && s[1] == letter);
}

} // verus!
