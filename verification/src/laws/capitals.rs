//! Lines that differ in case only.

use crate::command;
use crate::command::{CommandModel, StepModel};
use crate::laws::blanks;
use crate::laws::case;
use crate::line;
use crate::number;
use crate::param;
use crate::param::{NumberModel, ParamModel};
use crate::pattern::{EntryModel, ParamKind};
use crate::text;
use vstd::prelude::*;

verus! {

/// A number with its literal in upper case.
pub open spec fn upper_number(n: NumberModel) -> NumberModel {
    match n {
        NumberModel::Integer(v) => NumberModel::Integer(v),
        NumberModel::Decimal(s) => NumberModel::Decimal(text::upper(s)),
    }
}

/// A parameter with its text in upper case.
pub open spec fn upper_param(p: ParamModel) -> ParamModel {
    match p {
        ParamModel::Numeric(n) => ParamModel::Numeric(upper_number(n)),
        ParamModel::Bool(v) => ParamModel::Bool(v),
        ParamModel::String(s) => ParamModel::String(text::upper(s)),
    }
}

/// A command with the text of its parameters in upper case. Its index and its
/// suffix values are the same.
pub open spec fn upper_command(c: CommandModel) -> CommandModel {
    CommandModel {
        index: c.index,
        params: Seq::new(c.params.len(), |i: int| upper_param(c.params[i])),
        suffixes: c.suffixes,
    }
}

/// Commands with the text of their parameters in upper case.
pub open spec fn upper_commands(commands: Seq<CommandModel>) -> Seq<CommandModel> {
    Seq::new(commands.len(), |i: int| upper_command(commands[i]))
}

/// Texts in upper case.
pub open spec fn upper_texts(texts: Seq<Seq<char>>) -> Seq<Seq<char>> {
    Seq::new(texts.len(), |i: int| text::upper(texts[i]))
}

/// Case does not change what a character is to a parameter.
proof fn lemma_char(c: char)
    ensures
        text::is_letter(text::upper_char(c)) == text::is_letter(c),
        text::is_digit(text::upper_char(c)) == text::is_digit(c),
        text::is_digit(c) ==> text::upper_char(c) == c,
        line::is_quote(text::upper_char(c)) == line::is_quote(c),
        line::is_quote(c) ==> text::upper_char(c) == c,
        (text::upper_char(c) == ';') == (c == ';'),
        (text::upper_char(c) == '#') == (c == '#'),
        (text::upper_char(c) == '+') == (c == '+'),
        (text::upper_char(c) == '-') == (c == '-'),
        (text::upper_char(c) == '.') == (c == '.'),
        (text::upper_char(c) == 'E') == (c == 'e' || c == 'E'),
        text::upper_char(c) != 'e',
        text::upper_char(text::upper_char(c)) == text::upper_char(c),
{
}

/// Case does not change the value of a digit.
proof fn lemma_digit(c: char, radix: nat)
    ensures
        number::digit_value(text::upper_char(c), radix) == number::digit_value(c, radix),
{
}

/// Upper case of a part is the part of the upper case.
proof fn lemma_part(s: Seq<char>, i: int, j: int)
    requires
        0 <= i <= j <= s.len(),
    ensures
        text::upper(s).subrange(i, j) == text::upper(s.subrange(i, j)),
        text::upper(s).take(j) == text::upper(s.take(j)),
        text::upper(s).skip(i) == text::upper(s.skip(i)),
{
    assert(text::upper(s).subrange(i, j) =~= text::upper(s.subrange(i, j)));
    assert(text::upper(s).take(j) =~= text::upper(s.take(j)));
    assert(text::upper(s).skip(i) =~= text::upper(s.skip(i)));
}

/// Upper case a second time changes nothing.
pub(crate) proof fn lemma_twice(s: Seq<char>)
    ensures
        text::upper(text::upper(s)) == text::upper(s),
{
    assert forall|i: int| 0 <= i < s.len() implies text::upper(text::upper(s))[i] == text::upper(
        s,
    )[i] by {
        lemma_char(s[i]);
    }
    assert(text::upper(text::upper(s)) =~= text::upper(s));
}

/// Trimming keeps to the text.
proof fn lemma_trimmed(s: Seq<char>)
    ensures
        text::trimmed(text::upper(s)) == text::upper(text::trimmed(s)),
{
    case::lemma_upper_trim(s);
    case::lemma_upper_trim(text::trim_start(s));
}

/// Case does not change where the letters at the end start.
proof fn lemma_letters_start(s: Seq<char>)
    ensures
        param::letters_start(text::upper(s)) == param::letters_start(s),
        0 <= param::letters_start(s) <= s.len(),
    decreases s.len(),
{
    if s.len() > 0 {
        lemma_char(s.last());
        lemma_letters_start(s.drop_last());
        assert(text::upper(s).drop_last() =~= text::upper(s.drop_last()));
    }
}

/// Case does not change what is stripped as a unit.
proof fn lemma_without_unit(s: Seq<char>)
    ensures
        param::without_unit(text::upper(s)) == text::upper(param::without_unit(s)),
{
    let end = param::letters_start(s);
    lemma_letters_start(s);
    lemma_part(s, 0, end);
    case::lemma_upper_trim(s.take(end));
    if 0 < end < s.len() {
        lemma_char(s[end]);
        lemma_char(s[end - 1]);
    }
}

/// Case does not change where hexadecimal digits end.
proof fn lemma_hex_end(s: Seq<char>, i: int)
    requires
        0 <= i <= s.len(),
    ensures
        param::hex_end(text::upper(s), i) == param::hex_end(s, i),
        i <= param::hex_end(s, i) <= s.len(),
    decreases s.len() - i,
{
    if i < s.len() {
        lemma_digit(s[i], 16);
        if number::digit_value(s[i], 16) is Some {
            lemma_hex_end(s, i + 1);
        }
    }
}

/// Case does not change what is a unit.
proof fn lemma_is_unit(s: Seq<char>)
    ensures
        param::is_unit(text::upper(s)) == param::is_unit(s),
{
    let letters = text::trim_start(s);
    let upper = text::upper(letters);
    case::lemma_upper_trim(s);
    if param::is_unit(s) {
        assert forall|i: int| 0 <= i < upper.len() implies text::is_letter(#[trigger] upper[i]) by {
            lemma_char(letters[i]);
        }
    }
    if param::is_unit(text::upper(s)) {
        assert forall|i: int| 0 <= i < letters.len() implies text::is_letter(
            #[trigger] letters[i],
        ) by {
            lemma_char(letters[i]);
            assert(text::is_letter(upper[i]));
        }
    }
}

/// Case does not change which the digits of a `#H` literal are.
proof fn lemma_hex(s: Seq<char>)
    ensures
        param::starts_hex(text::upper(s)) == param::starts_hex(s),
        s.len() >= 2 ==> param::hex_digits(text::upper(s).skip(2)) == text::upper(
            param::hex_digits(s.skip(2)),
        ),
{
    if s.len() >= 2 {
        let body = s.skip(2);
        lemma_char(s[0]);
        lemma_char(s[1]);
        lemma_part(s, 2, s.len() as int);
        if body.len() > 0 {
            lemma_char(body[0]);
        }
        let sign = param::sign_len(body);
        lemma_hex_end(body, sign);
        let end = param::hex_end(body, sign);
        lemma_part(body, end, end);
        lemma_is_unit(body.skip(end));
    }
}

/// Case does not change the value of a row of digits.
proof fn lemma_digits_value(s: Seq<char>, radix: nat, max: nat)
    ensures
        number::digits_value(text::upper(s), radix, max) == number::digits_value(s, radix, max),
    decreases s.len(),
{
    if s.len() > 0 {
        lemma_digits_value(s.drop_last(), radix, max);
        lemma_digit(s.last(), radix);
        assert(text::upper(s).drop_last() =~= text::upper(s.drop_last()));
    }
}

/// Case does not change the value of the digits of a literal.
proof fn lemma_radix_value(s: Seq<char>, radix: nat)
    ensures
        param::radix_value(text::upper(s), radix) == param::radix_value(s, radix),
        param::radix_value(s, radix) matches Ok(n) ==> upper_number(n) == n,
{
    lemma_digits_value(s, radix, u64::MAX as nat);
    if s.len() > 0 {
        lemma_char(s[0]);
        lemma_part(s, 1, s.len() as int);
        lemma_digits_value(s.skip(1), radix, u64::MAX as nat);
    }
}

/// A row of digits has no case.
proof fn lemma_digits_have_no_case(s: Seq<char>)
    ensures
        number::all_digits(text::upper(s)) == number::all_digits(s),
        number::all_digits(s) ==> text::upper(s) == s,
{
    if number::all_digits(s) {
        assert forall|i: int| 0 <= i < s.len() implies text::upper(s)[i] == s[i] by {
            lemma_char(s[i]);
        }
        assert(text::upper(s) =~= s);
    }
    if number::all_digits(text::upper(s)) {
        assert forall|i: int| 0 <= i < s.len() implies text::is_digit(#[trigger] s[i]) by {
            lemma_char(s[i]);
            assert(text::is_digit(text::upper(s)[i]));
        }
    }
}

/// Case does not change what is a mantissa.
proof fn lemma_mantissa(s: Seq<char>)
    ensures
        number::is_mantissa(text::upper(s)) == number::is_mantissa(s),
{
    let upper = text::upper(s);
    lemma_digits_have_no_case(s);
    assert forall|p: int| 0 <= p < s.len() implies {
        &&& (upper[p] == '.') == (#[trigger] s[p] == '.')
        &&& number::all_digits(upper.take(p)) == number::all_digits(s.take(p))
        &&& number::all_digits(upper.skip(p + 1)) == number::all_digits(s.skip(p + 1))
    } by {
        lemma_char(s[p]);
        lemma_part(s, p, p);
        lemma_part(s, p + 1, p + 1);
        lemma_digits_have_no_case(s.take(p));
        lemma_digits_have_no_case(s.skip(p + 1));
    }
    if !number::all_digits(s) {
        if number::is_mantissa(s) {
            let p = choose|p: int|
                0 <= p < s.len() && #[trigger] s[p] == '.' && number::all_digits(s.take(p))
                    && number::all_digits(s.skip(p + 1));
            assert(upper[p] == '.');
        }
        if number::is_mantissa(upper) {
            let p = choose|p: int|
                0 <= p < upper.len() && #[trigger] upper[p] == '.' && number::all_digits(
                    upper.take(p),
                ) && number::all_digits(upper.skip(p + 1));
            assert(s[p] == '.');
        }
    }
}

/// Case does not change what is a sign.
proof fn lemma_without_sign(s: Seq<char>)
    ensures
        number::without_sign(text::upper(s)) == text::upper(number::without_sign(s)),
{
    if s.len() > 0 {
        lemma_char(s[0]);
        lemma_part(s, 1, s.len() as int);
    }
}

/// Case does not change what is an exponent.
proof fn lemma_exponent(s: Seq<char>)
    ensures
        number::is_exponent(text::upper(s)) == number::is_exponent(s),
{
    if s.len() > 0 {
        lemma_char(s[0]);
        lemma_part(s, 1, s.len() as int);
        lemma_without_sign(s.skip(1));
        lemma_digits_have_no_case(number::without_sign(s.skip(1)));
    }
}

/// Case does not change what is a decimal literal.
proof fn lemma_decimal(s: Seq<char>)
    ensures
        number::is_decimal(text::upper(s)) == number::is_decimal(s),
{
    let n = number::without_sign(s);
    let upper = text::upper(n);
    lemma_without_sign(s);
    lemma_mantissa(n);
    assert forall|k: int| 0 <= k < n.len() implies {
        &&& number::is_mantissa(upper.take(k)) == number::is_mantissa(#[trigger] n.take(k))
        &&& number::is_exponent(upper.skip(k)) == number::is_exponent(n.skip(k))
    } by {
        lemma_part(n, k, k);
        lemma_mantissa(n.take(k));
        lemma_exponent(n.skip(k));
    }
    if !number::is_mantissa(n) {
        if number::is_plain_number(n) {
            let k = choose|k: int|
                0 <= k < n.len() && number::is_mantissa(#[trigger] n.take(k))
                    && number::is_exponent(n.skip(k));
            assert(number::is_mantissa(upper.take(k)));
        }
        if number::is_plain_number(upper) {
            let k = choose|k: int|
                0 <= k < upper.len() && number::is_mantissa(#[trigger] upper.take(k))
                    && number::is_exponent(upper.skip(k));
            assert(number::is_mantissa(n.take(k)));
        }
    }
}

/// A number in upper case.
proof fn lemma_number_value(s: Seq<char>)
    ensures
        match param::number_value(s) {
            Ok(n) => param::number_value(text::upper(s)) == Ok::<NumberModel, Seq<char>>(
                upper_number(n),
            ),
            Err(message) => param::number_value(text::upper(s)) == Err::<NumberModel, Seq<char>>(
                message,
            ),
        },
{
    let n = param::without_unit(s);
    lemma_without_unit(s);
    lemma_hex(s);
    lemma_decimal(n);
    if s.len() >= 2 {
        lemma_radix_value(param::hex_digits(s.skip(2)), 16);
    }
    if n.len() >= 2 {
        lemma_char(n[0]);
        lemma_char(n[1]);
        lemma_part(n, 2, n.len() as int);
        lemma_radix_value(n.skip(2), 16);
        lemma_radix_value(n.skip(2), 8);
        lemma_radix_value(n.skip(2), 2);
    }
}

/// A parameter in upper case: it is accepted or not as before, and has the same
/// value, but for the case of its text.
pub proof fn law_parameter_case(kind: ParamKind, raw: Seq<char>)
    ensures
        match param::param_value(kind, raw) {
            Ok(v) => param::param_value(kind, text::upper(raw)) == Ok::<ParamModel, Seq<char>>(
                upper_param(v),
            ),
            Err(_) => param::param_value(kind, text::upper(raw)) is Err,
        },
{
    let s = text::trimmed(raw);
    lemma_trimmed(raw);
    lemma_number_value(s);
    lemma_twice(s);
    if s.len() > 0 {
        lemma_char(s[0]);
        lemma_char(s.last());
    }
    if s.len() >= 2 {
        lemma_part(s, 1, s.len() - 1);
    }
}

/// The parameter of a command in upper case.
proof fn lemma_param_of(c: Seq<char>)
    ensures
        line::param_of(text::upper(c)) == (match line::param_of(c) {
            Some(raw) => Some(text::upper(raw)),
            None => None,
        }),
{
    let s = text::trimmed(c);
    let end = line::header_end(s, 0);
    lemma_trimmed(c);
    case::lemma_upper_header_end(s, 0);
    lemma_part(s, end, end);
    lemma_trimmed(s.skip(end));
}

/// A command in upper case.
proof fn lemma_command_value(entries: Seq<EntryModel>, c: Seq<char>, position: Seq<Seq<char>>)
    ensures
        match command::command_value(entries, c, position) {
            Ok(step) => command::command_value(entries, text::upper(c), position) == Ok::<
                StepModel,
                Seq<char>,
            >(StepModel { command: upper_command(step.command), position: step.position }),
            Err(_) => command::command_value(entries, text::upper(c), position) is Err,
        },
{
    case::law_case_is_ignored(entries, c, position);
    lemma_param_of(c);
    let tokens = line::keywords_of(line::header_of(c));
    let path = command::path_of(tokens);
    let start = command::starting_point(c, path, position);
    if let Some(found) = command::resolve(entries, start, path, command::asks(tokens)) {
        let kind = entries[found.index].param;
        if let Some(k) = kind {
            if let Some(raw) = line::param_of(c) {
                law_parameter_case(k, raw);
            }
        }
        if let Ok(params) = command::params_value(kind, line::param_of(c)) {
            assert(command::params_value(kind, line::param_of(text::upper(c))) == Ok::<
                Seq<ParamModel>,
                Seq<char>,
            >(Seq::new(params.len(), |i: int| upper_param(params[i])))) by {
                let upper = Seq::new(params.len(), |i: int| upper_param(params[i]));
                if kind is None {
                    assert(upper =~= seq![]);
                } else {
                    assert(upper =~= seq![upper_param(params[0])]);
                }
            }
        }
    }
}

/// A row of commands in upper case.
proof fn lemma_commands_value(
    entries: Seq<EntryModel>,
    commands: Seq<Seq<char>>,
    position: Seq<Seq<char>>,
)
    ensures
        match command::commands_value(entries, commands, position) {
            Ok(x) => command::commands_value(entries, upper_texts(commands), position) == Ok::<
                Seq<CommandModel>,
                Seq<char>,
            >(upper_commands(x)),
            Err(_) => command::commands_value(entries, upper_texts(commands), position) is Err,
        },
    decreases commands.len(),
{
    let upper = upper_texts(commands);
    if commands.len() == 0 {
        assert(upper_commands(seq![]) =~= seq![]);
    } else {
        let first = text::trimmed(commands[0]);
        let rest = commands.skip(1);
        lemma_trimmed(commands[0]);
        assert(upper[0] == text::upper(commands[0]));
        assert(upper.skip(1) =~= upper_texts(rest));
        if first.len() == 0 {
            lemma_commands_value(entries, rest, position);
        } else {
            lemma_command_value(entries, first, position);
            if let Ok(step) = command::command_value(entries, first, position) {
                lemma_commands_value(entries, rest, step.position);
                if let Ok(x) = command::commands_value(entries, rest, step.position) {
                    assert(upper_commands(seq![step.command] + x) =~= seq![
                        upper_command(step.command),
                    ] + upper_commands(x));
                }
            }
        }
    }
}

/// Case does not change which quotes are open.
proof fn lemma_open_quote(s: Seq<char>, i: int)
    requires
        i <= s.len(),
    ensures
        line::open_quote(text::upper(s), i) == line::open_quote(s, i),
        line::open_quote(s, i) matches Some(q) ==> line::is_quote(q),
    decreases i,
{
    if i > 0 {
        lemma_open_quote(s, i - 1);
        lemma_char(s[i - 1]);
    }
}

/// The commands of a line in upper case.
proof fn lemma_commands_from(s: Seq<char>, start: int, i: int)
    requires
        0 <= start <= i <= s.len(),
    ensures
        line::commands_from(text::upper(s), start, i) == upper_texts(
            line::commands_from(s, start, i),
        ),
    decreases s.len() - i,
{
    let upper = text::upper(s);
    if i == s.len() {
        lemma_part(s, start, i);
        assert(line::commands_from(upper, start, i) =~= upper_texts(
            line::commands_from(s, start, i),
        ));
    } else {
        lemma_open_quote(s, i);
        lemma_char(s[i]);
        if line::separates(s, i) {
            lemma_part(s, start, i);
            lemma_commands_from(s, i + 1, i + 1);
            assert(upper_texts(seq![s.subrange(start, i)] + line::commands_from(s, i + 1, i + 1))
                =~= seq![upper.subrange(start, i)] + upper_texts(
                line::commands_from(s, i + 1, i + 1),
            ));
        } else {
            lemma_commands_from(s, start, i + 1);
        }
    }
}

/// A line in upper case parses to the same commands, with the same suffix values,
/// and their parameters are the same but for the case of their text; or both are
/// refused.
pub proof fn law_line_case(entries: Seq<EntryModel>, line: Seq<char>)
    ensures
        match command::line_value(entries, line) {
            Ok(commands) => command::line_value(entries, text::upper(line)) == Ok::<
                Seq<CommandModel>,
                Seq<char>,
            >(upper_commands(commands)),
            Err(_) => command::line_value(entries, text::upper(line)) is Err,
        },
{
    let s = text::trimmed(line);
    lemma_trimmed(line);
    lemma_commands_from(s, 0, 0);
    lemma_commands_value(entries, line::commands_of(s), seq![]);
}

/// Whether two commands are the same but for the case of their keywords.
pub open spec fn same_but_case(c: Seq<char>, d: Seq<char>) -> bool {
    &&& text::upper(line::header_of(c)) == text::upper(line::header_of(d))
    &&& line::param_of(c) == line::param_of(d)
}

/// A command without keywords and without a parameter is blank.
proof fn lemma_blank(c: Seq<char>)
    ensures
        text::trimmed(c).len() == 0 <==> line::header_of(c).len() == 0 && line::param_of(c) is None,
        text::trimmed(text::trimmed(c)) == text::trimmed(c),
        line::header_of(text::trimmed(c)) == line::header_of(c),
        line::param_of(text::trimmed(c)) == line::param_of(c),
{
    let s = text::trimmed(c);
    blanks::lemma_trimmed_ends(c);
    blanks::lemma_already_trimmed(s);
    case::lemma_upper_header_end(s, 0);
    assert(s.skip(0) =~= s);
}

/// Rows of commands that are the same but for the case of their keywords.
proof fn lemma_row_case(
    entries: Seq<EntryModel>,
    a: Seq<Seq<char>>,
    b: Seq<Seq<char>>,
    position: Seq<Seq<char>>,
)
    requires
        a.len() == b.len(),
        forall|i: int| 0 <= i < a.len() ==> same_but_case(#[trigger] a[i], b[i]),
    ensures
        command::commands_value(entries, a, position) == command::commands_value(
            entries,
            b,
            position,
        ) || (command::commands_value(entries, a, position) is Err && command::commands_value(
            entries,
            b,
            position,
        ) is Err),
    decreases a.len(),
{
    if a.len() > 0 {
        let c = text::trimmed(a[0]);
        let d = text::trimmed(b[0]);
        assert(same_but_case(a[0], b[0]));
        assert(text::upper(line::header_of(a[0])).len() == line::header_of(a[0]).len());
        assert(text::upper(line::header_of(b[0])).len() == line::header_of(b[0]).len());
        lemma_blank(a[0]);
        lemma_blank(b[0]);
        assert forall|i: int| 0 <= i < a.skip(1).len() implies same_but_case(
            #[trigger] a.skip(1)[i],
            b.skip(1)[i],
        ) by {
            assert(same_but_case(a[i + 1], b[i + 1]));
        }
        if c.len() == 0 {
            lemma_row_case(entries, a.skip(1), b.skip(1), position);
        } else {
            case::law_keyword_case(entries, c, d, position);
            if let Ok(step) = command::command_value(entries, c, position) {
                lemma_row_case(entries, a.skip(1), b.skip(1), step.position);
            }
        }
    }
}

/// Two lines whose commands are the same but for the case of their keywords parse
/// to the same, or are both refused.
pub proof fn law_keyword_case_of_lines(entries: Seq<EntryModel>, a: Seq<char>, b: Seq<char>)
    requires
        line::commands_of(text::trimmed(a)).len() == line::commands_of(text::trimmed(b)).len(),
        forall|i: int|
            0 <= i < line::commands_of(text::trimmed(a)).len() ==> same_but_case(
                #[trigger] line::commands_of(text::trimmed(a))[i],
                line::commands_of(text::trimmed(b))[i],
            ),
    ensures
        command::line_value(entries, a) == command::line_value(entries, b) || (command::line_value(
            entries,
            a,
        ) is Err && command::line_value(entries, b) is Err),
{
    lemma_row_case(
        entries,
        line::commands_of(text::trimmed(a)),
        line::commands_of(text::trimmed(b)),
        seq![],
    );
}

} // verus!
