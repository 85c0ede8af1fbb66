//! Parameter values.

use crate::error::ParseError;
use crate::line;
use crate::number;
use crate::number::IntFault;
use crate::pattern::ParamKind;
use crate::text;
use vstd::prelude::*;

verus! {

/// A number as a command line spells it.
#[derive(Debug, Clone, PartialEq, Eq)]
pub enum Number {
    /// The value of a `#H`, `#Q` or `#B` literal.
    Integer(u64),
    /// A decimal literal, in the form that the standard library reads as a
    /// floating-point number.
    Decimal(String),
}

/// The model of a [`Number`].
#[verifier::ext_equal]
pub enum NumberModel {
    Integer(u64),
    Decimal(Seq<char>),
}

impl View for Number {
    type V = NumberModel;

    open spec fn view(&self) -> NumberModel {
        match self {
            Number::Integer(v) => NumberModel::Integer(*v),
            Number::Decimal(s) => NumberModel::Decimal(s@),
        }
    }
}

/// A parsed parameter value.
#[derive(Debug, Clone)]
pub enum Param {
    Numeric(Number),
    Bool(bool),
    String(String),
}

/// The model of a [`Param`].
#[verifier::ext_equal]
pub enum ParamModel {
    Numeric(NumberModel),
    Bool(bool),
    String(Seq<char>),
}

impl View for Param {
    type V = ParamModel;

    open spec fn view(&self) -> ParamModel {
        match self {
            Param::Numeric(v) => ParamModel::Numeric(v@),
            Param::Bool(v) => ParamModel::Bool(*v),
            Param::String(s) => ParamModel::String(s@),
        }
    }
}

impl DeepView for Param {
    type V = ParamModel;

    open spec fn deep_view(&self) -> ParamModel {
        self@
    }
}

/// Where the ASCII letters at the end of `s` start.
pub open spec fn letters_start(s: Seq<char>) -> int
    decreases s.len(),
{
    if s.len() > 0 && text::is_letter(s.last()) {
        letters_start(s.drop_last())
    } else {
        s.len() as int
    }
}

/// `s` without the unit at its end, which is the letters there and the white
/// space before them. A text of letters only has no unit, and neither is a lone
/// `e` behind a digit, which belongs to the number.
pub open spec fn without_unit(s: Seq<char>) -> Seq<char> {
    let end = letters_start(s);
    if end == 0 || end == s.len() {
        s
    } else if end + 1 == s.len() && (s[end] == 'e' || s[end] == 'E') && text::is_digit(
        s[end - 1],
    ) {
        s
    } else {
        text::trim_end(s.take(end))
    }
}

/// Whether `c` is an ASCII letter.
fn letter(c: char) -> (r: bool)
    ensures
        r == text::is_letter(c),
{
    ('a' <= c && c <= 'z') || ('A' <= c && c <= 'Z')
}

/// Strips a trailing unit such as `Hz` or `V` from a numeric text, but not the
/// `e` of scientific notation.
pub fn strip_unit_suffix(raw: &str) -> (r: &str)
    ensures
        r@ == without_unit(raw@),
{
    let chars = text::to_chars(raw);
    let n: usize = chars.len();
    let mut end: usize = n;
    assert(raw@.take(n as int) == raw@);
    while end > 0 && letter(chars[end - 1])
        invariant
            chars@ == raw@,
            end <= n == chars.len(),
            letters_start(raw@) == letters_start(raw@.take(end as int)),
        decreases end,
    {
        assert(raw@.take(end as int).drop_last() == raw@.take(end - 1));
        end = end - 1;
    }
    if end == n || end == 0 {
        return raw;
    }
    if end + 1 == n && (chars[end] == 'e' || chars[end] == 'E') && '0' <= chars[end - 1]
        && chars[end - 1] <= '9' {
        return raw;
    }
    let ghost number = raw@.take(end as int);
    let mut to: usize = end;
    assert(number == raw@.subrange(0, to as int));
    while to > 0 && text::is_white_space(chars[to - 1])
        invariant
            chars@ == raw@,
            to <= end <= n == chars.len(),
            text::trim_end(number) == text::trim_end(raw@.subrange(0, to as int)),
        decreases to,
    {
        assert(raw@.subrange(0, to as int).drop_last() == raw@.subrange(0, to - 1));
        to = to - 1;
    }
    raw.substring_char(0, to)
}

/// Where the hexadecimal digits from `i` on end.
pub open spec fn hex_end(s: Seq<char>, i: int) -> int
    decreases s.len() - i,
{
    if 0 <= i < s.len() && number::digit_value(s[i], 16) is Some {
        hex_end(s, i + 1)
    } else {
        i
    }
}

/// White space, if any, and then nothing but ASCII letters.
pub open spec fn is_unit(s: Seq<char>) -> bool {
    let letters = text::trim_start(s);
    forall|i: int| 0 <= i < letters.len() ==> text::is_letter(#[trigger] letters[i])
}

/// How many characters the sign at the start of `s` takes up.
pub open spec fn sign_len(s: Seq<char>) -> int {
    if s.len() > 0 && s[0] == '+' {
        1
    } else {
        0
    }
}

/// The digits behind a `#H`, with their sign: the letters among them are not
/// taken for a unit, those behind them are.
pub open spec fn hex_digits(s: Seq<char>) -> Seq<char> {
    let end = hex_end(s, sign_len(s));
    if is_unit(s.skip(end)) {
        s.take(end)
    } else {
        s
    }
}

/// Whether `s` starts with `#` and the given letter, in either case.
pub open spec fn has_radix(s: Seq<char>, letter: char) -> bool {
    s.len() >= 2 && s[0] == '#' && text::upper_char(s[1]) == letter
}

/// Whether `s` starts with `#H` and at least one hexadecimal digit.
pub open spec fn starts_hex(s: Seq<char>) -> bool {
    let body = s.skip(2);
    has_radix(s, 'H') && hex_end(body, sign_len(body)) > sign_len(body)
}

/// What is said of a text that is no integer.
pub open spec fn fault_message(fault: IntFault) -> Seq<char> {
    match fault {
        IntFault::Empty => "cannot parse integer from empty string"@,
        IntFault::InvalidDigit => "invalid digit found in string"@,
        IntFault::TooLarge => "number too large to fit in target type"@,
    }
}

/// The value of the digits of a `#H`, `#Q` or `#B` literal.
pub open spec fn radix_value(digits: Seq<char>, radix: nat) -> Result<NumberModel, Seq<char>> {
    match number::unsigned_value(digits, radix, u64::MAX as nat) {
        Ok(v) => Ok(NumberModel::Integer(v as u64)),
        Err(fault) => Err(fault_message(fault)),
    }
}

/// The number that a trimmed text spells, or the message why it is none.
pub open spec fn number_value(s: Seq<char>) -> Result<NumberModel, Seq<char>> {
    let n = without_unit(s);
    if starts_hex(s) {
        radix_value(hex_digits(s.skip(2)), 16)
    } else if has_radix(n, 'H') {
        radix_value(n.skip(2), 16)
    } else if has_radix(n, 'Q') {
        radix_value(n.skip(2), 8)
    } else if has_radix(n, 'B') {
        radix_value(n.skip(2), 2)
    } else if number::is_decimal(n) {
        Ok(NumberModel::Decimal(n))
    } else if n.len() == 0 {
        Err("cannot parse float from empty string"@)
    } else {
        Err("invalid float literal"@)
    }
}

/// The truth value that a trimmed text spells, if it is one.
pub open spec fn bool_value(s: Seq<char>) -> Option<bool> {
    let word = text::upper(s);
    if word == seq!['O', 'N'] || word == seq!['1'] {
        Some(true)
    } else if word == seq!['O', 'F', 'F'] || word == seq!['0'] {
        Some(false)
    } else {
        None
    }
}

/// A trimmed text without the pair of quotation marks around it, if there is
/// one.
pub open spec fn unquoted(s: Seq<char>) -> Seq<char> {
    if s.len() >= 2 && line::is_quote(s[0]) && s.last() == s[0] {
        s.subrange(1, s.len() - 1)
    } else {
        s
    }
}

/// The value of a parameter, or the message why it has none.
pub open spec fn param_value(kind: ParamKind, raw: Seq<char>) -> Result<ParamModel, Seq<char>> {
    let s = text::trimmed(raw);
    match kind {
        ParamKind::Num => match number_value(s) {
            Ok(v) => Ok(ParamModel::Numeric(v)),
            Err(message) => Err(message),
        },
        ParamKind::Bool => match bool_value(s) {
            Some(v) => Ok(ParamModel::Bool(v)),
            None => Err("invalid boolean: "@ + s),
        },
        ParamKind::Str => Ok(ParamModel::String(unquoted(s))),
    }
}

/// Where the digits of a `#H` literal end, which start at `from`, if there are
/// any. A unit behind them is left out.
fn hex_digits_end(chars: &[char], from: usize) -> (r: Option<usize>)
    requires
        from <= chars.len(),
    ensures
        ({
            let body = chars@.skip(from as int);
            match r {
                Some(end) => from <= end <= chars.len() && hex_end(body, sign_len(body)) > sign_len(
                    body,
                ) && hex_digits(body) == chars@.subrange(from as int, end as int),
                None => hex_end(body, sign_len(body)) <= sign_len(body),
            }
        }),
{
    let n: usize = chars.len();
    let ghost body = chars@.skip(from as int);
    let sign: usize = if from < n && chars[from] == '+' {
        1
    } else {
        0
    };
    let mut end: usize = from + sign;
    while end < n && (('0' <= chars[end] && chars[end] <= '9') || ('a' <= chars[end] && chars[end]
        <= 'f') || ('A' <= chars[end] && chars[end] <= 'F'))
        invariant
            body == chars@.skip(from as int),
            sign <= 1,
            from + sign <= end <= n == chars.len(),
            hex_end(body, sign as int) == hex_end(body, end - from),
        decreases n - end,
    {
        assert(body[end - from] == chars@[end as int]);
        end = end + 1;
    }
    proof {
        if end < n {
            assert(body[end - from] == chars@[end as int]);
        }
    }
    assert(sign == sign_len(body));
    assert(hex_end(body, sign as int) == end - from);
    if end == from + sign {
        return None;
    }
    let ghost behind = body.skip(end - from);
    assert(behind == chars@.skip(end as int));
    let mut i: usize = end;
    while i < n && text::is_white_space(chars[i])
        invariant
            end <= i <= n == chars.len(),
            text::trim_start(behind) == text::trim_start(chars@.skip(i as int)),
        decreases n - i,
    {
        assert(chars@.skip(i as int).drop_first() == chars@.skip(i + 1));
        i = i + 1;
    }
    let ghost letters = chars@.skip(i as int);
    assert(text::trim_start(behind) == letters);
    let ghost k = i as int;
    while i < n
        invariant
            0 <= k <= i <= n == chars.len(),
            letters == chars@.skip(k),
            text::trim_start(behind) == letters,
            body == chars@.skip(from as int),
            behind == body.skip(end - from),
            from <= end <= n,
            hex_end(body, sign as int) == end - from > sign,
            sign == sign_len(body),
            forall|j: int| 0 <= j < i - k ==> text::is_letter(#[trigger] letters[j]),
        decreases n - i,
    {
        if !letter(chars[i]) {
            assert(letters[i - k] == chars@[i as int]);
            assert(!is_unit(behind));
            assert(body == chars@.subrange(from as int, n as int));
            return Some(n);
        }
        i = i + 1;
    }
    assert(body.take(end - from) == chars@.subrange(from as int, end as int));
    Some(end)
}

/// Reads the digits of a `#H`, `#Q` or `#B` literal.
fn parse_radix(digits: &[char], radix: u32) -> (r: Result<Number, ParseError>)
    requires
        2 <= radix <= 36,
    ensures
        match r {
            Ok(v) => radix_value(digits@, radix as nat) == Ok::<NumberModel, Seq<char>>(v@),
            Err(e) => radix_value(digits@, radix as nat) == Err::<NumberModel, Seq<char>>(e@),
        },
{
    match number::parse_unsigned(digits, radix, u64::MAX) {
        Ok(v) => Ok(Number::Integer(v)),
        Err(IntFault::Empty) => Err(
            ParseError::new("cannot parse integer from empty string".to_owned()),
        ),
        Err(IntFault::InvalidDigit) => Err(
            ParseError::new("invalid digit found in string".to_owned()),
        ),
        Err(IntFault::TooLarge) => Err(
            ParseError::new("number too large to fit in target type".to_owned()),
        ),
    }
}

/// Whether `chars` starts with `#` and the given letter, in either case.
fn starts_radix(chars: &[char], letter: char) -> (r: bool)
    ensures
        r == has_radix(chars@, letter),
{
    chars.len() >= 2 && chars[0] == '#' && text::to_upper(chars[1]) == letter
}

/// Reads a trimmed numeric parameter.
fn parse_number(raw: &str) -> (r: Result<Number, ParseError>)
    ensures
        match r {
            Ok(v) => number_value(raw@) == Ok::<NumberModel, Seq<char>>(v@),
            Err(e) => number_value(raw@) == Err::<NumberModel, Seq<char>>(e@),
        },
{
    let whole = text::to_chars(raw);
    if starts_radix(whole.as_slice(), 'H') {
        if let Some(end) = hex_digits_end(whole.as_slice(), 2) {
            return parse_radix(&whole.as_slice()[2..end], 16);
        }
    }
    let literal = strip_unit_suffix(raw);
    let chars = text::to_chars(literal);
    let n: usize = chars.len();
    if starts_radix(chars.as_slice(), 'H') {
        assert(chars@.subrange(2, n as int) == chars@.skip(2));
        return parse_radix(&chars.as_slice()[2..n], 16);
    }
    if starts_radix(chars.as_slice(), 'Q') {
        assert(chars@.subrange(2, n as int) == chars@.skip(2));
        return parse_radix(&chars.as_slice()[2..n], 8);
    }
    if starts_radix(chars.as_slice(), 'B') {
        assert(chars@.subrange(2, n as int) == chars@.skip(2));
        return parse_radix(&chars.as_slice()[2..n], 2);
    }
    if number::decimal(chars.as_slice()) {
        Ok(Number::Decimal(literal.to_owned()))
    } else if n == 0 {
        Err(ParseError::new("cannot parse float from empty string".to_owned()))
    } else {
        Err(ParseError::new("invalid float literal".to_owned()))
    }
}

/// Reads a trimmed truth value.
fn parse_bool(word: &[char]) -> (r: Option<bool>)
    ensures
        r == bool_value(word@),
{
    let on = ['O', 'N'];
    let off = ['O', 'F', 'F'];
    assert(on@ =~= seq!['O', 'N']);
    assert(off@ =~= seq!['O', 'F', 'F']);
    assert(['1']@ =~= seq!['1']);
    assert(['0']@ =~= seq!['0']);
    if text::reads_as(word, &on) || text::reads_as(word, &['1']) {
        Some(true)
    } else if text::reads_as(word, &off) || text::reads_as(word, &['0']) {
        Some(false)
    } else {
        None
    }
}

/// Reads the parameter of a command.
pub fn parse_param(kind: ParamKind, raw: &str) -> (r: Result<Param, ParseError>)
    ensures
        match r {
            Ok(v) => param_value(kind, raw@) == Ok::<ParamModel, Seq<char>>(v@),
            Err(e) => param_value(kind, raw@) == Err::<ParamModel, Seq<char>>(e@),
        },
{
    let raw = text::trim(raw);
    match kind {
        ParamKind::Num => match parse_number(raw) {
            Ok(v) => Ok(Param::Numeric(v)),
            Err(e) => Err(e),
        },
        ParamKind::Bool => {
            match parse_bool(text::to_chars(raw).as_slice()) {
                Some(v) => Ok(Param::Bool(v)),
                None => {
                    let mut message = "invalid boolean: ".to_owned();
                    message.append(raw);
                    Err(ParseError::new(message))
                },
            }
        },
        ParamKind::Str => {
            let chars = text::to_chars(raw);
            let n: usize = chars.len();
            if n >= 2 && (chars[0] == '"' || chars[0] == '\'') && chars[n - 1] == chars[0] {
                Ok(Param::String(text::string_of(chars.as_slice(), 1, n - 1)))
            } else {
                Ok(Param::String(raw.to_owned()))
            }
        },
    }
}

} // verus!
