use simple_scpi::{parse_param, strip_unit_suffix, Number, Param, ParamKind};

/// The number that a text spells.
fn number(raw: &str) -> Number {
    match parse_param(ParamKind::Num, raw) {
        Ok(Param::Numeric(n)) => n,
        other => panic!("{raw}: {other:?}"),
    }
}

/// A decimal literal.
fn decimal(s: &str) -> Number {
    Number::Decimal(s.to_string())
}

/// Why a text is no parameter of the given kind.
fn refusal(kind: ParamKind, raw: &str) -> String {
    parse_param(kind, raw).unwrap_err().to_string()
}

/// The string that a parameter spells.
fn string(raw: &str) -> String {
    match parse_param(ParamKind::Str, raw) {
        Ok(Param::String(s)) => s,
        other => panic!("{raw}: {other:?}"),
    }
}

#[test]
fn units_are_stripped() {
    assert_eq!(strip_unit_suffix("10Hz"), "10");
    assert_eq!(strip_unit_suffix("10 MHz"), "10");
    assert_eq!(strip_unit_suffix("1.5e3V"), "1.5e3");
    assert_eq!(strip_unit_suffix("3.3 \t V"), "3.3");
    assert_eq!(strip_unit_suffix("-2dBm"), "-2");
    assert_eq!(strip_unit_suffix("1 e"), "1");
}

#[test]
fn texts_without_a_unit() {
    assert_eq!(strip_unit_suffix("10"), "10");
    assert_eq!(strip_unit_suffix("10 "), "10 ");
    assert_eq!(strip_unit_suffix("abc"), "abc");
    assert_eq!(strip_unit_suffix(""), "");
    assert_eq!(strip_unit_suffix("1e"), "1e");
    assert_eq!(strip_unit_suffix("1E"), "1E");
    assert_eq!(strip_unit_suffix("10µ"), "10µ");
    assert_eq!(strip_unit_suffix("10µs"), "10µ");
    assert_eq!(strip_unit_suffix("1eV"), "1");
}

#[test]
fn decimal_literals() {
    assert_eq!(number("42"), decimal("42"));
    assert_eq!(number(" -3.5e-2 "), decimal("-3.5e-2"));
    assert_eq!(number("+.5"), decimal("+.5"));
    assert_eq!(number("1."), decimal("1."));
    assert_eq!(number("1E6 Hz"), decimal("1E6"));
}

#[test]
fn hexadecimal_literals() {
    assert_eq!(number("#H10"), Number::Integer(16));
    assert_eq!(number("#hff"), Number::Integer(255));
    assert_eq!(number("#HFF"), Number::Integer(255));
    assert_eq!(number("#H1F"), Number::Integer(31));
    assert_eq!(number("#HDEADBEEF"), Number::Integer(0xdead_beef));
    assert_eq!(number("#H+a"), Number::Integer(10));
    assert_eq!(number("#HFFFFFFFFFFFFFFFF"), Number::Integer(u64::MAX));
}

#[test]
fn hexadecimal_literal_with_a_unit() {
    assert_eq!(number("#H10V"), Number::Integer(16));
    assert_eq!(number("#H1F Hz"), Number::Integer(31));
    assert_eq!(number("#HFF A"), Number::Integer(255));
    // The letters of the digits come first.
    assert_eq!(number("#H10A"), Number::Integer(0x10a));
}

#[test]
fn octal_and_binary_literals() {
    assert_eq!(number("#Q17"), Number::Integer(15));
    assert_eq!(number("#q777"), Number::Integer(511));
    assert_eq!(number("#B101"), Number::Integer(5));
    assert_eq!(number("#b0"), Number::Integer(0));
    assert_eq!(number("#Q17 V"), Number::Integer(15));
    assert_eq!(number("#B11s"), Number::Integer(3));
}

#[test]
fn integers_that_are_none() {
    assert_eq!(refusal(ParamKind::Num, "#H V"), "cannot parse integer from empty string");
    assert_eq!(refusal(ParamKind::Num, "#Q V"), "cannot parse integer from empty string");
    assert_eq!(refusal(ParamKind::Num, "#H 1"), "invalid digit found in string");
    assert_eq!(refusal(ParamKind::Num, "#H+"), "invalid digit found in string");
    assert_eq!(refusal(ParamKind::Num, "#H-1"), "invalid digit found in string");
    assert_eq!(refusal(ParamKind::Num, "#Q8"), "invalid digit found in string");
    assert_eq!(refusal(ParamKind::Num, "#B2"), "invalid digit found in string");
    assert_eq!(refusal(ParamKind::Num, "#H1.5"), "invalid digit found in string");
    assert_eq!(
        refusal(ParamKind::Num, "#H10000000000000000"),
        "number too large to fit in target type"
    );
    // The first fault counts.
    assert_eq!(
        refusal(ParamKind::Num, "#H1000000000000000011.1"),
        "number too large to fit in target type"
    );
}

#[test]
fn numbers_that_are_none() {
    assert_eq!(refusal(ParamKind::Num, ""), "cannot parse float from empty string");
    assert_eq!(refusal(ParamKind::Num, "  "), "cannot parse float from empty string");
    for raw in ["abc", "1e", ".", "-", "+", "1e+", "1 2", "--1", "1.2.3", "#", "#X1", "-inf", "0x1"]
        .into_iter()
        .chain(["INF", "inf", "NAN", "Infinity", "Hz", "+nan"])
        .chain(["#H", "#Q", "#B", "#HZ", "#hz"])
    {
        assert_eq!(refusal(ParamKind::Num, raw), "invalid float literal", "{raw}");
    }
}

#[test]
fn truth_values() {
    for raw in ["ON", "on", "On", "1", " oN "] {
        assert!(matches!(parse_param(ParamKind::Bool, raw), Ok(Param::Bool(true))), "{raw}");
    }
    for raw in ["OFF", "off", "oFf", "0", "\t0"] {
        assert!(matches!(parse_param(ParamKind::Bool, raw), Ok(Param::Bool(false))), "{raw}");
    }
}

#[test]
fn truth_values_that_are_none() {
    assert_eq!(refusal(ParamKind::Bool, "yes"), "invalid boolean: yes");
    assert_eq!(refusal(ParamKind::Bool, " True "), "invalid boolean: True");
    assert_eq!(refusal(ParamKind::Bool, "2"), "invalid boolean: 2");
    assert_eq!(refusal(ParamKind::Bool, ""), "invalid boolean: ");
    assert_eq!(refusal(ParamKind::Bool, "'ON'"), "invalid boolean: 'ON'");
}

#[test]
fn quotes_around_strings() {
    assert_eq!(string("\"hello world\""), "hello world");
    assert_eq!(string("'hello world'"), "hello world");
    assert_eq!(string(" ' x ' "), " x ");
    assert_eq!(string("\"\""), "");
    assert_eq!(string("''quoted''"), "'quoted'");
    assert_eq!(string("\"größe\""), "größe");
}

#[test]
fn strings_without_a_pair_of_quotes() {
    assert_eq!(string("hello world"), "hello world");
    assert_eq!(string("\"mixed'"), "\"mixed'");
    assert_eq!(string("\"open"), "\"open");
    assert_eq!(string("\""), "\"");
    assert_eq!(string("'"), "'");
    assert_eq!(string(""), "");
}
