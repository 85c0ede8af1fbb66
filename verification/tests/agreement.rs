use simple_scpi::number::{decimal, parse_row, parse_u32, parse_unsigned, IntFault};
use simple_scpi::text::{is_white_space, string_of, to_chars, to_upper, trim, upper_string};
use simple_scpi::{parse_param, ParamKind};
use std::num::IntErrorKind;

/// Every text of up to `n` of the given characters.
fn texts(alphabet: &str, n: usize) -> Vec<String> {
    let mut all = vec![String::new()];
    let mut last = all.clone();
    for _ in 0..n {
        let mut next = Vec::new();
        for text in &last {
            for c in alphabet.chars() {
                next.push(format!("{text}{c}"));
            }
        }
        all.extend(next.iter().cloned());
        last = next;
    }
    all
}

#[test]
fn white_space_and_case_of_every_character() {
    for code in 0..=0x10ffffu32 {
        if let Some(c) = char::from_u32(code) {
            assert_eq!(is_white_space(c), c.is_whitespace(), "{code:x}");
            assert_eq!(to_upper(c), c.to_ascii_uppercase(), "{code:x}");
        }
    }
}

#[test]
fn trimming() {
    for text in texts(" a\u{a0}\t\u{2003}é", 4) {
        assert_eq!(trim(&text), text.trim());
    }
}

#[test]
fn strings_and_characters() {
    for text in texts("aZ1é;", 4) {
        let chars = to_chars(&text);
        assert_eq!(chars, text.chars().collect::<Vec<char>>());
        assert_eq!(string_of(&chars, 0, chars.len()), text);
        assert_eq!(upper_string(&chars, 0, chars.len()), text.to_ascii_uppercase());
    }
    assert_eq!(string_of(&to_chars("größe"), 1, 4), "röß");
    assert_eq!(upper_string(&to_chars("größe"), 0, 2), "GR");
}

#[test]
fn integers_of_64_bits() {
    let mut all = texts("+-019afgZ", 4);
    for long in [
        "18446744073709551615",
        "18446744073709551616",
        "99999999999999999999",
        "9999999999999999999x",
        "99999999999999999999x",
        "1844674407370955161x",
        "18446744073709551616x",
        "ffffffffffffffff",
        "10000000000000000",
        "1777777777777777777777",
        "2000000000000000000000",
    ] {
        all.push(long.to_string());
        all.push(format!("+{long}"));
    }
    for text in all {
        for radix in [2u32, 8, 10, 16, 36] {
            let expected = match u64::from_str_radix(&text, radix) {
                Ok(v) => Ok(v),
                Err(e) => match e.kind() {
                    IntErrorKind::Empty => Err(IntFault::Empty),
                    IntErrorKind::InvalidDigit => Err(IntFault::InvalidDigit),
                    IntErrorKind::PosOverflow => Err(IntFault::TooLarge),
                    other => panic!("{other:?}"),
                },
            };
            assert_eq!(parse_unsigned(&to_chars(&text), radix, u64::MAX), expected, "{text} {radix}");
        }
    }
}

#[test]
fn integers_of_32_bits() {
    let mut all = texts("+-019x ", 4);
    for long in ["4294967295", "4294967296", "42949672950", "00000000000007"] {
        all.push(long.to_string());
    }
    for text in all {
        let expected = text.parse::<u32>().ok();
        assert_eq!(parse_u32(&to_chars(&text)), expected, "{text}");
        let unsigned = if text.starts_with('+') { None } else { expected };
        assert_eq!(parse_row(&to_chars(&text)), unsigned, "{text}");
    }
}

#[test]
fn floating_point_literals() {
    for text in texts("1.eE+-x", 6) {
        assert_eq!(decimal(&to_chars(&text)), text.parse::<f64>().is_ok(), "{text}");
    }
    // Words are no literals.
    for word in ["inf", "Infinity", "NAN", "-inf", "+nan"] {
        assert!(!decimal(&to_chars(word)), "{word}");
    }
}

#[test]
fn messages_of_faults() {
    for text in ["", "8", "+", "-1", "7777777777777777777777777"] {
        for (letter, radix) in [('H', 16), ('Q', 8), ('B', 2)] {
            let raw = format!("#{letter}{text} V");
            if let Err(e) = u64::from_str_radix(text, radix) {
                assert_eq!(
                    parse_param(ParamKind::Num, &raw).unwrap_err().to_string(),
                    e.to_string()
                );
            }
        }
    }
    for text in ["", "1.2.3", "."] {
        let expected = text.parse::<f64>().unwrap_err().to_string();
        assert_eq!(parse_param(ParamKind::Num, text).unwrap_err().to_string(), expected);
    }
}
