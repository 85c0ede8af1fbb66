use simple_scpi::{
    compile, is_well_bracketed, parse_keyword_segments, short_long, Command, CommandSet, Handler,
    ParamKind,
};

fn dummy(_: &Command) {}

/// The short and the long form of a keyword, as text.
fn forms(token: &str) -> (String, String) {
    short_long(token)
}

/// A pair of strings.
fn pair(short: &str, long: &str) -> (String, String) {
    (short.to_string(), long.to_string())
}

/// What a pattern compiles to, as text.
fn compiled(pattern: &str) -> String {
    format!("{:?}", compile(pattern).unwrap())
}

/// The text of a keyword segment.
fn keyword(short: &str, long: &str) -> String {
    format!("Keyword {{ short: {short:?}, long: {long:?} }}")
}

#[test]
fn short_form_is_the_leading_upper_case() {
    assert_eq!(forms("SYSTem"), pair("SYST", "SYSTEM"));
    assert_eq!(forms("FREQuency"), pair("FREQ", "FREQUENCY"));
    assert_eq!(forms("aBC"), pair("", "ABC"));
    assert_eq!(forms("ABcDE"), pair("AB", "ABCDE"));
    assert_eq!(forms(""), pair("", ""));
}

#[test]
fn upper_case_keywords_have_one_form() {
    assert_eq!(forms("BAUD"), pair("BAUD", "BAUD"));
    assert_eq!(forms("*IDN"), pair("*IDN", "*IDN"));
    assert_eq!(forms("A1+B-2"), pair("A1+B-2", "A1+B-2"));
}

#[test]
fn star_counts_at_the_start_only() {
    assert_eq!(forms("*OPC"), pair("*OPC", "*OPC"));
    assert_eq!(forms("*OPc"), pair("*OP", "*OPC"));
    assert_eq!(forms("A*b"), pair("A", "A*B"));
    assert_eq!(forms("**A"), pair("*", "**A"));
}

#[test]
fn brackets_only_mark_groups() {
    for (with, without) in [
        ("SYSTem:ERRor[:NEXT]?", "SYSTem:ERRor:NEXT?"),
        ("SOURce#:VOLTage[:LEVel] num", "SOURce#:VOLTage:LEVel num"),
        ("A[:B#][:C:D]:E str", "A:B#:C:D:E str"),
    ] {
        let (segments, groups, is_query, param) = compile(with).unwrap();
        let (plain, none, plain_query, plain_param) = compile(without).unwrap();
        assert_eq!(format!("{segments:?}"), format!("{plain:?}"));
        assert_eq!(groups.len(), with.matches('[').count());
        assert!(none.is_empty());
        assert_eq!(is_query, plain_query);
        assert_eq!(param, plain_param);
    }
}

#[test]
fn only_ascii_letters_change_case() {
    assert_eq!(forms("Äbc"), pair("", "ÄBC"));
    assert_eq!(forms("Ueä"), pair("U", "UEä"));
}

#[test]
fn keyword_with_its_placeholder() {
    let chars: Vec<char> = "SOURce#:FREQuency".chars().collect();
    let mut pos = 0;
    let segments = parse_keyword_segments(&chars, &mut pos);
    assert_eq!(pos, 7);
    assert_eq!(
        format!("{segments:?}"),
        format!("[{}, NumericSuffix]", keyword("SOUR", "SOURCE"))
    );

    pos += 1;
    let segments = parse_keyword_segments(&chars, &mut pos);
    assert_eq!(pos, chars.len());
    assert_eq!(format!("{segments:?}"), format!("[{}]", keyword("FREQ", "FREQUENCY")));
}

#[test]
fn lone_placeholder() {
    let chars: Vec<char> = "##A".chars().collect();
    let mut pos = 0;
    assert_eq!(format!("{:?}", parse_keyword_segments(&chars, &mut pos)), "[NumericSuffix]");
    assert_eq!(pos, 1);
    assert_eq!(format!("{:?}", parse_keyword_segments(&chars, &mut pos)), "[NumericSuffix]");
    assert_eq!(pos, 2);
}

#[test]
fn keyword_ends_at_a_delimiter() {
    for text in ["AB:C", "AB[C", "AB]C"] {
        let chars: Vec<char> = text.chars().collect();
        let mut pos = 0;
        let segments = parse_keyword_segments(&chars, &mut pos);
        assert_eq!(pos, 2);
        assert_eq!(format!("{segments:?}"), format!("[{}]", keyword("AB", "AB")));
    }
}

#[test]
fn compiles_keywords_and_parameter() {
    assert_eq!(
        compiled("SOURce#:FREQuency num"),
        format!(
            "([{}, NumericSuffix, {}], [], false, Some(Num))",
            keyword("SOUR", "SOURCE"),
            keyword("FREQ", "FREQUENCY")
        )
    );
    assert_eq!(compiled("A bool"), format!("([{}], [], false, Some(Bool))", keyword("A", "A")));
    assert_eq!(compiled("A str"), format!("([{}], [], false, Some(Str))", keyword("A", "A")));
    assert_eq!(compiled("A?"), format!("([{}], [], true, None)", keyword("A", "A")));
    assert_eq!(compiled("A? num"), format!("([{}], [], true, Some(Num))", keyword("A", "A")));
    assert_eq!(compiled(""), "([], [], false, None)");
}

#[test]
fn compiles_optional_groups() {
    assert_eq!(
        compiled("SYSTem:ERRor[:NEXT]?"),
        format!(
            "([{}, {}, {}], [OptGroup {{ start: 2, end: 3 }}], true, None)",
            keyword("SYST", "SYSTEM"),
            keyword("ERR", "ERROR"),
            keyword("NEXT", "NEXT")
        )
    );
    assert_eq!(
        compiled("[A:B#]:C[D]"),
        format!(
            "([{}, {}, NumericSuffix, {}, {}], [OptGroup {{ start: 0, end: 3 }}, OptGroup {{ start: 4, end: 5 }}], false, None)",
            keyword("A", "A"),
            keyword("B", "B"),
            keyword("C", "C"),
            keyword("D", "D")
        )
    );
    assert_eq!(
        compiled("A[]"),
        format!("([{}], [OptGroup {{ start: 1, end: 1 }}], false, None)", keyword("A", "A"))
    );
}

#[test]
fn group_may_stay_open() {
    assert!(is_well_bracketed("A[:B"));
    assert_eq!(
        compiled("A[:B"),
        format!(
            "([{}, {}], [OptGroup {{ start: 1, end: 2 }}], false, None)",
            keyword("A", "A"),
            keyword("B", "B")
        )
    );
}

#[test]
fn other_words_declare_no_parameter() {
    let (_, _, is_query, param) = compile("A int").unwrap();
    assert!(!is_query);
    assert!(param.is_none());
    let (_, _, _, param) = compile("A  num").unwrap();
    assert_eq!(param, Some(ParamKind::Num));
}

#[test]
fn brackets_that_can_be_compiled() {
    assert!(is_well_bracketed(""));
    assert!(is_well_bracketed("A:B#?"));
    assert!(is_well_bracketed("A[:B]:C[:D] num"));
    assert!(!is_well_bracketed("A]"));
    assert!(!is_well_bracketed("A[:B[:C]]"));
    assert!(!is_well_bracketed("A[:B]]"));
}

#[test]
fn groups_lie_behind_each_other() {
    let (segments, groups, _, _) = compile("[A:B]:C#[:D][:E#:F]:G").unwrap();
    let mut last = 0;
    for group in &groups {
        assert!(last <= group.start && group.start <= group.end);
        assert!(group.end <= segments.len());
        last = group.end;
    }
    assert_eq!(groups.len(), 3);
    assert_eq!(segments.len(), 9);
}

#[test]
fn table_builds_every_entry() {
    let table: &[(&str, Handler)] = &[("A", dummy), ("B?", dummy), ("A", dummy)];
    let set = CommandSet::from_table(table).unwrap();
    assert_eq!(set.parse("A").unwrap()[0].index, 0);
    assert_eq!(set.parse("B?").unwrap()[0].index, 1);
    let empty: &[(&str, Handler)] = &[];
    let set = CommandSet::from_table(empty).unwrap();
    assert!(set.parse("").unwrap().is_empty());
    assert_eq!(set.parse("A").unwrap_err().to_string(), "unrecognised command: A");
}
