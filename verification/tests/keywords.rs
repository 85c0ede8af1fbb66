use simple_scpi::matching::{try_match, Entry};
use simple_scpi::{
    compile, extract_suffix, keyword_matches, match_segments, short_long, Segment,
};

/// Strings as tokens.
fn tokens(words: &[&str]) -> Vec<String> {
    words.iter().map(|w| w.to_string()).collect()
}

/// The entry of a pattern.
fn entry(pattern: &str) -> Entry<()> {
    let (segments, optional_groups, is_query, param) = compile(pattern).unwrap();
    Entry { segments, optional_groups, is_query, param, handler: () }
}

#[test]
fn keyword_takes_every_length_between_its_forms() {
    let (short, long) = short_long("SYSTem");
    for word in ["SYST", "SYSTE", "SYSTEM"] {
        assert!(keyword_matches(&short, &long, word), "{word}");
    }
    for word in ["", "SYS", "SYSTEMS", "SYSTX", "syst", "XSYST"] {
        assert!(!keyword_matches(&short, &long, word), "{word}");
    }
}

#[test]
fn common_command_takes_its_whole_name() {
    let (short, long) = short_long("*IDN");
    assert!(keyword_matches(&short, &long, "*IDN"));
    assert!(!keyword_matches(&short, &long, "*I"));
    assert!(!keyword_matches(&short, &long, ""));
}

#[test]
fn keyword_against_other_scripts() {
    assert!(!keyword_matches("AB", "ABCD", "Aß"));
    assert!(keyword_matches("A", "Aß", "Aß"));
    assert!(keyword_matches("", "ßA", "ß"));
    assert!(!keyword_matches("", "ß", "A"));
}

#[test]
fn suffix_behind_either_form() {
    assert_eq!(extract_suffix("SOURCE2", "SOUR", "SOURCE"), Some(("SOURCE".to_string(), 2)));
    assert_eq!(extract_suffix("SOUR12", "SOUR", "SOURCE"), Some(("SOUR".to_string(), 12)));
    assert_eq!(extract_suffix("SOURCE", "SOUR", "SOURCE"), Some(("SOURCE".to_string(), 1)));
    assert_eq!(extract_suffix("SOUR", "SOUR", "SOURCE"), Some(("SOUR".to_string(), 1)));
    assert_eq!(extract_suffix("SOUR007", "SOUR", "SOURCE"), Some(("SOUR".to_string(), 7)));
}

#[test]
fn suffix_behind_the_forms_between() {
    assert_eq!(extract_suffix("SOURC2", "SOUR", "SOURCE"), Some(("SOURC".to_string(), 2)));
    assert_eq!(extract_suffix("SOURC", "SOUR", "SOURCE"), Some(("SOURC".to_string(), 1)));
    assert_eq!(extract_suffix("SOU2", "SOUR", "SOURCE"), None);
    assert_eq!(extract_suffix("SOURCEX2", "SOUR", "SOURCE"), None);
}

#[test]
fn longest_form_takes_the_suffix() {
    let (short, long) = short_long("Ab1c");
    assert_eq!(extract_suffix("AB1", &short, &long), Some(("AB1".to_string(), 1)));
    assert_eq!(extract_suffix("AB12", &short, &long), Some(("AB1".to_string(), 2)));
    assert_eq!(extract_suffix("AB2", &short, &long), Some(("AB".to_string(), 2)));
}

#[test]
fn short_form_that_does_not_begin_the_long_one() {
    assert_eq!(extract_suffix("XY2", "XY", "ABC"), Some(("XY".to_string(), 2)));
    assert_eq!(extract_suffix("ABC3", "XY", "ABC"), Some(("ABC".to_string(), 3)));
}

#[test]
fn suffix_that_is_no_number() {
    for token in ["SOUR+2", "SOURCE+3", "SOURX", "SOUR2X", "SOUR-1", "SOUR ", "SOU", "", "SOUR+"] {
        assert_eq!(extract_suffix(token, "SOUR", "SOURCE"), None, "{token}");
    }
}

#[test]
fn suffix_of_32_bits() {
    assert_eq!(extract_suffix("A4294967295", "A", "A"), Some(("A".to_string(), u32::MAX)));
    assert_eq!(extract_suffix("A4294967296", "A", "A"), None);
}

#[test]
fn suffix_behind_other_scripts() {
    assert_eq!(extract_suffix("Aß2", "A", "Aß"), Some(("Aß".to_string(), 2)));
    assert_eq!(extract_suffix("ß2", "A", "AB"), None);
}

#[test]
fn segments_in_order() {
    let (segments, _, _, _) = compile("A#:B:C#").unwrap();
    let all: Vec<&Segment> = segments.iter().collect();
    assert_eq!(match_segments(&all, &tokens(&["A3", "B", "C4"])), Some(vec![3, 4]));
    assert_eq!(match_segments(&all, &tokens(&["A", "B", "C"])), Some(vec![1, 1]));
    assert_eq!(match_segments(&all, &tokens(&["A3", "B"])), None);
    assert_eq!(match_segments(&all, &tokens(&["A3", "B", "C4", "D"])), None);
    assert_eq!(match_segments(&all, &tokens(&["B", "A3", "C4"])), None);
    assert_eq!(match_segments(&[], &tokens(&[])), Some(vec![]));
    assert_eq!(match_segments(&[], &tokens(&["A"])), None);
}

#[test]
fn placeholder_with_a_token_of_its_own() {
    let (segments, _, _, _) = compile("A:#:B").unwrap();
    let all: Vec<&Segment> = segments.iter().collect();
    // The placeholder behind a keyword shares its token, a `:` between them or not.
    assert_eq!(match_segments(&all, &tokens(&["A5", "B"])), Some(vec![5]));

    let (segments, _, _, _) = compile("#:A").unwrap();
    let all: Vec<&Segment> = segments.iter().collect();
    assert_eq!(match_segments(&all, &tokens(&["7", "A"])), Some(vec![7]));
    assert_eq!(match_segments(&all, &tokens(&["X", "A"])), None);
    assert_eq!(match_segments(&all, &tokens(&["+7", "A"])), Some(vec![7]));
    assert_eq!(match_segments(&all, &tokens(&["-7", "A"])), None);
    assert_eq!(match_segments(&all, &tokens(&["+", "A"])), None);
}

#[test]
fn one_value_for_each_placeholder() {
    let entry = entry("A#:B#:C:D#");
    let suffixes = try_match(&entry, &tokens(&["A", "B2", "C", "D3"]), false).unwrap();
    assert_eq!(suffixes, vec![1, 2, 3]);
}

#[test]
fn groups_come_and_go() {
    let entry = entry("A[:B#]:C[:D]");
    for (words, suffixes) in [
        (vec!["A", "C"], vec![]),
        (vec!["A", "B", "C"], vec![1]),
        (vec!["A", "B2", "C"], vec![2]),
        (vec!["A", "C", "D"], vec![]),
        (vec!["A", "B9", "C", "D"], vec![9]),
    ] {
        assert_eq!(try_match(&entry, &tokens(&words), false), Some(suffixes), "{words:?}");
    }
    assert_eq!(try_match(&entry, &tokens(&["A", "B"]), false), None);
    assert_eq!(try_match(&entry, &tokens(&["A", "D"]), false), None);
}

#[test]
fn first_choice_of_groups_decides() {
    // Both groups take `A2`; with the first of them alone, it is its suffix.
    let entry = entry("[A#][A2]");
    assert_eq!(try_match(&entry, &tokens(&["A2"]), false), Some(vec![2]));
    // `A3` fits the first group only, `A2 A2` both.
    assert_eq!(try_match(&entry, &tokens(&["A3"]), false), Some(vec![3]));
    assert_eq!(try_match(&entry, &tokens(&["A2", "A2"]), false), Some(vec![2]));
    assert_eq!(try_match(&entry, &tokens(&[]), false), Some(vec![]));
}

#[test]
fn queries_match_queries_only() {
    assert!(try_match(&entry("A?"), &tokens(&["A"]), true).is_some());
    assert!(try_match(&entry("A?"), &tokens(&["A"]), false).is_none());
    assert!(try_match(&entry("A"), &tokens(&["A"]), false).is_some());
    assert!(try_match(&entry("A"), &tokens(&["A"]), true).is_none());
}

#[test]
fn more_groups_than_bits() {
    let mut pattern = "ROOT".to_string();
    for i in 0..40 {
        pattern.push_str(&format!("[:N{i}]"));
    }
    let entry = entry(&pattern);
    assert_eq!(try_match(&entry, &tokens(&["ROOT"]), false), Some(vec![]));
    assert_eq!(try_match(&entry, &tokens(&["ROOT", "N3"]), false), Some(vec![]));
    assert_eq!(try_match(&entry, &tokens(&["ROOT", "N0", "N1"]), false), Some(vec![]));
}
