use simple_scpi::{split_commands, tokenise_command};

/// A line put together from its commands.
fn joined(parts: &[String]) -> String {
    parts.join(";")
}

#[test]
fn splits_on_semicolons() {
    assert_eq!(split_commands("A;B;C"), ["A", "B", "C"]);
    assert_eq!(split_commands("A"), ["A"]);
    assert!(split_commands("").is_empty());
    assert_eq!(split_commands(" A ; B "), [" A ", " B "]);
}

#[test]
fn empty_commands_between_semicolons() {
    assert_eq!(split_commands("A;;B"), ["A", "", "B"]);
    assert_eq!(split_commands(";A"), ["", "A"]);
    assert_eq!(split_commands("A;"), ["A"]);
    assert_eq!(split_commands(";;"), ["", ""]);
}

#[test]
fn quotes_hide_semicolons() {
    assert_eq!(split_commands("A \"x;y\";B"), ["A \"x;y\"", "B"]);
    assert_eq!(split_commands("A 'x;y';B"), ["A 'x;y'", "B"]);
    assert_eq!(split_commands("A \"it's;\";B"), ["A \"it's;\"", "B"]);
    assert_eq!(split_commands("A 'x;B"), ["A 'x;B"]);
    assert_eq!(split_commands("'a';'b'"), ["'a'", "'b'"]);
}

#[test]
fn splitting_loses_nothing() {
    for line in ["", "A", "A;B", "A 'x;y';;B", ";", "A;'b", "é;ß", "A;;"] {
        let mut again = joined(&split_commands(line));
        if line.ends_with(';') {
            again.push(';');
        }
        assert_eq!(again, line);
    }
}

#[test]
fn commands_are_not_split_further() {
    for part in split_commands("A 'x;y';B \"z;\"; C") {
        assert_eq!(split_commands(&part), [part]);
    }
}

#[test]
fn keywords_and_parameter() {
    let (tokens, param) = tokenise_command("sour2:Freq 1e6");
    assert_eq!(tokens, ["SOUR2", "FREQ"]);
    assert_eq!(param.as_deref(), Some("1e6"));

    let (tokens, param) = tokenise_command("  :SYST:ERR?  ");
    assert_eq!(tokens, ["SYST", "ERR?"]);
    assert_eq!(param, None);

    let (tokens, param) = tokenise_command("A\t  b c ");
    assert_eq!(tokens, ["A"]);
    assert_eq!(param.as_deref(), Some("b c"));
}

#[test]
fn quote_starts_the_parameter() {
    let (tokens, param) = tokenise_command("DISP:TEXT\"a:b\"");
    assert_eq!(tokens, ["DISP", "TEXT"]);
    assert_eq!(param.as_deref(), Some("\"a:b\""));
}

#[test]
fn empty_keywords_do_not_count() {
    let (tokens, param) = tokenise_command("::a::b:");
    assert_eq!(tokens, ["A", "B"]);
    assert_eq!(param, None);
    assert!(tokenise_command(":").0.is_empty());
}

#[test]
fn nothing_to_tokenise() {
    assert_eq!(tokenise_command(""), (vec![], None));
    assert_eq!(tokenise_command(" \t\u{a0} "), (vec![], None));
}

#[test]
fn common_command_is_one_keyword() {
    let (tokens, param) = tokenise_command("*ese:x 4");
    assert_eq!(tokens, ["*ESE:X"]);
    assert_eq!(param.as_deref(), Some("4"));
}

#[test]
fn keywords_of_other_scripts() {
    let (tokens, param) = tokenise_command("größe:ß 'ä'");
    assert_eq!(tokens, ["GRößE", "ß"]);
    assert_eq!(param.as_deref(), Some("'ä'"));
}
