use simple_scpi::{Command, CommandSet, Handler};
use std::cell::RefCell;

fn dummy(_: &Command) {}

const TABLE: &[(&str, Handler)] = &[
    ("*IDN?", dummy),
    ("*RST", dummy),
    ("SOURce#:FREQuency num", dummy),
    ("SOURce#:FREQuency?", dummy),
    ("SOURce#:VOLTage[:LEVel] num", dummy),
    ("OUTPut#:STATe bool", dummy),
    ("DISPlay:TEXT str", dummy),
    ("SOURce#:LIST:POINts num", dummy),
    ("SOURce#:LIST:DWELl num", dummy),
    ("POINts num", dummy),
];

/// The commands of a line: the index, the suffixes and the parameters of each.
fn parsed(line: &str) -> Vec<String> {
    let set = CommandSet::from_table(TABLE).unwrap();
    match set.parse(line) {
        Ok(commands) => commands
            .iter()
            .map(|c| format!("{} {:?} {:?}", c.index, c.suffixes, c.params))
            .collect(),
        Err(e) => panic!("{line}: {}", e.to_string()),
    }
}

/// Why a line is refused.
fn refusal(line: &str) -> String {
    let set = CommandSet::from_table(TABLE).unwrap();
    set.parse(line).unwrap_err().to_string()
}

#[test]
fn line_of_two_commands() {
    assert_eq!(
        parsed("SOUR2:FREQ 1e6;OUTP1:STAT ON"),
        ["2 [2] [Numeric(Decimal(\"1e6\"))]", "5 [1] [Bool(true)]"]
    );
}

#[test]
fn spellings_of_one_command() {
    for line in [
        "SOUR3:VOLT 5",
        "source3:voltage:level 5",
        ":Sour3:Volta:Leve 5",
        "sourc3:VOLT 5",
        "  SOUR3:VOLT:LEV   5  ",
        ";;SOUR3:VOLT 5; ;",
    ] {
        assert_eq!(parsed(line), ["4 [3] [Numeric(Decimal(\"5\"))]"], "{line}");
    }
}

#[test]
fn lines_without_a_command() {
    for line in ["", "   ", ";", " ; ;; ", "\t\r\n"] {
        assert!(parsed(line).is_empty(), "{line:?}");
    }
}

#[test]
fn command_that_is_not_in_the_table() {
    assert_eq!(refusal("NOPE"), "unrecognised command: NOPE");
    assert_eq!(refusal("*RST; nope 1 ;*RST"), "unrecognised command: nope 1");
    assert_eq!(refusal("*RST?"), "unrecognised command: *RST?");
    assert_eq!(refusal("*IDN"), "unrecognised command: *IDN");
    assert_eq!(refusal("*I?"), "unrecognised command: *I?");
    assert_eq!(refusal("*?"), "unrecognised command: *?");
    assert_eq!(refusal("?"), "unrecognised command: ?");
    assert_eq!(refusal("SOU2:FREQ 1"), "unrecognised command: SOU2:FREQ 1");
    assert_eq!(refusal("SOUR+2:FREQ 1"), "unrecognised command: SOUR+2:FREQ 1");
    assert_eq!(refusal("SOUR:FRE 1"), "unrecognised command: SOUR:FRE 1");
    assert_eq!(refusal("größe"), "unrecognised command: größe");
}

#[test]
fn command_without_keywords() {
    assert_eq!(refusal(":"), "empty command");
    assert_eq!(refusal("*RST;::"), "empty command");
    assert_eq!(refusal("'text'"), "empty command");
}

#[test]
fn parameter_that_is_missing() {
    let message = "command expects a parameter but none given";
    assert_eq!(refusal("SOUR:FREQ"), message);
    assert_eq!(refusal("OUTP:STAT  "), message);
    assert_eq!(refusal("DISP:TEXT;*RST"), message);
}

#[test]
fn parameter_that_is_wrong() {
    assert_eq!(refusal("SOUR:FREQ fast"), "invalid float literal");
    assert_eq!(refusal("OUTP:STAT maybe"), "invalid boolean: maybe");
    assert_eq!(refusal("SOUR:FREQ #B12"), "invalid digit found in string");
}

#[test]
fn parameter_that_is_not_declared() {
    assert_eq!(parsed("*RST 5"), ["1 [] []"]);
    assert_eq!(parsed("SOUR4:FREQ? max"), ["3 [4] []"]);
}

#[test]
fn first_refusal_decides() {
    assert_eq!(refusal("OUTP:STAT maybe;NOPE"), "invalid boolean: maybe");
    assert_eq!(refusal("NOPE;OUTP:STAT maybe"), "unrecognised command: NOPE");
}

#[test]
fn strings_keep_their_semicolons() {
    assert_eq!(
        parsed("DISP:TEXT 'a;b';DISP:TEXT \"c\""),
        ["6 [] [String(\"a;b\")]", "6 [] [String(\"c\")]"]
    );
    assert_eq!(parsed("disp:text Hello"), ["6 [] [String(\"Hello\")]"]);
}

#[test]
fn continues_from_the_previous_position() {
    assert_eq!(
        parsed("SOUR2:FREQ 1;VOLT 2;VOLT:LEV 3"),
        [
            "2 [2] [Numeric(Decimal(\"1\"))]",
            "4 [2] [Numeric(Decimal(\"2\"))]",
            "4 [2] [Numeric(Decimal(\"3\"))]",
        ]
    );
    assert_eq!(parsed("SOUR2:FREQ 1;FREQ?")[1], "3 [2] []");
    assert_eq!(
        parsed("SOUR3:LIST:POIN 4;DWEL 5"),
        ["7 [3] [Numeric(Decimal(\"4\"))]", "8 [3] [Numeric(Decimal(\"5\"))]"]
    );
}

#[test]
fn position_comes_before_the_root() {
    assert_eq!(
        parsed("SOUR3:LIST:DWEL 4;POIN 5"),
        ["8 [3] [Numeric(Decimal(\"4\"))]", "7 [3] [Numeric(Decimal(\"5\"))]"]
    );
    assert_eq!(parsed("POIN 5"), ["9 [] [Numeric(Decimal(\"5\"))]"]);
}

#[test]
fn colon_resets_to_the_root() {
    assert_eq!(
        parsed("SOUR3:LIST:DWEL 4;:POIN 5"),
        ["8 [3] [Numeric(Decimal(\"4\"))]", "9 [] [Numeric(Decimal(\"5\"))]"]
    );
    assert_eq!(refusal("SOUR2:FREQ 1;:VOLT 2"), "unrecognised command: :VOLT 2");
    assert_eq!(refusal("VOLT 2"), "unrecognised command: VOLT 2");
}

#[test]
fn rooted_part_is_a_line_of_its_own() {
    let mut both = parsed("SOUR2:FREQ 1");
    both.extend(parsed(":SOUR3:VOLT 2;FREQ 3"));
    assert_eq!(parsed("SOUR2:FREQ 1; :SOUR3:VOLT 2;FREQ 3"), both);
}

#[test]
fn common_commands_leave_the_position() {
    assert_eq!(
        parsed("SOUR2:FREQ 1;*RST;VOLT 2"),
        ["2 [2] [Numeric(Decimal(\"1\"))]", "1 [] []", "4 [2] [Numeric(Decimal(\"2\"))]"]
    );
}

#[test]
fn blank_commands_leave_the_position() {
    assert_eq!(parsed("SOUR2:FREQ 1; ;VOLT 2")[1], "4 [2] [Numeric(Decimal(\"2\"))]");
}

#[test]
fn root_command_leaves_the_root() {
    assert_eq!(refusal("SOUR2:FREQ 1;:POIN 1;VOLT 2"), "unrecognised command: VOLT 2");
}

#[test]
fn same_as_spelled_out() {
    assert_eq!(
        parsed("SOUR2:LIST:DWEL 1;POIN 2"),
        parsed("SOUR2:LIST:DWEL 1;:SOUR2:LIST:POIN 2")
    );
}

#[test]
fn first_entry_of_the_table_decides() {
    let table: &[(&str, Handler)] = &[("A[:B]", dummy), ("A:B", dummy), ("Ab", dummy)];
    let set = CommandSet::from_table(table).unwrap();
    assert_eq!(set.parse("A:B").unwrap()[0].index, 0);
    assert_eq!(set.parse("A").unwrap()[0].index, 0);
    assert_eq!(set.parse("AB").unwrap()[0].index, 2);
}

#[test]
fn lone_question_mark() {
    let table: &[(&str, Handler)] = &[("A", dummy), ("?", dummy), ("A[:B]?", dummy)];
    let set = CommandSet::from_table(table).unwrap();
    assert_eq!(set.parse("?").unwrap()[0].index, 1);
    assert_eq!(set.parse("A:?").unwrap()[0].index, 2);
}

#[test]
fn indices_are_within_the_table() {
    let set = CommandSet::from_table(TABLE).unwrap();
    for command in set.parse("*RST;SOUR:FREQ 1;FREQ?;:POIN 2;DISP:TEXT x").unwrap() {
        assert!(command.index < TABLE.len());
        set.dispatch(&command);
    }
}

#[test]
fn dispatch_calls_the_handler_of_the_command() {
    let calls: RefCell<Vec<String>> = RefCell::new(Vec::new());
    let freq = |c: &Command| calls.borrow_mut().push(format!("freq {:?} {:?}", c.suffixes, c.params));
    let outp = |c: &Command| calls.borrow_mut().push(format!("outp {:?} {:?}", c.suffixes, c.params));
    let table: [(&str, &dyn Fn(&Command)); 2] =
        [("SOURce#:FREQuency num", &freq), ("OUTPut#:STATe bool", &outp)];
    let set = CommandSet::from_table(&table).unwrap();
    for command in set.parse("SOUR2:FREQ 1e6;OUTP1:STAT ON").unwrap() {
        set.dispatch(&command);
    }
    assert_eq!(
        *calls.borrow(),
        ["freq [2] [Numeric(Decimal(\"1e6\"))]", "outp [1] [Bool(true)]"]
    );
}

#[test]
fn forms_between_with_and_without_a_suffix() {
    assert_eq!(parsed("SOURC2:FREQ 1"), ["2 [2] [Numeric(Decimal(\"1\"))]"]);
    assert_eq!(parsed("SOURC:FREQ 1"), ["2 [1] [Numeric(Decimal(\"1\"))]"]);
}

#[test]
fn line_in_upper_case() {
    let set = CommandSet::from_table(TABLE).unwrap();
    for line in [
        "sour2:freq 1e6 hz;volt #h1f",
        "outp:stat on;:disp:text 'a;b';*rst",
        "sour:freq #b2",
        "nope",
        ":sour3:list:dwel 4; ;poin 5",
    ] {
        match (set.parse(line), set.parse(&line.to_ascii_uppercase())) {
            (Ok(a), Ok(b)) => {
                assert_eq!(a.len(), b.len());
                for (x, y) in a.iter().zip(&b) {
                    assert_eq!((x.index, &x.suffixes), (y.index, &y.suffixes));
                    assert_eq!(
                        format!("{:?}", x.params).to_ascii_uppercase(),
                        format!("{:?}", y.params).to_ascii_uppercase()
                    );
                }
            }
            (Err(_), Err(_)) => {}
            other => panic!("{line}: {other:?}"),
        }
    }
}

#[test]
fn keywords_in_another_case() {
    assert_eq!(
        parsed("sour2:Freq 1;DISP:text 'Ab'"),
        parsed("SOUR2:fREQ 1;disp:TEXT 'Ab'")
    );
}

#[test]
fn placeholder_that_stands_alone() {
    let table: &[(&str, Handler)] = &[("#:A", dummy)];
    let set = CommandSet::from_table(table).unwrap();
    assert_eq!(set.parse("7:A").unwrap()[0].suffixes, [7]);
    assert_eq!(set.parse("+7:A").unwrap()[0].suffixes, [7]);
    assert!(set.parse("-7:A").is_err());
    assert!(set.parse(":A").is_err());
}
