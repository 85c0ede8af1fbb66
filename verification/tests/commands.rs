use simple_scpi::{Command, CommandSet, Handler, Number, Param};

fn dummy(_: &Command) {}

/// The floating-point value of a number.
fn value(n: &Number) -> f64 {
    match n {
        Number::Integer(v) => *v as f64,
        Number::Decimal(s) => s.parse().unwrap(),
    }
}

#[test]
fn common_command() {
    let table: &[(&str, Handler)] = &[("*IDN?", dummy), ("*RST", dummy)];
    let set = CommandSet::from_table(table).unwrap();

    let cmds = set.parse("*IDN?").unwrap();
    assert_eq!(cmds.len(), 1);
    assert_eq!(cmds[0].index, 0);
    assert!(cmds[0].params.is_empty());

    let cmds = set.parse("*RST").unwrap();
    assert_eq!(cmds[0].index, 1);
}

#[test]
fn common_with_param() {
    let table: &[(&str, Handler)] = &[("*ESE num", dummy)];
    let set = CommandSet::from_table(table).unwrap();

    let cmds = set.parse("*ESE 42").unwrap();
    assert_eq!(cmds[0].index, 0);
    assert!(matches!(&cmds[0].params[0], Param::Numeric(v) if value(v) == 42.0));
}

#[test]
fn hierarchical_short_long() {
    let table: &[(&str, Handler)] = &[("SYSTem:VERSion?", dummy)];
    let set = CommandSet::from_table(table).unwrap();

    // Short form.
    assert!(set.parse("SYST:VERS?").is_ok());
    // Long form.
    assert!(set.parse("system:version?").is_ok());
    // Mixed case.
    assert!(set.parse("System:Version?").is_ok());
}

#[test]
fn optional_node() {
    let table: &[(&str, Handler)] = &[("SYSTem:ERRor[:NEXT]?", dummy)];
    let set = CommandSet::from_table(table).unwrap();

    // With optional node.
    assert!(set.parse("SYST:ERR:NEXT?").is_ok());
    // Without optional node.
    assert!(set.parse("SYST:ERR?").is_ok());
}

#[test]
fn numeric_suffix() {
    let table: &[(&str, Handler)] = &[("SOURce#:FREQuency num", dummy)];
    let set = CommandSet::from_table(table).unwrap();

    let cmds = set.parse("SOUR2:FREQ 1e6").unwrap();
    assert_eq!(cmds[0].suffixes[0], 2);
    assert!(matches!(&cmds[0].params[0], Param::Numeric(v) if value(v) == 1e6));

    // Default suffix = 1.
    let cmds = set.parse("SOURCE:FREQ 500").unwrap();
    assert_eq!(cmds[0].suffixes[0], 1);
}

#[test]
fn bool_param() {
    let table: &[(&str, Handler)] = &[("OUTPut#:STATe bool", dummy)];
    let set = CommandSet::from_table(table).unwrap();

    let cmds = set.parse("OUTP1:STAT ON").unwrap();
    assert!(matches!(cmds[0].params[0], Param::Bool(true)));

    let cmds = set.parse("OUTPUT2:STATE 0").unwrap();
    assert!(matches!(cmds[0].params[0], Param::Bool(false)));
    assert_eq!(cmds[0].suffixes[0], 2);
}

#[test]
fn string_param() {
    let table: &[(&str, Handler)] = &[("DISPlay:TEXT str", dummy)];
    let set = CommandSet::from_table(table).unwrap();

    let cmds = set.parse("DISP:TEXT \"hello world\"").unwrap();
    assert!(matches!(&cmds[0].params[0], Param::String(s) if s == "hello world"));
}

#[test]
fn multi_command_line() {
    let table: &[(&str, Handler)] = &[("*RST", dummy), ("*IDN?", dummy)];
    let set = CommandSet::from_table(table).unwrap();

    let cmds = set.parse("*RST;*IDN?").unwrap();
    assert_eq!(cmds.len(), 2);
    assert_eq!(cmds[0].index, 0);
    assert_eq!(cmds[1].index, 1);
}

#[test]
fn optional_voltage_level() {
    let table: &[(&str, Handler)] = &[
        ("SOURce#:VOLTage[:LEVel] num", dummy),
        ("SOURce#:VOLTage[:LEVel]?", dummy),
    ];
    let set = CommandSet::from_table(table).unwrap();

    // With optional :LEVel
    assert!(set.parse("SOUR1:VOLT:LEV 3.3").is_ok());
    // Without
    assert!(set.parse("SOUR1:VOLT 3.3").is_ok());
    // Query with
    assert!(set.parse("SOUR1:VOLT:LEVEL?").is_ok());
    // Query without
    assert!(set.parse("SOUR1:VOLT?").is_ok());
}
