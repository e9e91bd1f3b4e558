use falcon_bms_callbacker::keyfile::{is_key_file_line, parse, Callback, FalconKeyfile, KeyFileError};
use falcon_bms_callbacker::keys::{Key, Modifier};

fn lines_of(text: &[&str]) -> Vec<Result<String, std::io::Error>> {
    text.iter().map(|l| Ok(l.to_string())).collect()
}

const BASIC: &[&str] = &[
    "SimDoNothing -1 0 0XFFFFFFFF 0 0 0 -1 \"======== Key file ========\"",
    "# a comment",
    "",
    "SimDoNothing -1 0 0XFFFFFFFF 0 0 0 -1 \"--- section ---\"",
    "AFElevatorTrimUp -1 0 0XC8 2 0 0 1 \"TRIM: Nose Down\"",
    "AFBrakesToggle -1 0 0X30 0 0 0 1 \"Wheel Brakes\"",
    "OTWBalanceIVCvsAIUp -1 0 0X1B 0 0 0 1 \"IVC louder\"",
    "OTWBalanceIVCvsAIDown -1 0 0X1A 0 0 0 1 \"IVC quieter\"",
    "AFElevatorUp -1 0 0XC8 3 0 0 1 \"Nose Down\"",
    "SimPilotToggle -1 0 0X19 0 0X2E 4 1 \"Autopilot\"",
    "OTWToggleFrameRate -1 0 0X21 0 0X2E 4 1 \"Frame rate\"",
    "SimMissileStep -1 0 0X35 1 0 0 1 \"Missile step\"",
    "SimMIDSLVTInc -1 0 0X35 5 0 0 1 \"MIDS LVT\"",
    "SimTrimAPDisc 0 -1 0XFFFFFFFF 0 0 0 1 \"not a key\"",
];

fn basic() -> FalconKeyfile {
    match parse(String::from("basic.key"), lines_of(BASIC)) {
        Ok(k) => k,
        Err(e) => panic!("{:?}", e),
    }
}

#[test]
fn parse_key_file_bindings() {
    let result = basic();

    let callback = result.callback("AFElevatorTrimUp");
    assert!(callback.is_some());
    let callback = callback.unwrap();
    assert_eq!(callback.readable_key_code, Key::UpArrow);
    assert_eq!(callback.key_code, 0xC8);
    assert_eq!(callback.modifiers, vec![Modifier::LCONTROL]);

    let callback = result.callback("AFBrakesToggle").unwrap();
    assert_eq!(callback.readable_key_code, Key::B);
    assert_eq!(callback.modifiers, vec![]);

    let callback = result.callback("OTWBalanceIVCvsAIUp").unwrap();
    assert_eq!(callback.readable_key_code, Key::Unicode(']'));

    let callback = result.callback("OTWBalanceIVCvsAIDown").unwrap();
    assert_eq!(callback.readable_key_code, Key::Unicode('['));

    let callback = result.callback("AFElevatorUp").unwrap();
    assert_eq!(callback.readable_key_code, Key::UpArrow);
    assert_eq!(callback.modifiers, vec![Modifier::LSHIFT, Modifier::LCONTROL]);

    let callback = result.callback("SimPilotToggle").unwrap();
    assert_eq!(callback.readable_key_code, Key::P);
    assert!(callback.modifiers.is_empty());
    assert_eq!(callback.readable_combo_key_code, Key::C);
    assert_eq!(callback.combo_modifiers, vec![Modifier::LALT]);

    let callback = result.callback("OTWToggleFrameRate").unwrap();
    assert_eq!(callback.readable_key_code, Key::F);
    assert!(callback.modifiers.is_empty());
    assert_eq!(callback.readable_combo_key_code, Key::C);
    assert_eq!(callback.combo_modifiers, vec![Modifier::LALT]);
}

#[test]
fn parse_key_file_slash_keys() {
    let result = basic();
    let callback = result.callback("SimMissileStep").unwrap();
    assert_eq!(callback.readable_key_code, Key::Unicode('/'));
    assert_eq!(callback.modifiers, vec![Modifier::LSHIFT]);

    let callback = result.callback("SimMIDSLVTInc").unwrap();
    assert_eq!(callback.readable_key_code, Key::Unicode('/'));
    assert_eq!(callback.modifiers, vec![Modifier::LSHIFT, Modifier::LALT]);
}

#[test]
fn skipped_lines_bind_nothing() {
    let result = basic();
    assert!(result.callback("SimDoNothing").is_none());
    assert!(result.callback("SimTrimAPDisc").is_none());
    assert!(result.callback("# a comment").is_none());
    assert!(result.callback("NoSuchCallback").is_none());
}

#[test]
fn describe_counts_callbacks() {
    assert_eq!(basic().describe(), "basic.key with 9 callbacks.");
    let empty = parse(String::from("empty.key"), lines_of(&["header"])).unwrap();
    assert_eq!(empty.describe(), "empty.key with 0 callbacks.");
}

#[test]
fn header_line_is_passed_over() {
    let k = parse(
        String::from("h.key"),
        lines_of(&["AFBrakesToggle -1 0 0X30 0 0 0 1 \"x\"", "SimPilotToggle -1 0 0X19 0 0 0 1 \"y\""]),
    )
    .unwrap();
    assert!(k.callback("AFBrakesToggle").is_none());
    assert_eq!(k.callback("SimPilotToggle").unwrap().readable_key_code, Key::P);
}

#[test]
fn empty_key_file_is_refused() {
    assert!(matches!(parse(String::from("e.key"), vec![]), Err(KeyFileError::Empty)));
}

#[test]
fn read_error_is_reported() {
    let lines = vec![
        Ok(String::from("header")),
        Ok(String::from("AFBrakesToggle -1 0 0X30 0 0 0 1 \"x\"")),
        Err(std::io::Error::new(std::io::ErrorKind::InvalidData, "bad line")),
        Ok(String::from("this line is not read")),
    ];
    match parse(String::from("r.key"), lines) {
        Err(KeyFileError::ReadError(e)) => assert_eq!(e.kind(), std::io::ErrorKind::InvalidData),
        other => panic!("unexpected: {:?}", other),
    }
}

#[test]
fn unreadable_header_is_passed_over() {
    let lines = vec![
        Err(std::io::Error::new(std::io::ErrorKind::InvalidData, "bad header")),
        Ok(String::from("AFBrakesToggle -1 0 0X30 0 0 0 1 \"x\"")),
    ];
    let k = parse(String::from("r.key"), lines).unwrap();
    assert_eq!(k.describe(), "r.key with 1 callbacks.");
}

#[test]
fn later_binding_wins() {
    let k = parse(
        String::from("w.key"),
        lines_of(&[
            "header",
            "AFBrakesToggle -1 0 0X30 0 0 0 1 \"x\"",
            "AFBrakesToggle -1 0 0X31 4 0X1D 1 1 \"y\"",
        ]),
    )
    .unwrap();
    let c = k.callback("AFBrakesToggle").unwrap();
    assert_eq!(c.name, "AFBrakesToggle");
    assert_eq!(c.readable_key_code, Key::N);
    assert_eq!(c.key_code, 0x31);
    assert_eq!(c.modifiers, vec![Modifier::LALT]);
    assert_eq!(c.combo_key_code, 0x1D);
    assert_eq!(c.readable_combo_key_code, Key::LControl);
    assert_eq!(c.combo_modifiers, vec![Modifier::LSHIFT]);
    assert_eq!(k.describe(), "w.key with 1 callbacks.");
}

#[test]
fn leading_whitespace_and_decimal_codes() {
    let k = parse(
        String::from("d.key"),
        lines_of(&["header", "  \tSimFire  -1 0  57 +6 0 0 1", "\tSimDoNothing x y"]),
    )
    .unwrap();
    let c = k.callback("SimFire").unwrap();
    assert_eq!(c.readable_key_code, Key::Space);
    assert_eq!(c.modifiers, vec![Modifier::LCONTROL, Modifier::LALT]);
    assert_eq!(c.readable_combo_key_code, Key::Other(0));
    assert!(k.callback("SimDoNothing").is_none());
}

#[test]
fn well_formed_lines() {
    assert!(is_key_file_line(""));
    assert!(is_key_file_line("# anything at all"));
    assert!(is_key_file_line("SimDoNothingAtAll"));
    assert!(is_key_file_line("  SimDoNothing"));
    assert!(is_key_file_line("SimTrim 1 -3 x y"));
    assert!(is_key_file_line("AFBrakesToggle -1 0 0X30 0 0 0"));
    assert!(!is_key_file_line("   "));
    assert!(!is_key_file_line("AFBrakesToggle -1"));
    assert!(!is_key_file_line("AFBrakesToggle -1 zero 0X30 0 0 0"));
    assert!(!is_key_file_line("AFBrakesToggle -1 0 0X30 0 0"));
    assert!(!is_key_file_line("AFBrakesToggle -1 0 0X36 0 0 0"));
    assert!(!is_key_file_line("AFBrakesToggle -1 0 0X30 0 0 0x"));
    assert!(!is_key_file_line("AFBrakesToggle -1 99999999999999999999 0X30 0 0 0"));
}

#[test]
fn cloned_key_file_binds_the_same() {
    let k = basic();
    let c = k.clone();
    assert_eq!(c.describe(), k.describe());
    assert_eq!(c.callback("SimPilotToggle").unwrap().combo_key_code, 0x2E);
    let cb = c.callback("AFElevatorUp").unwrap();
    let copy = cb.clone();
    assert_eq!(copy.name, cb.name);
    assert_eq!(copy.modifiers, cb.modifiers);
}

#[test]
fn new_keeps_last_binding_per_name() {
    let make = |name: &str, key: Key, code: u16| Callback {
        name: name.to_string(),
        key_code: code,
        readable_key_code: key,
        modifiers: vec![],
        combo_key_code: 0,
        readable_combo_key_code: Key::Other(0),
        combo_modifiers: vec![],
    };
    let k = FalconKeyfile::new(
        String::from("n.key"),
        vec![
            (String::from("A"), make("A", Key::A, 30)),
            (String::from("B"), make("B", Key::B, 48)),
            (String::from("A"), make("A", Key::Q, 16)),
        ],
    );
    assert_eq!(k.callback("A").unwrap().readable_key_code, Key::Q);
    assert_eq!(k.callback("B").unwrap().key_code, 48);
    assert_eq!(k.describe(), "n.key with 2 callbacks.");
}

#[test]
fn proposals_are_closest_first() {
    let k = basic();
    let names = k.propose_callback_names(String::from("AFElevatorUp"), 2);
    assert_eq!(names, vec![String::from("AFElevatorUp"), String::from("AFElevatorTrimUp")]);

    let names = k.propose_callback_names(String::from("SimPilotToggle"), 1);
    assert_eq!(names, vec![String::from("SimPilotToggle")]);

    let names = k.propose_callback_names(String::from("OTWBalanceIVCvsAIDowm"), 1);
    assert_eq!(names, vec![String::from("OTWBalanceIVCvsAIDown")]);

    let names = k.propose_callback_names(String::from("x"), 0);
    assert!(names.is_empty());

    let mut all = k.propose_callback_names(String::from("x"), 100);
    assert_eq!(all.len(), 9);
    all.sort();
    assert_eq!(all[0], "AFBrakesToggle");
}

#[test]
fn inserted_lines_binding_nothing_change_nothing() {
    let mut more: Vec<&str> = BASIC.to_vec();
    more.insert(3, "");
    more.insert(5, "# another comment");
    more.insert(7, "SimDoNothingHere 1 2 3");
    more.insert(9, "SimBlah 0 7 whatever");
    let a = basic();
    let b = parse(String::from("basic.key"), lines_of(&more)).unwrap();
    assert_eq!(a.describe(), b.describe());
    for name in ["AFElevatorTrimUp", "AFBrakesToggle", "SimPilotToggle", "SimBlah", "SimMIDSLVTInc"] {
        let x = a.callback(name);
        let y = b.callback(name);
        assert_eq!(x.is_some(), y.is_some());
        if let (Some(x), Some(y)) = (x, y) {
            assert_eq!(x.key_code, y.key_code);
            assert_eq!(x.modifiers, y.modifiers);
            assert_eq!(x.combo_key_code, y.combo_key_code);
        }
    }
}

#[test]
fn header_only_key_file() {
    let k = parse(String::from("h.key"), lines_of(&[""])).unwrap();
    assert_eq!(k.describe(), "h.key with 0 callbacks.");
}
