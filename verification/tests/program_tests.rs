use falcon_bms_callbacker::config::Config;
use falcon_bms_callbacker::emulator::{
    invoke, is_extended_key, plan_send, raw, send_result, to_key, Direction, InputError, InputStep,
    KeyStroke, SendPlan,
};
use falcon_bms_callbacker::keyfile::{parse, Callback};
use falcon_bms_callbacker::keys::{Key, Modifier};
use falcon_bms_callbacker::messages::Message;
use falcon_bms_callbacker::sender::{CallbackSender, SenderAction};
use falcon_bms_callbacker::server::message_from_datagram;
use falcon_bms_callbacker::watcher::KeyfileWatcher;

fn down(scan: u16) -> KeyStroke {
    KeyStroke { scan, extended: false, key_up: false }
}

fn up(scan: u16) -> KeyStroke {
    KeyStroke { scan, extended: false, key_up: true }
}

fn sends(steps: &[InputStep]) -> Vec<String> {
    steps
        .iter()
        .map(|s| match s {
            InputStep::Send(v) => format!("{:?}", v),
            InputStep::Sleep(ms) => format!("sleep {}", ms),
        })
        .collect()
}

#[test]
fn default_config() {
    let c = Config::default();
    assert_eq!(c.log_level, "info");
    assert_eq!(c.listen_address, "0.0.0.0");
    assert_eq!(c.listen_port, 9027);
    assert_eq!(c.socket_address(), "0.0.0.0:9027");
}

#[test]
fn socket_address_of_other_settings() {
    let c = Config {
        log_level: String::from("debug"),
        listen_address: String::from("192.168.20.35"),
        listen_port: 9032,
    };
    assert_eq!(c.socket_address(), "192.168.20.35:9032");
    let c = Config { log_level: String::new(), listen_address: String::from("::1"), listen_port: 0 };
    assert_eq!(c.socket_address(), "::1:0");
}

#[test]
fn modifier_scan_codes() {
    assert_eq!(to_key(&Modifier::LSHIFT), 0x2A);
    assert_eq!(to_key(&Modifier::LCONTROL), 0x1D);
    assert_eq!(to_key(&Modifier::LALT), 0x38);
    assert!(is_extended_key(Key::NumpadEnter));
    assert!(!is_extended_key(Key::Return));
}

#[test]
fn raw_batches() {
    assert_eq!(raw(5, Direction::Press, false), vec![down(5)]);
    assert_eq!(raw(5, Direction::Release, false), vec![up(5)]);
    assert_eq!(
        raw(5, Direction::Click, true),
        vec![
            KeyStroke { scan: 5, extended: true, key_up: false },
            KeyStroke { scan: 5, extended: true, key_up: true }
        ]
    );
}

#[test]
fn invoke_strikes_combo_then_key() {
    let callback = Callback {
        name: String::from("SimPilotToggle"),
        key_code: 0x19,
        readable_key_code: Key::P,
        modifiers: vec![Modifier::LSHIFT, Modifier::LCONTROL],
        combo_key_code: 0x2E,
        readable_combo_key_code: Key::C,
        combo_modifiers: vec![Modifier::LALT],
    };
    let steps = invoke(&callback);
    let expected = vec![
        format!("{:?}", vec![down(0x38)]),
        String::from("sleep 10"),
        format!("{:?}", vec![down(0x2E), up(0x2E)]),
        format!("{:?}", vec![up(0x38)]),
        String::from("sleep 30"),
        format!("{:?}", vec![down(0x2A)]),
        format!("{:?}", vec![down(0x1D)]),
        String::from("sleep 10"),
        format!("{:?}", vec![down(0x19), up(0x19)]),
        format!("{:?}", vec![up(0x1D)]),
        format!("{:?}", vec![up(0x2A)]),
    ];
    assert_eq!(sends(&steps), expected);
}

#[test]
fn invoke_without_combo() {
    let callback = Callback {
        name: String::from("AFBrakesToggle"),
        key_code: 0x30,
        readable_key_code: Key::B,
        modifiers: vec![],
        combo_key_code: 0,
        readable_combo_key_code: Key::Other(0),
        combo_modifiers: vec![Modifier::LALT],
    };
    let steps = invoke(&callback);
    assert_eq!(
        sends(&steps),
        vec![String::from("sleep 10"), format!("{:?}", vec![down(0x30), up(0x30)])]
    );
}

#[test]
fn sending_batches() {
    assert!(matches!(plan_send(0, 40), SendPlan::Nothing));
    assert!(matches!(plan_send(2, 40), SendPlan::Send(2, 40)));
    assert!(matches!(
        plan_send(2, 1usize << 31),
        SendPlan::Reject(InputError::InvalidInput(_))
    ));
    assert_eq!(send_result(2, 2), Ok(()));
    assert_eq!(
        send_result(2, 1),
        Err(InputError::Simulate(
            "not all input events were sent. they may have been blocked by UIPI"
        ))
    );
}

#[test]
fn sender_follows_the_last_key_file() {
    let mut sender = CallbackSender::new();
    let action = sender.handle_message(Message::CallbackReceived { callback: String::from("AFBrakesToggle") });
    assert!(matches!(action, SenderAction::Ignore));

    let lines = vec![
        Ok(String::from("header")),
        Ok(String::from("AFBrakesToggle -1 0 0X30 0 0 0 1 \"x\"")),
    ];
    let key_file = parse(String::from("a.key"), lines).unwrap();
    match sender.handle_message(Message::KeyfileRead { key_file }) {
        SenderAction::KeyfileLoaded(line) => assert_eq!(line, "a.key with 1 callbacks."),
        other => panic!("unexpected: {:?}", other),
    }
    match sender.handle_message(Message::CallbackReceived { callback: String::from("AFBrakesToggle") }) {
        SenderAction::Invoke(c) => assert_eq!(c.readable_key_code, Key::B),
        other => panic!("unexpected: {:?}", other),
    }
    match sender.handle_message(Message::CallbackReceived { callback: String::from("Nope") }) {
        SenderAction::UnknownCallback(name) => assert_eq!(name, "Nope"),
        other => panic!("unexpected: {:?}", other),
    }

    let lines = vec![Ok(String::from("header")), Ok(String::from("Nope -1 0 0X31 0 0 0 1 \"x\""))];
    let key_file = parse(String::from("b.key"), lines).unwrap();
    sender.handle_message(Message::KeyfileRead { key_file });
    assert!(matches!(
        sender.handle_message(Message::CallbackReceived { callback: String::from("AFBrakesToggle") }),
        SenderAction::UnknownCallback(_)
    ));
    match sender.handle_message(Message::CallbackReceived { callback: String::from("Nope") }) {
        SenderAction::Invoke(c) => assert_eq!(c.readable_key_code, Key::N),
        other => panic!("unexpected: {:?}", other),
    }
}

#[test]
fn watcher_reads_changed_files_only() {
    let mut w = KeyfileWatcher::new();
    assert!(w.key_file_changed(b"first contents"));
    assert!(!w.key_file_changed(b"first contents"));
    assert!(w.key_file_changed(b"second contents"));
    assert!(!w.key_file_changed(b"second contents"));
    assert!(w.key_file_changed(b"first contents"));
}

#[test]
fn datagrams_name_callbacks() {
    match message_from_datagram("SimStepMasterArm\n") {
        Some(Message::CallbackReceived { callback }) => assert_eq!(callback, "SimStepMasterArm"),
        other => panic!("unexpected: {:?}", other),
    }
    match message_from_datagram("  \tSimFire \r\n") {
        Some(Message::CallbackReceived { callback }) => assert_eq!(callback, "SimFire"),
        other => panic!("unexpected: {:?}", other),
    }
    assert!(message_from_datagram("").is_none());
    assert!(message_from_datagram(" \r\n").is_none());
}

#[test]
fn watcher_compares_hashes() {
    let mut w = KeyfileWatcher::new();
    assert!(w.hash_changed(7));
    assert!(!w.hash_changed(7));
    assert!(w.hash_changed(8));
    assert!(w.hash_changed(7));
    assert!(!w.hash_changed(7));
}
