use minmux::config::{parse_yaml_to_dict, ConfigEntry};
use minmux::session::{
    backspace_sequence, entry_kind, keyboard_input, keyboard_triggers, read_until_step, screen_output,
    startup_scripts, Capture, EntryKind, KeyInput, ReadUntil, CAPTURE_LEN,
};

fn entry(id: &str, when: &str, code: &str, trigger: Option<&str>) -> ConfigEntry {
    ConfigEntry {
        id: id.to_string(),
        when: when.to_string(),
        code: code.to_string(),
        trigger: trigger.map(|t| t.to_string()),
    }
}

#[test]
fn capture_keeps_latest() {
    let mut c = Capture::new();
    assert_eq!(c.len(), 0);
    let data: Vec<u8> = (0..200u8).collect();
    for _ in 0..6 {
        c.push(&data, 200);
    }
    assert_eq!(c.len(), CAPTURE_LEN);
    let mut all: Vec<u8> = Vec::new();
    for _ in 0..6 {
        all.extend_from_slice(&data);
    }
    assert_eq!(c.bytes(), &all[all.len() - CAPTURE_LEN..]);
    c.drop_last();
    assert_eq!(c.len(), CAPTURE_LEN - 1);
    c.clear();
    assert_eq!(c.len(), 0);
    c.drop_last();
    assert_eq!(c.len(), 0);
}

#[test]
fn capture_text_is_lossy() {
    let mut c = Capture::new();
    c.push(b"ok \xff", 4);
    assert_eq!(c.text(), "ok \u{fffd}");
}

#[test]
fn kinds() {
    assert_eq!(entry_kind("lua"), EntryKind::Lua);
    assert_eq!(entry_kind("Keyboard"), EntryKind::Keyboard);
    assert_eq!(entry_kind("TERM"), EntryKind::Term);
    assert_eq!(entry_kind("terminal"), EntryKind::Other);
    assert_eq!(entry_kind(""), EntryKind::Other);
}

#[test]
fn read_until_waits_for_the_pattern() {
    let mut c = Capture::new();
    let mut buf = [0u8; 256];
    buf[..5].copy_from_slice(b"[me@h");
    assert!(matches!(read_until_step(&mut c, "\\$ $", &buf, 5), ReadUntil::Waiting));
    buf[..4].copy_from_slice(b" ~]$");
    assert!(matches!(read_until_step(&mut c, "\\$ $", &buf, 4), ReadUntil::Waiting));
    buf[..1].copy_from_slice(b" ");
    match read_until_step(&mut c, "\\$ $", &buf, 1) {
        ReadUntil::Found(text) => assert_eq!(text, "[me@h ~]$ "),
        _ => panic!("the prompt should match"),
    }
    assert!(matches!(read_until_step(&mut c, "x", &buf, 0), ReadUntil::Closed));
    assert!(matches!(read_until_step(&mut c, "x", &buf, -1), ReadUntil::Closed));
    assert!(matches!(read_until_step(&mut c, "(", &buf, 1), ReadUntil::BadPattern));
}

#[test]
fn keyboard_editing() {
    let mut kbd = Capture::new();
    assert!(matches!(keyboard_input(&mut kbd, b"l", 1), KeyInput::Typed));
    assert!(matches!(keyboard_input(&mut kbd, b"s", 1), KeyInput::Typed));
    assert!(matches!(keyboard_input(&mut kbd, &[127], 1), KeyInput::Typed));
    assert_eq!(kbd.bytes(), b"l");
    assert!(matches!(keyboard_input(&mut kbd, b"\x1b[A", 3), KeyInput::Typed));
    assert_eq!(kbd.bytes(), b"l\x1b[A");
    assert!(matches!(keyboard_input(&mut kbd, b"", 0), KeyInput::Closed));
    assert_eq!(kbd.len(), 4);
    let mut empty = Capture::new();
    assert!(matches!(keyboard_input(&mut empty, &[127], 1), KeyInput::Typed));
    assert_eq!(empty.len(), 0);
}

#[test]
fn keyboard_triggers_fire_and_reset() {
    let dict = parse_yaml_to_dict(vec![
        entry("a", "keyboard", "onls()", Some("ls$")),
        entry("b", "KEYBOARD", "onl()", Some("^l")),
        entry("c", "term", "never()", Some("ls")),
        entry("d", "keyboard", "none()", None),
    ]);
    let mut kbd = Capture::new();
    kbd.push(b"ls", 2);
    let fired = keyboard_triggers(&dict, &mut kbd);
    assert_eq!(fired.codes, vec!["onls()".to_string(), "onl()".to_string()]);
    assert!(!fired.bad_pattern);
    assert_eq!(kbd.len(), 0);

    kbd.push(b"cd", 2);
    let fired = keyboard_triggers(&dict, &mut kbd);
    assert!(fired.codes.is_empty());
    assert_eq!(kbd.bytes(), b"cd");
}

#[test]
fn keyboard_bad_trigger_stops() {
    let dict = parse_yaml_to_dict(vec![
        entry("a", "keyboard", "first()", Some("x")),
        entry("b", "keyboard", "bad()", Some("(")),
        entry("c", "keyboard", "later()", Some("x")),
    ]);
    let mut kbd = Capture::new();
    kbd.push(b"x", 1);
    let fired = keyboard_triggers(&dict, &mut kbd);
    assert_eq!(fired.codes, vec!["first()".to_string()]);
    assert!(fired.bad_pattern);
    assert_eq!(kbd.len(), 0);
}

#[test]
fn screen_output_splits_at_the_match() {
    let dict = parse_yaml_to_dict(vec![entry("t", "term", "seen()", Some("secret"))]);
    let mut screen = Capture::new();
    let update = screen_output(&dict, &mut screen, b"my secret!", 10).unwrap();
    assert!(!update.echo);
    assert!(!update.bad_pattern);
    assert_eq!(update.matches.len(), 1);
    let m = &update.matches[0];
    assert_eq!(m.before, b"my ");
    assert_eq!(m.matched, b"secret");
    assert_eq!(m.after, b"!");
    assert_eq!(m.code, "seen()");
    assert_eq!(screen.len(), 0);

    let update = screen_output(&dict, &mut screen, b"plain", 5).unwrap();
    assert!(update.echo);
    assert!(update.matches.is_empty());
    assert_eq!(screen.bytes(), b"plain");
    assert!(screen_output(&dict, &mut screen, b"", 0).is_none());
}

#[test]
fn startup_and_backspace() {
    let dict = parse_yaml_to_dict(vec![
        entry("a", "Lua", "a()", None),
        entry("b", "term", "b()", Some("x")),
        entry("c", "LUA", "c()", None),
    ]);
    assert_eq!(startup_scripts(&dict), vec!["a()".to_string(), "c()".to_string()]);
    assert_eq!(backspace_sequence(3), vec![127, 127, 127]);
    assert!(backspace_sequence(0).is_empty());
    assert!(backspace_sequence(-4).is_empty());
}
