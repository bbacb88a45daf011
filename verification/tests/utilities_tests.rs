use minmux::utilities::{command_output, ensure_terminates_with_crlf, get_child_TTY, parse_ps_output};

#[test]
fn ps_output_table() {
    let out = "  PID  PPID TT\n  100     1 pts/0\n  200   100 pts/1\n garbage line\n 300 x pts/2\n 400 200\n";
    let table = parse_ps_output(out);
    assert_eq!(table.len(), 2);
    assert_eq!(table[&100].ppid, 1);
    assert_eq!(table[&100].tty, "/dev/pts/0");
    assert_eq!(table[&200].ppid, 100);
    assert_eq!(table[&200].tty, "/dev/pts/1");
}

#[test]
fn ps_output_later_line_wins() {
    let table = parse_ps_output("5 1 tty1\r\n5 2 tty2 extra\r\n");
    assert_eq!(table.len(), 1);
    assert_eq!(table[&5].ppid, 2);
    assert_eq!(table[&5].tty, "/dev/tty2");
}

#[test]
fn ps_output_empty() {
    assert!(parse_ps_output("").is_empty());
    assert!(parse_ps_output("PID PPID TT\n").is_empty());
}

#[test]
fn child_tty_is_last_line_below_header() {
    assert_eq!(get_child_TTY("TT\npts/1\n"), "/dev/pts/1");
    assert_eq!(get_child_TTY("TT\npts/1\npts/7"), "/dev/pts/7");
    assert_eq!(get_child_TTY("TT\n"), "");
    assert_eq!(get_child_TTY(""), "");
    assert_eq!(get_child_TTY("TT\r\n?\r\n"), "/dev/?");
}

#[test]
fn crlf_cases() {
    assert_eq!(ensure_terminates_with_crlf("ls\r\n".to_string()), "ls\r\n");
    assert_eq!(ensure_terminates_with_crlf("ls\n".to_string()), "ls\r\n");
    assert_eq!(ensure_terminates_with_crlf("ls\r".to_string()), "ls\r\n");
    assert_eq!(ensure_terminates_with_crlf("ls\n\r".to_string()), "ls\r\n");
    assert_eq!(ensure_terminates_with_crlf("a\nb\n".to_string()), "a\r\nb\r\n");
    assert_eq!(ensure_terminates_with_crlf("a\rb\r".to_string()), "a\r\nb\r\n");
    assert_eq!(ensure_terminates_with_crlf("a\n\rb\n\r".to_string()), "a\r\nb\r\n");
    assert_eq!(ensure_terminates_with_crlf("ls".to_string()), "ls");
    assert_eq!(ensure_terminates_with_crlf("".to_string()), "");
    assert_eq!(ensure_terminates_with_crlf("a\nb".to_string()), "a\nb");
}

#[test]
fn crlf_agrees_with_a_std_model_and_is_idempotent() {
    fn model(s: &str) -> String {
        let mut c = s.to_string();
        if !c.ends_with("\r\n") {
            if s.ends_with("\n\r") {
                c = c.replace("\n\r", "\r\n");
            } else if c.ends_with('\r') {
                c = c.replace('\r', "\r\n");
            } else if c.ends_with('\n') {
                c = c.replace('\n', "\r\n");
            }
        }
        c
    }
    let parts = ["a", "\r", "\n", "\r\n", "\n\r", "\n\n\r", "\r\r"];
    for x in parts {
        for y in parts {
            for z in parts {
                let s = format!("{}{}{}", x, y, z);
                let once = ensure_terminates_with_crlf(s.clone());
                assert_eq!(once, model(&s), "on {:?}", s);
                assert_eq!(ensure_terminates_with_crlf(once.clone()), once, "twice on {:?}", s);
                if s.ends_with('\r') || s.ends_with('\n') {
                    assert!(once.ends_with("\r\n"));
                }
            }
        }
    }
}

#[test]
fn command_output_text() {
    assert_eq!(command_output(true, b"PID\n1\n"), "PID\n1\n");
    assert_eq!(command_output(true, b"a\xffb"), "a\u{fffd}b");
    assert_eq!(command_output(false, b"ignored"), "");
}

#[test]
fn joined_listings_union_second_wins() {
    let a = "PID PPID TT\n1 0 tty1\n2 1 tty2\r";
    let b = "2 7 pts/9\n3 2 pts/3\n";
    let ta = parse_ps_output(a);
    let tb = parse_ps_output(b);
    let joined = parse_ps_output(&format!("{}\n{}", a, b));
    let mut keys: Vec<i32> = joined.keys().copied().collect();
    keys.sort();
    assert_eq!(keys, vec![1, 2, 3]);
    for k in keys {
        let expected = if tb.contains_key(&k) { &tb[&k] } else { &ta[&k] };
        assert_eq!(joined[&k].ppid, expected.ppid);
        assert_eq!(joined[&k].tty, expected.tty);
    }
}
