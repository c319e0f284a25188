use meatshell::single_instance::{
    ack_line, build_msg, endpoint_file_name, forward_line, is_ack, parse_msg, parse_port,
    port_text, requested_directory,
};

#[test]
fn message_for_plain_new_window() {
    assert_eq!(build_msg(None), "new-window\t");
}

#[test]
fn message_for_directory() {
    assert_eq!(build_msg(Some(r"C:\Users\test")), "new-window\tC:\\Users\\test");
}

#[test]
fn message_roundtrip() {
    for dir in [None, Some(""), Some("/home/user"), Some("a\tb"), Some("在此处")] {
        let msg = build_msg(dir);
        let (cmd, parsed) = parse_msg(&msg);
        assert_eq!(cmd, "new-window");
        let expected = match dir {
            Some(d) if !d.is_empty() => Some(d),
            _ => None,
        };
        assert_eq!(parsed, expected);
    }
}

#[test]
fn parse_msg_without_tab_has_no_directory() {
    assert_eq!(parse_msg("new-window"), ("new-window", None));
    assert_eq!(parse_msg(""), ("", None));
}

#[test]
fn parse_msg_keeps_unknown_commands() {
    assert_eq!(parse_msg("future-cmd\t/tmp"), ("future-cmd", Some("/tmp")));
    assert_eq!(parse_msg("\t/tmp"), ("", Some("/tmp")));
}

#[test]
fn forwarded_line_ends_with_newline() {
    assert_eq!(forward_line(Some("/x")), "new-window\t/x\n");
    assert_eq!(forward_line(None), "new-window\t\n");
}

#[test]
fn ack_is_recognised() {
    assert_eq!(ack_line(), "ack\n");
    assert!(is_ack("ack"));
    assert!(!is_ack("ack\n"));
    assert!(!is_ack("ACK"));
    assert!(!is_ack(""));
}

#[test]
fn requested_directory_of_received_line() {
    assert_eq!(requested_directory("new-window\t/srv"), Some("/srv".to_string()));
    assert_eq!(requested_directory("new-window\t"), None);
    assert_eq!(requested_directory("garbage"), None);
}

#[test]
fn endpoint_names() {
    assert_eq!(endpoint_file_name(true), "ipc.port");
    assert_eq!(endpoint_file_name(false), "ipc.sock");
}

#[test]
fn port_text_is_decimal() {
    assert_eq!(port_text(0), "0");
    assert_eq!(port_text(7), "7");
    assert_eq!(port_text(8080), "8080");
    assert_eq!(port_text(65535), "65535");
}

#[test]
fn port_file_roundtrip() {
    for p in [0u16, 1, 9, 10, 99, 100, 443, 8080, 49152, 65535] {
        assert_eq!(parse_port(&port_text(p)), Some(p));
    }
}

#[test]
fn parse_port_agrees_with_std() {
    for s in [
        "8080", " 8080\n", "\t42\r\n", "+80", "-1", "", "   ", "65535", "65536", "0080", "12a",
        "1 2", "+", "++1", "99999999999", "\u{3000}123\u{2029}", "\u{0085}5",
    ] {
        assert_eq!(parse_port(s), s.trim().parse::<u16>().ok(), "input {:?}", s);
    }
}
