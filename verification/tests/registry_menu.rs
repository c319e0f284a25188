use meatshell::registry_menu::{
    byte_len_of, check_status, exe_arg, os_str_to_wide, set_reg_sz, split_key_path, unregister_key, verb_keys,
    verb_name, KeyHandle, MenuRegistration, RegistryCall, RegistryError, RegistryReply,
    RegistryStep,
};

fn wide(s: &str) -> Vec<u16> {
    s.encode_utf16().chain(std::iter::once(0)).collect()
}

#[test]
fn registers_context_menu_command_with_dir_flag() {
    let cmd = exe_arg(None);
    assert!(cmd.contains("--new-window"));
    assert!(cmd.contains("--dir"));
    assert!(cmd.contains("%V"));
    assert!(cmd.starts_with('"'));
}

#[test]
fn wide_conversion_terminates() {
    let w = os_str_to_wide("test");
    assert_eq!(*w.last().unwrap(), 0);
}

#[test]
fn split_key_path_returns_full_subkey() {
    let parts = split_key_path("Directory\\shell\\meatshell").unwrap();
    let sub_str = String::from_utf16_lossy(&parts.sub);
    assert_eq!(sub_str, "shell\\meatshell");
}

#[test]
fn split_bg_key_path_returns_full_subkey() {
    let parts = split_key_path("Directory\\Background\\shell\\meatshell").unwrap();
    let sub_str = String::from_utf16_lossy(&parts.sub);
    assert_eq!(sub_str, "Background\\shell\\meatshell");
}

#[test]
fn split_key_path_without_separator_is_malformed() {
    assert_eq!(split_key_path("Directory").unwrap_err(), RegistryError::MalformedKeyPath);
    assert_eq!(split_key_path("").unwrap_err(), RegistryError::MalformedKeyPath);
}

#[test]
fn split_key_path_with_trailing_separator_gives_empty_subkey() {
    let parts = split_key_path("Directory\\").unwrap();
    assert!(parts.sub.is_empty());
}

#[test]
fn exe_arg_quotes_the_program_path() {
    let cmd = exe_arg(Some(r"C:\Program Files\meatshell\meatshell.exe"));
    assert_eq!(
        cmd,
        "\"C:\\Program Files\\meatshell\\meatshell.exe\" --new-window --dir \"%V\""
    );
}

#[test]
fn exe_arg_falls_back_to_program_name() {
    assert_eq!(exe_arg(None), "\"meatshell.exe\" --new-window --dir \"%V\"");
}

#[test]
fn wide_conversion_matches_std_encoding() {
    for s in ["", "test", "在此处打开 Meatshell", "a\u{1F600}b", "\u{10FFFF}\u{FFFF}\u{10000}"] {
        assert_eq!(os_str_to_wide(s), wide(s));
    }
}

#[test]
fn byte_length_counts_two_bytes_per_unit() {
    assert_eq!(byte_len_of(&vec![0u16; 0]), 0);
    assert_eq!(byte_len_of(&wide("test")), 10);
}

#[test]
fn reg_sz_call_writes_default_value() {
    match set_reg_sz(7, None, "abc") {
        RegistryCall::SetString { key, name, value, byte_len } => {
            assert_eq!(key, 7);
            assert!(name.is_empty());
            assert_eq!(value, wide("abc"));
            assert_eq!(byte_len, 8);
        }
        other => panic!("unexpected call {:?}", other),
    }
    match set_reg_sz(7, Some("n"), "") {
        RegistryCall::SetString { name, value, byte_len, .. } => {
            assert_eq!(name, wide("n"));
            assert_eq!(value, vec![0u16]);
            assert_eq!(byte_len, 2);
        }
        other => panic!("unexpected call {:?}", other),
    }
}

#[test]
fn unregister_key_deletes_subtree() {
    match unregister_key("*\\shell\\meatshell").unwrap() {
        RegistryCall::DeleteTree { sub } => assert_eq!(sub, wide("*\\shell\\meatshell")),
        other => panic!("unexpected call {:?}", other),
    }
    assert_eq!(unregister_key("nokey").unwrap_err(), RegistryError::MalformedKeyPath);
}

#[test]
fn call_status_is_success_only_when_zero() {
    assert_eq!(check_status(0), Ok(()));
    assert_eq!(check_status(2), Err(RegistryError::Os(2)));
    assert_eq!(check_status(5), Err(RegistryError::Os(5)));
}

#[test]
fn verb_keys_and_label() {
    assert_eq!(
        verb_keys(),
        vec![
            "Directory\\shell\\meatshell".to_string(),
            "Directory\\Background\\shell\\meatshell".to_string(),
            "*\\shell\\meatshell".to_string(),
        ]
    );
    assert_eq!(verb_name(), "在此处打开 Meatshell");
}

fn ok(key: isize) -> RegistryReply {
    RegistryReply { status: 0, key }
}

#[test]
fn registration_with_every_call_accepted() {
    let command = "\"C:\\m.exe\" --new-window --dir \"%V\"";
    let (mut m, mut step) = MenuRegistration::register(command);
    let subs = [
        "Directory\\shell\\meatshell",
        "Directory\\Background\\shell\\meatshell",
        "*\\shell\\meatshell",
    ];
    for sub in subs {
        match step {
            RegistryStep::Call(RegistryCall::DeleteTree { sub: s }) => assert_eq!(s, wide(sub)),
            other => panic!("expected a deletion, got {:?}", other),
        }
        step = m.resume(RegistryReply { status: 2, key: 0 });
    }
    let mut handle: isize = 100;
    for sub in subs {
        match step {
            RegistryStep::Call(RegistryCall::CreateKey { parent, sub: s }) => {
                assert_eq!(parent, KeyHandle::ClassesRoot);
                assert_eq!(s, wide(sub));
            }
            other => panic!("expected a key creation, got {:?}", other),
        }
        let verb = handle;
        let cmd = handle + 1;
        handle += 2;
        step = m.resume(ok(verb));
        match step {
            RegistryStep::Call(RegistryCall::SetString { key, name, value, byte_len }) => {
                assert_eq!(key, verb);
                assert!(name.is_empty());
                assert_eq!(value, wide("在此处打开 Meatshell"));
                assert_eq!(byte_len as usize, 2 * value.len());
            }
            other => panic!("expected the label, got {:?}", other),
        }
        step = m.resume(ok(0));
        match step {
            RegistryStep::Call(RegistryCall::CreateKey { parent, sub: s }) => {
                assert_eq!(parent, KeyHandle::Opened(verb));
                assert_eq!(s, wide("command"));
            }
            other => panic!("expected the command key, got {:?}", other),
        }
        step = m.resume(ok(cmd));
        match step {
            RegistryStep::Call(RegistryCall::SetString { key, value, .. }) => {
                assert_eq!(key, cmd);
                assert_eq!(value, wide(command));
            }
            other => panic!("expected the command line, got {:?}", other),
        }
        step = m.resume(ok(0));
        match step {
            RegistryStep::Call(RegistryCall::CloseKey { key }) => assert_eq!(key, verb),
            other => panic!("expected a close, got {:?}", other),
        }
        step = m.resume(ok(0));
        match step {
            RegistryStep::Call(RegistryCall::CloseKey { key }) => assert_eq!(key, cmd),
            other => panic!("expected a close, got {:?}", other),
        }
        step = m.resume(ok(0));
    }
    match step {
        RegistryStep::Finished(r) => assert_eq!(r, Ok(())),
        other => panic!("expected the end, got {:?}", other),
    }
    match m.resume(ok(0)) {
        RegistryStep::Finished(r) => assert_eq!(r, Ok(())),
        other => panic!("expected the end, got {:?}", other),
    }
}

#[test]
fn failed_key_creation_stops_registration() {
    let (mut m, _) = MenuRegistration::register("cmd");
    for _ in 0..3 {
        m.resume(ok(0));
    }
    match m.resume(RegistryReply { status: 5, key: 0 }) {
        RegistryStep::Finished(r) => assert_eq!(r, Err(RegistryError::Os(5))),
        other => panic!("expected the end, got {:?}", other),
    }
    match m.resume(ok(0)) {
        RegistryStep::Finished(r) => assert_eq!(r, Err(RegistryError::Os(5))),
        other => panic!("expected the end, got {:?}", other),
    }
}

#[test]
fn failed_value_write_stops_registration() {
    let (mut m, _) = MenuRegistration::register("cmd");
    for _ in 0..3 {
        m.resume(ok(0));
    }
    m.resume(ok(10));
    match m.resume(RegistryReply { status: 13, key: 0 }) {
        RegistryStep::Finished(r) => assert_eq!(r, Err(RegistryError::Os(13))),
        other => panic!("expected the end, got {:?}", other),
    }
}

#[test]
fn unregistration_deletes_the_three_keys_and_succeeds() {
    let (mut m, mut step) = MenuRegistration::unregister();
    let mut deleted = Vec::new();
    loop {
        match step {
            RegistryStep::Call(RegistryCall::DeleteTree { sub }) => {
                deleted.push(String::from_utf16_lossy(&sub[..sub.len() - 1]));
                step = m.resume(RegistryReply { status: 2, key: 0 });
            }
            RegistryStep::Finished(r) => {
                assert_eq!(r, Ok(()));
                break;
            }
            other => panic!("unexpected step {:?}", other),
        }
    }
    assert_eq!(
        deleted,
        vec![
            "Directory\\shell\\meatshell",
            "Directory\\Background\\shell\\meatshell",
            "*\\shell\\meatshell"
        ]
    );
}

#[test]
fn malformed_key_is_skipped_when_clearing_and_fails_installation() {
    let (mut m, step) = MenuRegistration::start(
        vec!["nokey".to_string(), "A\\b".to_string()],
        "label".to_string(),
        "cmd".to_string(),
        true,
    );
    match step {
        RegistryStep::Call(RegistryCall::DeleteTree { sub }) => assert_eq!(sub, wide("A\\b")),
        other => panic!("unexpected step {:?}", other),
    }
    match m.resume(ok(0)) {
        RegistryStep::Finished(r) => assert_eq!(r, Err(RegistryError::MalformedKeyPath)),
        other => panic!("unexpected step {:?}", other),
    }
}

#[test]
fn failure_at_second_key_keeps_first_key_written() {
    let (mut m, mut step) = MenuRegistration::register("cmd");
    let mut calls = Vec::new();
    let mut replies = 0;
    loop {
        match step {
            RegistryStep::Call(call) => {
                calls.push(call);
                replies += 1;
                // fail the write of the second key's label
                let status = if replies == 3 + 6 + 2 { 87 } else { 0 };
                step = m.resume(RegistryReply { status, key: replies as isize });
            }
            RegistryStep::Finished(r) => {
                assert_eq!(r, Err(RegistryError::Os(87)));
                break;
            }
        }
    }
    let creations: Vec<&Vec<u16>> = calls
        .iter()
        .filter_map(|c| match c {
            RegistryCall::CreateKey { sub, .. } => Some(sub),
            _ => None,
        })
        .collect();
    assert_eq!(
        creations,
        vec![
            &wide("Directory\\shell\\meatshell"),
            &wide("command"),
            &wide("Directory\\Background\\shell\\meatshell"),
        ]
    );
    assert_eq!(calls.len(), 3 + 6 + 2);
}
