use meatshell::launch::parse;

#[test]
fn no_flags_means_plain_launch() {
    let intent = parse(&["meatshell".to_string()]);
    assert!(!intent.new_window);
    assert!(intent.directory.is_none());
}

#[test]
fn new_window_flag_is_recognised() {
    let intent = parse(&["meatshell".to_string(), "--new-window".to_string()]);
    assert!(intent.new_window);
    assert!(intent.directory.is_none());
}

#[test]
fn unrelated_args_do_not_trigger_new_window() {
    let intent = parse(&["meatshell".to_string(), "--version".to_string()]);
    assert!(!intent.new_window);
    assert!(intent.directory.is_none());
}

#[test]
fn dir_flag_is_recognised() {
    let intent = parse(&[
        "meatshell".to_string(),
        "--new-window".to_string(),
        "--dir".to_string(),
        r"C:\Users\test".to_string(),
    ]);
    assert!(intent.new_window);
    assert_eq!(intent.directory.as_deref(), Some(r"C:\Users\test"));
}

#[test]
fn dir_flag_standalone() {
    let intent = parse(&[
        "meatshell".to_string(),
        "--dir".to_string(),
        "/home/user/projects".to_string(),
    ]);
    assert!(!intent.new_window);
    assert_eq!(intent.directory.as_deref(), Some("/home/user/projects"));
}

#[test]
fn empty_argument_vector_is_plain_launch() {
    let intent = parse(&[]);
    assert!(!intent.new_window);
    assert!(intent.directory.is_none());
}

#[test]
fn program_name_is_not_a_flag() {
    let intent = parse(&["--new-window".to_string()]);
    assert!(!intent.new_window);
    assert!(intent.directory.is_none());
}

#[test]
fn trailing_dir_flag_without_value_is_ignored() {
    let intent = parse(&["meatshell".to_string(), "--dir".to_string()]);
    assert!(!intent.new_window);
    assert!(intent.directory.is_none());
}

#[test]
fn later_dir_replaces_earlier() {
    let intent = parse(&[
        "meatshell".to_string(),
        "--dir".to_string(),
        "/a".to_string(),
        "--dir".to_string(),
        "/b".to_string(),
    ]);
    assert_eq!(intent.directory.as_deref(), Some("/b"));
}

#[test]
fn dir_value_is_taken_even_if_it_looks_like_a_flag() {
    let intent = parse(&[
        "meatshell".to_string(),
        "--dir".to_string(),
        "--new-window".to_string(),
    ]);
    assert!(!intent.new_window);
    assert_eq!(intent.directory.as_deref(), Some("--new-window"));
}

#[test]
fn context_menu_arguments_ask_for_window_in_folder() {
    let intent = parse(&[
        r"C:\Program Files\meatshell\meatshell.exe".to_string(),
        "--new-window".to_string(),
        "--dir".to_string(),
        r"D:\work".to_string(),
    ]);
    assert!(intent.new_window);
    assert_eq!(intent.directory.as_deref(), Some(r"D:\work"));
}
