use uwb_delay_test::interactive::{
    input_line, parse_master_command, MasterCommand, parse_command, parse_trimmed_command, restore_terminal, same_text, setup_terminal, Command,
    LineBuffer,
};

#[test]
fn quit_words() {
    assert!(matches!(parse_command("/q"), Command::Quit));
    assert!(matches!(parse_command("/quit"), Command::Quit));
    assert!(matches!(parse_command("/exit"), Command::Quit));
}

#[test]
fn status_and_help_words() {
    assert!(matches!(parse_command("/s"), Command::Status));
    assert!(matches!(parse_command("/status"), Command::Status));
    assert!(matches!(parse_command("/h"), Command::Help));
    assert!(matches!(parse_command("/help"), Command::Help));
}

#[test]
fn surrounding_whitespace_is_ignored() {
    assert!(matches!(parse_command("  /q \n"), Command::Quit));
    assert!(matches!(parse_command("\t/status\r\n"), Command::Status));
    match parse_command("  /x  ") {
        Command::Unknown(s) => assert_eq!(s, "/x"),
        _ => panic!("expected an unknown command"),
    }
}

#[test]
fn unknown_commands_keep_text() {
    match parse_command("hello") {
        Command::Unknown(s) => assert_eq!(s, "hello"),
        _ => panic!("expected an unknown command"),
    }
    match parse_command("/quitx") {
        Command::Unknown(s) => assert_eq!(s, "/quitx"),
        _ => panic!("expected an unknown command"),
    }
    match parse_command("   ") {
        Command::Unknown(s) => assert_eq!(s, ""),
        _ => panic!("expected an unknown command"),
    }
}

#[test]
fn trimmed_command_is_not_trimmed_again() {
    match parse_trimmed_command(" /q") {
        Command::Unknown(s) => assert_eq!(s, " /q"),
        _ => panic!("expected an unknown command"),
    }
}

#[test]
fn same_text_compares_chars() {
    assert!(same_text("abc", "abc"));
    assert!(!same_text("abc", "abd"));
    assert!(!same_text("ab", "abc"));
    assert!(same_text("", ""));
    assert!(same_text("héllo", "héllo"));
}

#[test]
fn terminal_setup_succeeds() {
    assert!(setup_terminal().is_ok());
    assert!(restore_terminal().is_ok());
}

#[test]
fn line_buffer_starts_empty() {
    let lb = LineBuffer::new();
    assert!(lb.buffer.is_empty());
}

#[test]
fn master_command_words() {
    assert_eq!(parse_master_command("/q"), MasterCommand::Quit);
    assert_eq!(parse_master_command("/exit"), MasterCommand::Quit);
    assert_eq!(parse_master_command("/s"), MasterCommand::Scan);
    assert_eq!(parse_master_command("/scan"), MasterCommand::Scan);
    assert_eq!(parse_master_command("/t"), MasterCommand::Test);
    assert_eq!(parse_master_command("/test"), MasterCommand::Test);
    assert_eq!(parse_master_command("/help"), MasterCommand::Help);
    assert_eq!(parse_master_command("/status"), MasterCommand::Unknown);
    assert_eq!(parse_master_command(" /q"), MasterCommand::Unknown);
}

#[test]
fn unicode_white_space_is_trimmed() {
    assert!(matches!(parse_command("\u{3000}/q\u{a0}"), Command::Quit));
    assert!(matches!(parse_command("\u{2028}/help\u{85}"), Command::Help));
}

#[test]
fn input_lines() {
    assert_eq!(input_line("  /s \n"), Some("/s".to_string()));
    assert_eq!(input_line(" \t\r\n"), None);
    assert_eq!(input_line(""), None);
}
