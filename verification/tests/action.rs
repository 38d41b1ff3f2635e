use iumenu::action::split_command;

#[test]
fn command_is_split_into_program_and_arguments() {
    let (program, args) = split_command("firefox --new-window %u").unwrap();
    assert_eq!(program, "firefox");
    assert_eq!(args, vec!["--new-window", "%u"]);
}

#[test]
fn command_without_arguments() {
    let (program, args) = split_command("  gimp  ").unwrap();
    assert_eq!(program, "gimp");
    assert!(args.is_empty());
}

#[test]
fn blank_command_names_no_program() {
    assert!(split_command("").is_none());
    assert!(split_command(" \t\n").is_none());
}

#[test]
fn program_and_arguments_hold_no_white_space() {
    let (program, args) = split_command("\tenv  A=1\u{a0}code   --wait ").unwrap();
    assert_eq!(program, "env");
    assert_eq!(args, vec!["A=1", "code", "--wait"]);
    for word in std::iter::once(&program).chain(args.iter()) {
        assert!(!word.is_empty());
        assert!(!word.chars().any(char::is_whitespace));
    }
}
