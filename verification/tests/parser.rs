use chattui::app::reconsile::Command;
use chattui::app::reconsile::Entry;
use chattui::app::reconsile::Expected;
use chattui::app::reconsile::ParseErr;
use chattui::app::reconsile::message_parser;
use chattui::app::reconsile::root_parser;

#[test]
fn parse_plain_message() {
    match root_parser("hello world").unwrap() {
        Entry::Message { message } => assert_eq!(message, "hello world"),
        _ => panic!("expected a message"),
    }
}

#[test]
fn parse_empty_line_is_message() {
    match root_parser("").unwrap() {
        Entry::Message { message } => assert_eq!(message, ""),
        _ => panic!("expected a message"),
    }
}

#[test]
fn parse_exit() {
    match root_parser("/exit").unwrap() {
        Entry::Command { command, args } => {
            assert!(matches!(command, Command::Exit));
            assert!(args.is_empty());
        }
        _ => panic!("expected a command"),
    }
}

#[test]
fn parse_create_with_name() {
    match root_parser("/create bot1").unwrap() {
        Entry::Command { command, args } => {
            assert!(matches!(command, Command::CreateChat));
            assert_eq!(args, vec!["bot1".to_string()]);
        }
        _ => panic!("expected a command"),
    }
}

#[test]
fn parse_delete_two_args() {
    match root_parser("/delete a b2").unwrap() {
        Entry::Command { command, args } => {
            assert!(matches!(command, Command::DeleteChat));
            assert_eq!(args, vec!["a".to_string(), "b2".to_string()]);
        }
        _ => panic!("expected a command"),
    }
}

#[test]
fn parse_brainwash() {
    match root_parser("/brainwash").unwrap() {
        Entry::Command { command, args } => {
            assert!(matches!(command, Command::Clear));
            assert!(args.is_empty());
        }
        _ => panic!("expected a command"),
    }
}

#[test]
fn parse_escaped_space_stays_in_one_arg() {
    match root_parser("/create foo\\ bar").unwrap() {
        Entry::Command { command, args } => {
            assert!(matches!(command, Command::CreateChat));
            assert_eq!(args, vec!["foo\\ bar".to_string()]);
        }
        _ => panic!("expected a command"),
    }
}

#[test]
fn parse_unknown_command_is_hard_failure() {
    let err = root_parser("/bogus").unwrap_err();
    assert_eq!(err, ParseErr { pos: 1, expected: Expected::CommandWord });
}

#[test]
fn parse_no_fallback_after_slash() {
    // A slash line is never downgraded to a message, even though the tail
    // would be a fine message on its own.
    let err = root_parser("/exitfoo").unwrap_err();
    assert_eq!(err, ParseErr { pos: 5, expected: Expected::Separator });
}

#[test]
fn parse_trailing_space_needs_argument() {
    let err = root_parser("/create ").unwrap_err();
    assert_eq!(err, ParseErr { pos: 8, expected: Expected::Argument });
}

#[test]
fn parse_double_space_needs_argument() {
    let err = root_parser("/delete a  b").unwrap_err();
    assert_eq!(err, ParseErr { pos: 10, expected: Expected::Argument });
}

#[test]
fn parse_bad_escape_stops_argument() {
    let err = root_parser("/create a\\x").unwrap_err();
    assert_eq!(err, ParseErr { pos: 9, expected: Expected::Separator });
}

#[test]
fn describe_names_position_and_expectation() {
    let e = ParseErr { pos: 12, expected: Expected::Argument };
    assert_eq!(e.describe(), "parse error at 12: expected an argument");
    let e = ParseErr { pos: 1, expected: Expected::CommandWord };
    assert_eq!(e.describe(), "parse error at 1: expected a command name");
    let e = ParseErr { pos: 5, expected: Expected::Separator };
    assert_eq!(
        e.describe(),
        "parse error at 5: expected a space or the end of the line"
    );
}

#[test]
fn message_parser_keeps_line_verbatim() {
    assert_eq!(message_parser("anything at all"), "anything at all");
    assert_eq!(message_parser(""), "");
}
