//! Argument validation, command-list resolution and the text utilities.

use bobr::args::{
    resolve_commands, CallArgs, Command, Privilege, StdoutFormat, ValidateError,
};
use bobr::text::{parse_usize, split_whitespace, trim};

fn multiplex(stdout: Option<StdoutFormat>, parallelism: Option<usize>) -> Command {
    Command::Multiplex {
        program: vec![String::from("/bin/sh"), String::from("-c")],
        stdout,
        stderr: 3,
        commands: vec![String::from("echo hi")],
        parallelism,
    }
}

#[test]
fn stdout_format_args_lists_the_supported_names() {
    assert_eq!(StdoutFormat::args(), vec!["json", "yaml"]);
}

#[test]
fn validate_rejects_stdout_without_experimental() {
    let args = CallArgs {
        privileges: Privilege::Normal,
        command: multiplex(Some(StdoutFormat::Json), None),
    };
    let err = args.validate().unwrap_err();
    assert_eq!(err, ValidateError::ExperimentalStdout);
    assert_eq!(err.message(), "experimental flag (stdout)");
}

#[test]
fn validate_rejects_parallelism_without_experimental() {
    let args = CallArgs { privileges: Privilege::Normal, command: multiplex(None, Some(4)) };
    let err = args.validate().unwrap_err();
    assert_eq!(err, ValidateError::ExperimentalParallelism);
    assert_eq!(err.message(), "experimental flag (parallelism)");
}

#[test]
fn validate_prefers_the_stdout_rejection_when_both_flags_are_set() {
    let args = CallArgs {
        privileges: Privilege::Normal,
        command: multiplex(Some(StdoutFormat::Yaml), Some(4)),
    };
    assert_eq!(args.validate().unwrap_err(), ValidateError::ExperimentalStdout);
}

#[test]
fn validate_accepts_experimental_flags_with_the_privilege() {
    let args = CallArgs {
        privileges: Privilege::Experimental,
        command: multiplex(Some(StdoutFormat::Json), Some(4)),
    };
    assert!(args.validate().is_ok());
}

#[test]
fn validate_accepts_a_plain_multiplex() {
    let args = CallArgs { privileges: Privilege::Normal, command: multiplex(None, None) };
    assert!(args.validate().is_ok());
}

#[test]
fn resolved_commands_are_inline_then_files_in_order() {
    let inline = vec![String::from("a"), String::from("b")];
    let files = vec![
        vec![String::from("c")],
        vec![String::from("d"), String::from("e")],
    ];
    let all = resolve_commands(inline, files);
    assert_eq!(all, vec!["a", "b", "c", "d", "e"]);
}

#[test]
fn resolved_commands_without_files_keep_the_inline_order() {
    let inline = vec![String::from("x"), String::from("y")];
    let all = resolve_commands(inline, Vec::new());
    assert_eq!(all, vec!["x", "y"]);
}

#[test]
fn split_whitespace_splits_a_program_prefix() {
    assert_eq!(split_whitespace("/bin/sh -c"), vec!["/bin/sh", "-c"]);
    assert_eq!(split_whitespace("  python3   -u  "), vec!["python3", "-u"]);
    assert_eq!(split_whitespace(""), Vec::<String>::new());
    assert_eq!(split_whitespace(" \t\n "), Vec::<String>::new());
}

#[test]
fn parse_usize_reads_digit_strings_exactly() {
    assert_eq!(parse_usize("3"), Some(3));
    assert_eq!(parse_usize("007"), Some(7));
    assert_eq!(parse_usize("18446744073709551615"), Some(usize::MAX));
    assert_eq!(parse_usize("18446744073709551616"), None);
    assert_eq!(parse_usize(""), None);
    assert_eq!(parse_usize("4x"), None);
    assert_eq!(parse_usize("-1"), None);
}

#[test]
fn trim_removes_surrounding_whitespace() {
    assert_eq!(trim("  echo hi \n"), "echo hi");
    assert_eq!(trim("plain"), "plain");
    assert_eq!(trim(" \t "), "");
}
