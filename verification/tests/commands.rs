use zero_shell::command::{
    command_list, echo_callback, exit_callback, is_executable, map_echo_escape, parse_permissions,
    Command, CommandList, CommandResult, Dispatch,
};

fn done(d: Dispatch) -> CommandResult {
    match d {
        Dispatch::Done(res) => res,
        Dispatch::Invoke { name, .. } => panic!("expected a settled result, got invoke of {}", name),
    }
}

#[test]
fn test_echo_basic() {
    let res = echo_callback(vec![], vec!["hello".to_string(), "world".to_string()]);
    assert_eq!(res.stdout, "hello world\n");
}

#[test]
fn test_echo_escapes() {
    let res = echo_callback(vec!["-e".to_string()], vec!["hello\\nworld".to_string()]);
    assert_eq!(res.stdout, "hello\nworld\n");
}

#[test]
fn test_exit() {
    let res = exit_callback(vec![], vec![]);
    assert!(res.should_exit);
}

#[test]
fn test_command_list_execute() {
    let cmds = command_list();

    // Test help
    let res = done(cmds.execute("help".to_string(), vec![], vec![]));
    assert!(res.stdout.contains("Available commands"));

    // Test unrecognized
    let res = done(cmds.execute("nope".to_string(), vec![], vec![]));
    assert!(res.stderr.contains("command not found"));

    // Test command help flag
    let res = done(cmds.execute("ls".to_string(), vec!["-h".to_string()], vec![]));
    assert!(res.stdout.contains("Usage: ls [-a] [-l] [-F] [FILE...]"));

    // Test required args
    let res = done(cmds.execute("mkdir".to_string(), vec![], vec![]));
    assert!(res.stderr.contains("missing operand"));
}

#[test]
fn test_command_result_constructors() {
    let r = CommandResult::new();
    assert_eq!(r.stdout, "");
    assert_eq!(r.stderr, "");
    assert!(!r.should_exit);

    let r = CommandResult::with_stdout("out".to_string());
    assert_eq!(r.stdout, "out");
    assert_eq!(r.stderr, "");
    assert!(!r.should_exit);

    let r = CommandResult::with_stderr("err".to_string());
    assert_eq!(r.stdout, "");
    assert_eq!(r.stderr, "err");
    assert!(!r.should_exit);

    let r = CommandResult::exit();
    assert!(r.should_exit);
    assert_eq!(r.stdout, "");
    assert_eq!(r.stderr, "");
}

#[test]
fn test_execute_invokes_known_command() {
    let cmds = command_list();
    let d = cmds.execute(
        "rm".to_string(),
        vec!["-r".to_string()],
        vec!["some_dir".to_string()],
    );
    match d {
        Dispatch::Invoke { name, flags, args } => {
            assert_eq!(name, "rm");
            assert_eq!(flags, vec!["-r"]);
            assert_eq!(args, vec!["some_dir"]);
        }
        Dispatch::Done(_) => panic!("expected an invocation"),
    }
}

#[test]
fn test_execute_not_found_message() {
    let cmds = command_list();
    let res = done(cmds.execute("frobnicate".to_string(), vec![], vec![]));
    assert_eq!(res.stderr, "0-shell: frobnicate: command not found");
    assert_eq!(res.stdout, "");
}

#[test]
fn test_execute_missing_operand_message() {
    let cmds = command_list();
    let res = done(cmds.execute("cp".to_string(), vec![], vec![]));
    assert_eq!(
        res.stderr,
        "cp: missing operand.\nTry 'help' or 'cp --help' for more information."
    );
}

#[test]
fn test_execute_long_help_flag() {
    let cmds = command_list();
    let res = done(cmds.execute("echo".to_string(), vec!["--help".to_string()], vec![]));
    assert_eq!(res.stdout, "Usage: echo [-e] [text ...] - display a line of text\n");
}

#[test]
fn test_help_lists_every_builtin() {
    let cmds = command_list();
    let res = done(cmds.execute("help".to_string(), vec![], vec![]));
    for name in ["exit", "echo", "pwd", "cd", "mkdir", "cat", "cp", "mv", "rm", "ls"] {
        assert!(res.stdout.contains(&format!("  {}", name)));
    }
    assert!(res.stdout.starts_with("Available commands:\n"));
    assert!(res.stdout.contains("  exit       - exit - cause the shell to exit\n"));
}

#[test]
fn test_register_replaces_in_place() {
    let mut cmds = CommandList::new();
    cmds.register("probe".to_string(), Command::new("probe - first help", false));
    cmds.register("probe".to_string(), Command::new("probe - second help", true));
    let res = done(cmds.execute("probe".to_string(), vec!["-h".to_string()], vec![]));
    assert_eq!(res.stdout, "Usage: probe - second help\n");
    let res = done(cmds.execute("probe".to_string(), vec![], vec![]));
    assert!(res.stderr.contains("missing operand"));
}

#[test]
fn test_echo_stop_sequence() {
    // `\c` ends the output and suppresses the trailing newline.
    let res = echo_callback(
        vec!["-e".to_string()],
        vec!["ab\\cde".to_string(), "fg".to_string()],
    );
    assert_eq!(res.stdout, "ab");
    assert!(!res.should_exit);
}

#[test]
fn test_echo_without_e_is_literal() {
    let res = echo_callback(vec![], vec!["a\\nb".to_string()]);
    assert_eq!(res.stdout, "a\\nb\n");
}

#[test]
fn test_echo_unknown_escape_kept() {
    let res = echo_callback(vec!["-e".to_string()], vec!["a\\qb\\".to_string()]);
    assert_eq!(res.stdout, "a\\qb\\\n");
}

#[test]
fn test_echo_empty_args() {
    let res = echo_callback(vec![], vec![]);
    assert_eq!(res.stdout, "\n");
}

#[test]
fn test_map_echo_escape_table() {
    assert_eq!(map_echo_escape('n'), Some('\n'));
    assert_eq!(map_echo_escape('t'), Some('\t'));
    assert_eq!(map_echo_escape('r'), Some('\r'));
    assert_eq!(map_echo_escape('a'), Some('\x07'));
    assert_eq!(map_echo_escape('b'), Some('\x08'));
    assert_eq!(map_echo_escape('e'), Some('\x1b'));
    assert_eq!(map_echo_escape('f'), Some('\x0c'));
    assert_eq!(map_echo_escape('v'), Some('\x0b'));
    assert_eq!(map_echo_escape('\\'), Some('\\'));
    assert_eq!(map_echo_escape('q'), None);
}

#[test]
fn test_parse_permissions_values() {
    assert_eq!(parse_permissions(0o40755), "drwxr-xr-x");
    assert_eq!(parse_permissions(0o644), "-rw-r--r--");
    assert_eq!(parse_permissions(0o100777), "-rwxrwxrwx");
    assert_eq!(parse_permissions(0o40000), "d---------");
}

#[test]
fn test_is_executable_modes() {
    assert!(is_executable(0o755));
    assert!(is_executable(0o100));
    assert!(!is_executable(0o644));
    assert!(!is_executable(0));
}
