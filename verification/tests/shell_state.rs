use shell::builtin::{dispatch, run_builtin, run_builtin_stdin, BuiltinResult, Dispatch};
use shell::cmd::Type;
use shell::complete::{common_strings, get_matches, longest_common_prefix, sort_strings};
use shell::editor::{Action, Key, Prompt};
use shell::history::{add_history_entries, add_to_history, get_history, CmdHistory};
use shell::solution::{eval_command, Action as FirstAction};
use std::collections::HashMap;

fn strings(v: &[&str]) -> Vec<String> {
    v.iter().map(|s| s.to_string()).collect()
}

fn history_of(cmds: &[&str]) -> CmdHistory {
    let mut h = CmdHistory::new();
    for c in cmds {
        h.push(c.to_string());
    }
    h
}

fn output(r: BuiltinResult) -> String {
    match r {
        BuiltinResult::Output(s) => s,
        other => panic!("{:?}", other),
    }
}

#[test]
fn history_push_numbers_entries() {
    let h = history_of(&["ls", "pwd"]);
    assert_eq!(h.entries(), vec![(1, "ls".to_string()), (2, "pwd".to_string())]);
    assert_eq!(h.length(), 2);
    assert_eq!(h.last_entry(), (2, "pwd".to_string()));
}

#[test]
fn history_last_entry_of_empty_and_single() {
    assert_eq!(CmdHistory::new().last_entry(), (0, String::new()));
    assert_eq!(history_of(&["ls"]).last_entry(), (1, "ls".to_string()));
}

#[test]
fn history_from_vec_keeps_numbers() {
    let h = CmdHistory::from_vec(&vec![(7, "a".to_string()), (9, "b".to_string())]);
    assert_eq!(h.length(), 2);
    assert_eq!(h.last_entry(), (9, "b".to_string()));
}

#[test]
fn history_text_form() {
    let h = history_of(&["ls", "echo hi"]);
    assert_eq!(h.to_string(), "ls\necho hi\n");
    assert_eq!(CmdHistory::new().to_string(), "");
}

#[test]
fn history_read_from_text() {
    let h = CmdHistory::from_str("  ls \n\n pwd\r\n").unwrap();
    assert_eq!(h.entries(), vec![(1, "ls".to_string()), (2, "pwd".to_string())]);
    assert!(CmdHistory::from_str("   \n\n").is_err());
    assert!(CmdHistory::from_str("").is_err());
}

#[test]
fn history_save_then_load_gives_it_back() {
    let h = history_of(&["ls", "cd /tmp", "echo 'a b'"]);
    let saved = h.saved_text();
    assert_eq!(saved, "ls\ncd /tmp\necho 'a b'\n\n");
    let back = CmdHistory::from_str(&saved).unwrap();
    assert_eq!(back.entries(), h.entries());
}

#[test]
fn history_loaded_at_start() {
    assert!(get_history(None).is_empty());
    assert!(get_history(Some(" \n")).is_empty());
    assert_eq!(get_history(Some("a\nb\n")), vec![(1, "a".to_string()), (2, "b".to_string())]);
}

#[test]
fn history_records_non_empty_lines() {
    let mut h = history_of(&["ls"]);
    assert!(!add_to_history(String::new(), &mut h));
    assert_eq!(h.length(), 1);
    assert!(add_to_history("  ".to_string(), &mut h));
    assert_eq!(h.last_entry(), (2, "  ".to_string()));
}

#[test]
fn history_entries_from_a_file_are_renumbered() {
    let mut h = history_of(&["ls"]);
    add_history_entries(&vec![(1, "a".to_string()), (5, "b".to_string())], &mut h);
    assert_eq!(h.entries(), vec![(1, "ls".to_string()), (2, "a".to_string()), (3, "b".to_string())]);
}

#[test]
fn builtin_echo() {
    let h = CmdHistory::new();
    let args = strings(&["a", "b"]);
    assert_eq!(output(run_builtin("echo", &args, false, &h, &None, &None)), "a b\n");
    match run_builtin("echo", &args, true, &h, &None, &None) {
        BuiltinResult::ToFile(s) => assert_eq!(s, "a b"),
        other => panic!("{:?}", other),
    }
    assert_eq!(output(run_builtin("echo", &Vec::new(), false, &h, &None, &None)), "\n");
}

#[test]
fn builtin_pwd() {
    let h = CmdHistory::new();
    let cwd = Some("/x".to_string());
    assert_eq!(output(run_builtin("pwd", &Vec::new(), false, &h, &cwd, &None)), "/x\n");
    match run_builtin("pwd", &Vec::new(), true, &h, &cwd, &None) {
        BuiltinResult::ToFile(s) => assert_eq!(s, "/x\n"),
        other => panic!("{:?}", other),
    }
}

#[test]
fn builtin_type() {
    let h = CmdHistory::new();
    assert_eq!(output(run_builtin("type", &strings(&["echo"]), false, &h, &None, &None)), "echo is a shell builtin\n");
    let found = Some("/bin/ls".to_string());
    assert_eq!(output(run_builtin("type", &strings(&["ls"]), false, &h, &None, &found)), "ls is /bin/ls\n");
    assert_eq!(output(run_builtin("type", &strings(&["nope"]), false, &h, &None, &None)), "nope: not found\n");
    assert_eq!(output(run_builtin("type", &Vec::new(), true, &h, &None, &None)), "type: not enough arguments\n");
}

#[test]
fn builtin_history_listing() {
    let h = history_of(&["ls", "pwd", "echo x"]);
    assert_eq!(output(run_builtin("history", &Vec::new(), false, &h, &None, &None)), "    1  ls\n    2  pwd\n    3  echo x\n");
    assert_eq!(output(run_builtin("history", &strings(&["2"]), false, &h, &None, &None)), "    2  pwd\n    3  echo x\n");
    assert_eq!(output(run_builtin("history", &strings(&["+1"]), false, &h, &None, &None)), "    3  echo x\n");
    assert_eq!(output(run_builtin("history", &strings(&["9"]), false, &h, &None, &None)).lines().count(), 3);
    assert_eq!(output(run_builtin("history", &strings(&["0"]), false, &h, &None, &None)), "");
    assert_eq!(output(run_builtin("history", &strings(&["x"]), false, &h, &None, &None)).lines().count(), 3);
    assert_eq!(output(run_builtin("history", &strings(&[" -r "]), false, &h, &None, &None)), "");
    match run_builtin("history", &strings(&["-r", "f.txt"]), false, &h, &None, &None) {
        BuiltinResult::LoadHistory(f) => assert_eq!(f, "f.txt"),
        other => panic!("{:?}", other),
    }
    assert_eq!(output(run_builtin("nothing", &Vec::new(), false, &h, &None, &None)), "");
}

#[test]
fn builtin_reading_a_pipe() {
    let h = CmdHistory::new();
    assert_eq!(output(run_builtin_stdin("echo", &Vec::new(), false, "x\n\n", &h, &None, &None)), "x\n");
    assert_eq!(output(run_builtin_stdin("echo", &strings(&["a"]), false, "x", &h, &None, &None)), "a\n");
    let cwd = Some("/x".to_string());
    assert_eq!(output(run_builtin_stdin("pwd", &Vec::new(), false, "", &h, &cwd, &None)), "/x");
}

#[test]
fn dispatching_commands() {
    assert!(matches!(dispatch(Type::BuiltIn, "echo", &Vec::new()), Dispatch::Builtin));
    match dispatch(Type::BuiltIn, "cd", &Vec::new()) {
        Dispatch::ChangeDir(d) => assert_eq!(d, "~"),
        other => panic!("{:?}", other),
    }
    match dispatch(Type::BuiltIn, "cd", &strings(&["/tmp"])) {
        Dispatch::ChangeDir(d) => assert_eq!(d, "/tmp"),
        other => panic!("{:?}", other),
    }
    match dispatch(Type::BuiltIn, "exit", &Vec::new()) {
        Dispatch::Message(m) => assert_eq!(m, "Something went wrong!\n"),
        other => panic!("{:?}", other),
    }
    assert!(matches!(dispatch(Type::PathExec, "ls", &Vec::new()), Dispatch::Program));
    match dispatch(Type::Invalid, "foo", &Vec::new()) {
        Dispatch::Message(m) => assert_eq!(m, "foo: command not found\n"),
        other => panic!("{:?}", other),
    }
}

#[test]
fn completion_candidates() {
    assert_eq!(get_matches("ec", &strings(&["echo", "exit", "ecto"])), strings(&["echo", "ecto"]));
    assert!(get_matches("z", &strings(&["echo"])).is_empty());
    let mut v = strings(&["pwd", "echo", "cd", "Echo"]);
    sort_strings(&mut v);
    assert_eq!(v, strings(&["Echo", "cd", "echo", "pwd"]));
}

#[test]
fn completion_shared_pieces() {
    assert_eq!(longest_common_prefix(&strings(&["git_add", "git_commit"])), strings(&["git"]));
    assert_eq!(longest_common_prefix(&strings(&["a_b_c", " a_b_d "])), strings(&["a", "b"]));
    assert_eq!(longest_common_prefix(&strings(&["x_y"])), strings(&["x", "y"]));
    assert!(longest_common_prefix(&Vec::new()).is_empty());
    let mut m = HashMap::new();
    m.insert(0usize, strings(&["p", "q"]));
    m.insert(1usize, strings(&["p", "q"]));
    assert_eq!(common_strings(&m), strings(&["p", "q"]));
}

fn echo(a: Action) -> String {
    match a {
        Action::Echo(s) => s,
        other => panic!("{:?}", other),
    }
}

#[test]
fn prompt_typing_and_running() {
    let h = CmdHistory::new();
    let mut p = Prompt::new();
    assert_eq!(echo(p.handle_key(Key::Char('l'), &h)), "l");
    assert_eq!(echo(p.handle_key(Key::Char('s'), &h)), "s");
    assert_eq!(echo(p.handle_key(Key::Backspace, &h)), "\u{8} \u{8}");
    assert_eq!(echo(p.handle_key(Key::Char('s'), &h)), "s");
    match p.handle_key(Key::Enter, &h) {
        Action::Run(line) => assert_eq!(line, "ls"),
        other => panic!("{:?}", other),
    }
    let mut p = Prompt::new();
    assert!(matches!(p.handle_key(Key::Enter, &h), Action::NewLine));
    assert!(matches!(p.handle_key(Key::CtrlJ, &h), Action::NewLine));
    assert!(matches!(p.handle_key(Key::Esc, &h), Action::Discard));
    assert!(matches!(p.handle_key(Key::Tab, &h), Action::Complete));
    assert_eq!(echo(p.handle_key(Key::Backspace, &h)), "");
    assert_eq!(echo(p.handle_key(Key::CtrlW, &h)), "\u{7}");
    for c in " exit ".chars() {
        p.handle_key(Key::Char(c), &h);
    }
    match p.handle_key(Key::CtrlJ, &h) {
        Action::Exit(line) => assert_eq!(line, " exit "),
        other => panic!("{:?}", other),
    }
}

#[test]
fn prompt_delete_word() {
    let h = CmdHistory::new();
    let mut p = Prompt::new();
    for c in "ls -la  ".chars() {
        p.handle_key(Key::Char(c), &h);
    }
    assert_eq!(echo(p.handle_key(Key::CtrlW, &h)), "\u{8} \u{8}".repeat(5));
    match p.handle_key(Key::Enter, &h) {
        Action::Run(line) => assert_eq!(line, "ls "),
        other => panic!("{:?}", other),
    }
}

#[test]
fn prompt_history_navigation() {
    let h = history_of(&[" ls ", "pwd"]);
    let mut p = Prompt::new();
    p.handle_key(Key::Char('x'), &h);
    assert_eq!(echo(p.handle_key(Key::Up, &h)), "\u{8} \u{8}pwd");
    assert_eq!(echo(p.handle_key(Key::Up, &h)), "\u{8} \u{8}".repeat(3) + "ls");
    assert_eq!(echo(p.handle_key(Key::Up, &h)), "\u{8} \u{8}".repeat(2));
    assert_eq!(echo(p.handle_key(Key::Up, &h)), "pwd");
    assert_eq!(echo(p.handle_key(Key::Down, &h)), "\u{8} \u{8}".repeat(3));
    assert_eq!(echo(p.handle_key(Key::Down, &h)), "");
    assert_eq!(echo(p.handle_key(Key::Up, &h)), "pwd");
    assert_eq!(echo(p.handle_key(Key::Up, &h)), "\u{8} \u{8}".repeat(3) + "ls");
    assert_eq!(echo(p.handle_key(Key::Down, &h)), "\u{8} \u{8}".repeat(2) + "pwd");
    let empty = CmdHistory::new();
    assert_eq!(echo(p.handle_key(Key::Up, &empty)), "");
}

#[test]
fn prompt_completion() {
    let h = CmdHistory::new();
    let mut p = Prompt::new();
    p.handle_key(Key::Char('e'), &h);
    let text = p.begin_completion(&strings(&["exit", "echo", "cd"]));
    assert_eq!(text, "\u{7}\u{8} \u{8}e");
    assert_eq!(echo(p.handle_key(Key::Tab, &h)), "\u{8} \u{8}e");
    assert_eq!(echo(p.handle_key(Key::Char('c'), &h)), "c");
    assert!(matches!(p.handle_key(Key::Tab, &h), Action::Complete));
    let text = p.begin_completion(&strings(&["exit", "echo", "cd"]));
    assert_eq!(text, "\u{8} \u{8}".repeat(2) + "echo ");
    match p.handle_key(Key::Enter, &h) {
        Action::Run(line) => assert_eq!(line, "echo "),
        other => panic!("{:?}", other),
    }
}

#[test]
fn prompt_completion_shared_piece() {
    let h = CmdHistory::new();
    let mut p = Prompt::new();
    p.handle_key(Key::Char('g'), &h);
    let names = strings(&["git_commit", "git_add"]);
    assert_eq!(p.begin_completion(&names), "\u{7}\u{7}");
    assert_eq!(echo(p.handle_key(Key::Tab, &h)), "\ngit_add  git_commit\n$ git");
    match p.handle_key(Key::Enter, &h) {
        Action::Run(line) => assert_eq!(line, "git"),
        other => panic!("{:?}", other),
    }
}

#[test]
fn minimal_evaluator() {
    assert!(matches!(eval_command("exit"), FirstAction::Terminate));
    match eval_command("echo a  b") {
        FirstAction::Print(s) => assert_eq!(s, "a  b"),
        other => panic!("{:?}", other),
    }
    match eval_command("ls -l") {
        FirstAction::Print(s) => assert_eq!(s, "ls: command not found"),
        other => panic!("{:?}", other),
    }
    match eval_command("") {
        FirstAction::Print(s) => assert_eq!(s, ": command not found"),
        other => panic!("{:?}", other),
    }
}
