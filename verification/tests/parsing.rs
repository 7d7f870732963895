use shell::cmd::{
    arg_chunks, cmd_split, cmd_type, expand_tilde, find_quotes, is_builtin, is_directory, parse,
    parse_args, parse_args_defined, plan_cd, redirect_of, CdPlan, QuoteType, Target, Type,
};
use shell::cmds;

fn strings(v: &[&str]) -> Vec<String> {
    v.iter().map(|s| s.to_string()).collect()
}

#[test]
fn quotes_single_span_positions() {
    let q = find_quotes("This is a 'single quote'.");
    assert_eq!(q.len(), 1);
    assert_eq!(q[0], (10, 23, "'single quote'", QuoteType::Single));
}

#[test]
fn quotes_escaped_quote_is_skipped() {
    let q = find_quotes("a \\'b' 'c'");
    assert_eq!(q, vec![(5, 7, "' '", QuoteType::Single)]);
}

#[test]
fn quotes_other_kind_inside_is_ignored() {
    let q = find_quotes("'a \"b\" c'");
    assert_eq!(q, vec![(0, 8, "'a \"b\" c'", QuoteType::Single)]);
}

#[test]
fn quotes_consecutive_pairs() {
    let q = find_quotes("\"\"\"Triple double quotes\"\"\"");
    let spans: Vec<(usize, usize)> = q.iter().map(|t| (t.0, t.1)).collect();
    assert_eq!(spans, vec![(0, 1), (2, 23), (24, 25)]);
    assert!(q.iter().all(|t| t.3 == QuoteType::Double));
}

#[test]
fn quotes_cut_by_byte_position_after_wide_character() {
    // Positions count characters; the text and kind are read at those
    // positions taken as bytes, so after a two-byte character they lag.
    let q = find_quotes("\u{e9}x'a' y");
    assert_eq!(q, vec![(2, 4, "x'a", QuoteType::Double)]);
}

#[test]
fn args_after_wide_character_in_command_word() {
    assert!(parse_args_defined("\u{e9}x'a' y"));
    assert_eq!(parse_args("\u{e9}x'a' y", &Vec::new()), strings(&["\u{e9}x'a'", "y"]));
}

#[test]
fn args_undefined_when_span_splits_a_character() {
    assert!(!parse_args_defined("\u{e9}'a' y"));
    assert!(!parse_args_defined("echo \u{e9}"));
    assert!(parse_args_defined("echo 'a' b"));
}

#[test]
fn quotes_spans_are_ordered_and_unescaped() {
    let q = find_quotes("a \\\\'x' \\\"y\" \"z\"");
    let spans: Vec<(usize, usize)> = q.iter().map(|t| (t.0, t.1)).collect();
    assert_eq!(spans, vec![(4, 6), (11, 13)]);
}

#[test]
fn quotes_empty_input_has_none() {
    assert!(find_quotes("").is_empty());
}

#[test]
fn args_quoted_span_keeps_spaces() {
    assert_eq!(parse_args("echo 'a  b' c", &Vec::new()), strings(&["echo", "a  b", "c"]));
}

#[test]
fn args_escapes_outside_quotes() {
    assert_eq!(parse_args("echo a\\nb", &Vec::new()), strings(&["echo", "a\nb"]));
}

#[test]
fn args_escapes_in_double_quotes() {
    assert_eq!(parse_args("echo \"x\\$y\\q\"", &Vec::new()), strings(&["echo", "x$y\\q"]));
}

#[test]
fn args_backslash_kept_in_single_quotes() {
    assert_eq!(parse_args("echo 'x\\ny'", &Vec::new()), strings(&["echo", "x\\ny"]));
}

#[test]
fn args_tab_and_trailing_space() {
    assert_eq!(parse_args("echo\ta b", &Vec::new()), strings(&["echo", "a", "b"]));
    assert_eq!(parse_args("echo a ", &Vec::new()), strings(&["echo", "a"]));
}

#[test]
fn args_single_word() {
    assert_eq!(parse_args("ls", &Vec::new()), strings(&["ls"]));
    assert!(parse_args("''", &Vec::new()).is_empty());
}

#[test]
fn args_chunks_of_a_line() {
    assert_eq!(arg_chunks("ls -l /tmp"), strings(&["ls ", "-l", " /tmp"]));
    assert_eq!(arg_chunks("echo 'a b'"), strings(&["echo ", "", "'a b'"]));
    assert!(arg_chunks("ls").is_empty());
}

#[test]
fn args_directory_chunks_are_resolved() {
    let dirs = vec![("~/x".to_string(), "/home/u/x".to_string())];
    assert_eq!(parse_args("cd ~/x", &dirs), strings(&["cd", "/home/u/x"]));
    let dirs = vec![(" /tmp".to_string(), "/tmp".to_string())];
    assert_eq!(parse_args("ls -l /tmp", &dirs), strings(&["ls", "-l/tmp"]));
    let dirs = vec![("./run ".to_string(), "/abs/run".to_string())];
    assert_eq!(parse_args("./run a", &dirs), strings(&["/abs/runa"]));
}

#[test]
fn args_unresolved_directory_stays() {
    let dirs = vec![("other".to_string(), "/x".to_string())];
    assert_eq!(parse_args("cd /nowhere", &dirs), strings(&["cd", "/nowhere"]));
}

#[test]
fn directory_like_words() {
    for s in ["~", "/x", ".", "./a", "..", "  /x  ", "~user"] {
        assert!(is_directory(s), "{s}");
    }
    for s in [".a", "a", "", "  ", "a/b"] {
        assert!(!is_directory(s), "{s}");
    }
}

#[test]
fn split_with_redirection() {
    let (cmd, args, target) = cmd_split("echo hi > out.txt", &Vec::new());
    assert_eq!(cmd, "echo");
    assert_eq!(args, strings(&["hi"]));
    assert_eq!(target, Some(("out.txt".to_string(), Target::Stdout)));
}

#[test]
fn split_with_stderr_append() {
    let (cmd, args, target) = cmd_split("ls 2>> err.log", &Vec::new());
    assert_eq!(cmd, "ls");
    assert!(args.is_empty());
    assert_eq!(target, Some(("err.log".to_string(), Target::StderrAppend)));
}

#[test]
fn split_with_two_redirections() {
    let (cmd, args, target) = cmd_split("echo a > b > c", &Vec::new());
    assert_eq!(cmd, "echo");
    assert_eq!(args, strings(&["a", "a", ">", "b"]));
    assert_eq!(target, Some(("c".to_string(), Target::Stdout)));
}

#[test]
fn split_target_words_run_together() {
    let (_, args, target) = cmd_split("echo a 1> x y", &Vec::new());
    assert_eq!(args, strings(&["a"]));
    assert_eq!(target, Some(("xy".to_string(), Target::Stdout)));
    let (cmd, args, target) = cmd_split("> f", &Vec::new());
    assert_eq!(cmd, ">");
    assert!(args.is_empty());
    assert_eq!(target, Some(("f".to_string(), Target::Stdout)));
}

#[test]
fn split_without_redirection() {
    let (cmd, args, target) = cmd_split("  cat a b  ", &Vec::new());
    assert_eq!(cmd, "cat");
    assert_eq!(args, strings(&["a", "b"]));
    assert_eq!(target, None);
}

#[test]
fn redirect_tokens() {
    assert_eq!(redirect_of(">"), Some(Target::Stdout));
    assert_eq!(redirect_of("1>"), Some(Target::Stdout));
    assert_eq!(redirect_of("2>"), Some(Target::Stderr));
    assert_eq!(redirect_of(">>"), Some(Target::StdoutAppend));
    assert_eq!(redirect_of("1>>"), Some(Target::StdoutAppend));
    assert_eq!(redirect_of("2>>"), Some(Target::StderrAppend));
    assert_eq!(redirect_of("3>"), None);
}

#[test]
fn kinds_of_commands() {
    for b in ["echo", "exit", "type", "pwd", "cd"] {
        assert!(is_builtin(b));
        assert_eq!(cmd_type(b, true), Type::BuiltIn);
    }
    assert!(!is_builtin("history"));
    assert_eq!(cmd_type("history", false), Type::Invalid);
    assert_eq!(cmd_type("cat", true), Type::PathExec);
}

#[test]
fn parse_redirected_program() {
    let (t, cmd, args, target) = parse(" ls -a >> log ", &Vec::new(), true);
    assert_eq!(t, Type::PathExec);
    assert_eq!(cmd, "ls");
    assert_eq!(args, strings(&["-a"]));
    assert_eq!(target, Some(("log".to_string(), Target::StdoutAppend)));
}

#[test]
fn simple_classifier() {
    assert_eq!(cmds::cmd_type("type echo", false), cmds::Type::BuiltIn);
    assert_eq!(cmds::cmd_type("type ls", true), cmds::Type::PathExec);
    assert_eq!(cmds::cmd_type("type foo", false), cmds::Type::PathNoExec);
    assert_eq!(cmds::cmd_type("type", false), cmds::Type::Invalid);
    assert_eq!(cmds::cmd_type("echo", false), cmds::Type::Invalid);
    assert_eq!(cmds::cmd_type("  type   pwd x", false), cmds::Type::PathNoExec);
    assert_eq!(cmds::cmd_split("echo"), ("echo", String::new()));
    assert_eq!(cmds::cmd_split("a  b"), ("a", " b".to_string()));
}

#[test]
fn simple_classifier_parse() {
    assert_eq!(cmds::parse("  type   echo x ", false), (cmds::Type::BuiltIn, "echo", "  echo x"));
    assert_eq!(cmds::parse("type ls", true), (cmds::Type::PathExec, "ls", "ls"));
    assert_eq!(cmds::parse("type nope", false), (cmds::Type::PathNoExec, "nope", "nope"));
    assert_eq!(cmds::parse("type", true), (cmds::Type::Invalid, "", ""));
    assert_eq!(cmds::parse("type   ", true), (cmds::Type::Invalid, "", ""));
}

#[test]
fn plain_lines_split_at_white_space() {
    for line in ["echo   hello    world", "a\tb  c", "ls -l x", "   cat  f1 f2  ", "single"] {
        let words: Vec<String> = line.split_whitespace().map(String::from).collect();
        assert_eq!(parse_args(line, &Vec::new()), words, "{:?}", line);
    }
}

#[test]
fn tilde_paths() {
    assert_eq!(expand_tilde("~/docs", "/home/u"), Some("/home/u/docs".to_string()));
    assert_eq!(expand_tilde(" ~ ", "/home/u"), Some("/home/u".to_string()));
    assert_eq!(expand_tilde("a/~", "/home/u"), Some("a/~".to_string()));
    assert_eq!(expand_tilde("   ", "/home/u"), None);
}

#[test]
fn cd_plans() {
    assert!(matches!(plan_cd("", "/h"), CdPlan::Home));
    assert!(matches!(plan_cd(" ~ ", "/h"), CdPlan::Home));
    match plan_cd("~/a/b", "/h") {
        CdPlan::Expand { steps, target } => {
            assert_eq!(steps, strings(&["/h/a", "/h/a/b"]));
            assert_eq!(target, "/h/a/b");
        },
        other => panic!("{:?}", other),
    }
    match plan_cd(" /tmp ", "/h") {
        CdPlan::Path(p) => assert_eq!(p, "/tmp"),
        other => panic!("{:?}", other),
    }
}
