use shell::cmd::{cmd_type, find_quotes, parse, parse_args, Type};
use shell::cmds::cmd_split;

#[test]
fn test_single_quotes_only() {
    let input = "This is a 'single quote'.";
    find_quotes(input);
}

#[test]
fn test_double_quotes_only() {
    let input = "This is a \"double quote\" test.";
    find_quotes(input);
}

#[test]
fn test_mixed_quotes() {
    let input = "'Single quotes' and \"double quotes\" mixed.";
    find_quotes(input);
}

#[test]
fn test_quotes_inside_quotes() {
    let input = "'This \"string\" has nested quotes'.";
    find_quotes(input);
}

#[test]
fn test_unbalanced_single_quotes() {
    let input = "'This is an unbalanced quote.";
    find_quotes(input);
}

#[test]
fn test_unbalanced_double_quotes() {
    let input = "\"This is an unbalanced quote.";
    find_quotes(input);
}

#[test]
fn test_empty_input() {
    let input = "";
    find_quotes(input);
}

#[test]
fn test_no_quotes() {
    let input = "No quotes here!";
    find_quotes(input);
}

#[test]
fn test_quotes_at_beginning_and_end() {
    let input = "'Start and end with quotes'";
    find_quotes(input);
}

#[test]
fn test_double_quotes_at_end() {
    let input = "Ends with a \"double quote\"";
    find_quotes(input);
}

#[test]
fn test_single_quotes_at_end() {
    let input = "Ends with a 'single quote'";
    find_quotes(input);
}

#[test]
fn test_quotes_inside_string() {
    let input = "The string contains a 'quote' here and \"double quotes\" there.";
    find_quotes(input);
}

#[test]
fn test_repeated_quotes() {
    let input = "'Repeated' 'quotes' 'in' the 'sentence'.";
    find_quotes(input);
}

#[test]
fn test_consecutive_quotes() {
    let input = "\"\"\"Triple double quotes\"\"\"";
    find_quotes(input);
}

#[test]
fn test_escaped_quotes() {
    let input = "This is an escaped quote: \"\\\"escaped\\\"\"";
    find_quotes(input);
}

#[test]
fn test_quotes_with_spaces() {
    let input = "This 'is' a 'quote' with spaces inside.";
    find_quotes(input);
}

#[test]
fn test_nested_quotes_with_spaces() {
    let input = "'This is a \"nested quote\" inside'.";
    find_quotes(input);
}

#[test]
fn test_quotes_with_newlines() {
    let input = "'Single quote\nTest' and \"double\nquote\" here.";
    find_quotes(input);
}

#[test]
fn test_multiple_single_quotes() {
    let input = "Here is 'one' and 'two' single quotes.";
    find_quotes(input);
}

#[test]
fn test_multiple_double_quotes() {
    let input = "Here are \"three\" and \"four\" double quotes.";
    find_quotes(input);
}

#[test]
fn test_combined_multiple_quotes() {
    let input = "'First single' \"second double\" 'third single'.";
    find_quotes(input);
}

#[test]
fn test_single_empty_quote() {
    let input = "An empty quote: ''";
    find_quotes(input);
}

#[test]
fn test_double_empty_quote() {
    let input = "An empty quote: \"\"";
    find_quotes(input);
}

#[test]
fn test_parse_with_builtin_command() {
    let input = "echo Hello, World!";
    let (cmd_type, cmd, args, _target) = parse(input, &Vec::new(), false);
    assert_eq!(cmd_type, Type::BuiltIn);
    assert_eq!(cmd, "echo");
    assert_eq!(args, vec!["Hello,".to_string(), "World!".to_string()]);
}

#[test]
fn test_parse_with_invalid_command() {
    let input = "invalid_command";
    let (cmd_type, cmd, args, _target) = parse(input, &Vec::new(), false);
    assert_eq!(cmd_type, Type::Invalid);
    assert_eq!(cmd, "invalid_command");
    assert!(args.is_empty());
}

#[test]
fn test_cmd_split() {
    let input = "echo Hello, World!";
    let (cmd, args) = cmd_split(input);
    assert_eq!(cmd, "echo");
    assert_eq!(args, "Hello, World!");
}

#[test]
fn test_cmd_type_with_builtin() {
    let cmd = "echo";
    assert_eq!(cmd_type(cmd, false), Type::BuiltIn);
}

#[test]
fn test_cmd_type_with_path_exec() {
    let cmd = "ls";
    assert_eq!(cmd_type(cmd, true), Type::PathExec);
}

#[test]
fn test_cmd_type_with_invalid() {
    let cmd = "nonexistent_command";
    assert_eq!(cmd_type(cmd, false), Type::Invalid);
}

#[test]
fn test_parse_args_with_quotes() {
    let input = "echo \"Hello, World!\"";
    let args = parse_args(input, &Vec::new());
    assert_eq!(args, vec!["echo".to_string(), "Hello, World!".to_string()]);
}

#[test]
fn test_parse_args_with_multiple_spaces() {
    let input = "echo    Hello,    World!";
    let args = parse_args(input, &Vec::new());
    assert_eq!(args, vec!["echo".to_string(), "Hello,".to_string(), "World!".to_string()]);
}

#[test]
fn test_find_quotes_with_unbalanced_quotes() {
    let input = "'Unbalanced quote";
    let quotes = find_quotes(input);
    assert!(quotes.is_empty());
}
