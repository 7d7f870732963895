//! The shell's own commands and how a parsed command line is dispatched.

use vstd::prelude::*;
use crate::cmd::{cmd_type, is_builtin_name, Type};
use crate::history::CmdHistory;
use crate::text::{
    chars_of, decimal, join, join_all, parse_usize, parse_usize_str, push_decimal, push_str,
    str_eq, trim, trimmed,
};

verus! {

/// What a built-in command produced.
#[derive(Debug)]
pub enum BuiltinResult {
    /// The command's output.
    Output(String),
    /// Text for the redirection target, written there as
    /// `print_to_file_built_in` writes it; the command's output is empty.
    ToFile(String),
    /// `history -r FILE`: the entries stored in `FILE` are to be added to
    /// the history; the command's output is empty.
    LoadHistory(String),
}

/// The meaning of a `BuiltinResult`.
#[verifier::ext_equal]
pub enum BuiltinSpec {
    Output(Seq<char>),
    ToFile(Seq<char>),
    LoadHistory(Seq<char>),
}

impl View for BuiltinResult {
    type V = BuiltinSpec;

    open spec fn view(&self) -> BuiltinSpec {
        match self {
            BuiltinResult::Output(s) => BuiltinSpec::Output(s@),
            BuiltinResult::ToFile(s) => BuiltinSpec::ToFile(s@),
            BuiltinResult::LoadHistory(s) => BuiltinSpec::LoadHistory(s@),
        }
    }
}

/// The lines that `history` prints for the entries `es`: four spaces, the
/// number, two spaces and the command.
pub open spec fn history_lines(es: Seq<(usize, Seq<char>)>) -> Seq<char>
    decreases es.len(),
{
    if es.len() == 0 {
        Seq::empty()
    } else {
        history_lines(es.drop_last()) + seq![' ', ' ', ' ', ' '] + decimal(es.last().0 as nat)
            + seq![' ', ' '] + es.last().1 + seq!['\n']
    }
}

/// The last `n` entries of `es` (all of them when there are fewer).
pub open spec fn last_entries(es: Seq<(usize, Seq<char>)>, n: usize) -> Seq<(usize, Seq<char>)> {
    if n >= es.len() {
        es
    } else {
        es.skip(es.len() - n)
    }
}

/// What `type NAME` prints, where `kind` is what the name denotes and
/// `found` the path at which it was found on the search path.
pub open spec fn type_message(name: Seq<char>, kind: Type, found: Option<Seq<char>>) -> Seq<char> {
    match kind {
        Type::BuiltIn => name + " is a shell builtin\n"@,
        Type::PathExec => name + " is "@ + found.unwrap_or(Seq::empty()) + seq!['\n'],
        Type::Invalid => name + ": not found\n"@,
    }
}

/// The output of `history` with the arguments `args` over the entries
/// `es`: with a number `n` first, the last `n` entries; with `-r FILE`,
/// the entries of the file are loaded; otherwise all entries.
pub open spec fn history_result(args: Seq<Seq<char>>, es: Seq<(usize, Seq<char>)>) -> BuiltinSpec {
    if args.len() > 0 {
        match parse_usize(args[0]) {
            Some(n) => BuiltinSpec::Output(history_lines(last_entries(es, n))),
            Option::None => if trimmed(args[0]) == "-r"@ {
                if args.len() > 1 {
                    BuiltinSpec::LoadHistory(args[1])
                } else {
                    BuiltinSpec::Output(Seq::empty())
                }
            } else {
                BuiltinSpec::Output(history_lines(es))
            },
        }
    } else {
        BuiltinSpec::Output(history_lines(es))
    }
}

/// The output of `type` with the arguments `args`; `found` is the path at
/// which the first argument was found on the search path, if it was.
pub open spec fn type_result(args: Seq<Seq<char>>, redirected: bool, found: Option<Seq<char>>) -> BuiltinSpec {
    if args.len() == 0 {
        BuiltinSpec::Output("type: not enough arguments\n"@)
    } else {
        let kind = if is_builtin_name(args[0]) {
            Type::BuiltIn
        } else if found is Some {
            Type::PathExec
        } else {
            Type::Invalid
        };
        let text = type_message(args[0], kind, found);
        if redirected {
            BuiltinSpec::ToFile(text)
        } else {
            BuiltinSpec::Output(text)
        }
    }
}

/// Text that goes to the redirection target when there is one, and is the
/// output otherwise (with `suffix` after it).
pub open spec fn to_target(text: Seq<char>, suffix: Seq<char>, redirected: bool) -> BuiltinSpec {
    if redirected {
        BuiltinSpec::ToFile(text)
    } else {
        BuiltinSpec::Output(text + suffix)
    }
}

/// What the built-in `cmd` produces with the arguments `args`, whether its
/// output is `redirected`, the history entries `es`, the working directory
/// `cwd` and the path `found` of the first argument on the search path.
pub open spec fn builtin_result(cmd: Seq<char>, args: Seq<Seq<char>>, redirected: bool, es: Seq<(usize, Seq<char>)>, cwd: Option<Seq<char>>, found: Option<Seq<char>>) -> BuiltinSpec {
    if cmd == "echo"@ {
        to_target(join(args, seq![' ']), seq!['\n'], redirected)
    } else if cmd == "pwd"@ {
        to_target(cwd.unwrap_or(Seq::empty()).push('\n'), Seq::empty(), redirected)
    } else if cmd == "type"@ {
        type_result(args, redirected, found)
    } else if cmd == "history"@ {
        history_result(args, es)
    } else {
        BuiltinSpec::Output(Seq::empty())
    }
}

/// `type NAME` reports each of the shell's own commands as a shell builtin,
/// whatever the search path holds; any other name is reported at the path
/// where it was found, or as not found. The report goes to the redirection
/// target when there is one. The same holds when `type` reads a pipe.
pub proof fn lemma_type_reports(args: Seq<Seq<char>>, redirected: bool, stdin: Seq<char>, es: Seq<(usize, Seq<char>)>, cwd: Option<Seq<char>>, found: Option<Seq<char>>)
    requires
        args.len() > 0,
    ensures
        ({
            let name = args[0];
            let text = if is_builtin_name(name) {
                name + " is a shell builtin\n"@
            } else {
                match found {
                    Some(p) => name + " is "@ + p + "\n"@,
                    Option::None => name + ": not found\n"@,
                }
            };
            let want = if redirected {
                BuiltinSpec::ToFile(text)
            } else {
                BuiltinSpec::Output(text)
            };
            &&& builtin_result("type"@, args, redirected, es, cwd, found) == want
            &&& builtin_stdin_result("type"@, args, redirected, stdin, es, cwd, found) == want
        }),
{
    reveal_strlit("type");
    reveal_strlit("echo");
    reveal_strlit("pwd");
    reveal_strlit("\n");
    assert("type"@[0] != "echo"@[0]);
    assert("type"@[0] != "pwd"@[0]);
    if !is_builtin_name(args[0]) {
        if let Some(p) = found {
            assert(seq!['\n'] =~= "\n"@);
        }
    }
}

/// `s` without the newlines at its end.
pub open spec fn trim_newlines(s: Seq<char>) -> Seq<char>
    decreases s.len(),
{
    if s.len() > 0 && s.last() == '\n' {
        trim_newlines(s.drop_last())
    } else {
        s
    }
}

/// What the built-in `cmd` produces when it reads `stdin` from a pipe: as
/// `builtin_result`, except that `echo` without arguments echoes its input
/// without the newlines at its end, and `pwd` prints no newline.
pub open spec fn builtin_stdin_result(cmd: Seq<char>, args: Seq<Seq<char>>, redirected: bool, stdin: Seq<char>, es: Seq<(usize, Seq<char>)>, cwd: Option<Seq<char>>, found: Option<Seq<char>>) -> BuiltinSpec {
    if cmd == "echo"@ {
        let text = if args.len() > 0 { join(args, seq![' ']) } else { trim_newlines(stdin) };
        to_target(text, seq!['\n'], redirected)
    } else if cmd == "pwd"@ {
        to_target(cwd.unwrap_or(Seq::empty()), Seq::empty(), redirected)
    } else {
        builtin_result(cmd, args, redirected, es, cwd, found)
    }
}

/// The lines of `history` for the entries `es[lo..]`.
fn history_lines_exec(es: &Vec<(usize, String)>, lo: usize) -> (r: String)
    requires
        lo <= es.len(),
    ensures
        r@ == history_lines(es.deep_view().skip(lo as int)),
{
    let ghost d = es.deep_view().skip(lo as int);
    let mut out = String::new();
    let mut k = lo;
    assert(d.take(0) =~= Seq::<(usize, Seq<char>)>::empty());
    while k < es.len()
        invariant
            lo <= k <= es.len(),
            d == es.deep_view().skip(lo as int),
            out@ == history_lines(d.take(k - lo)),
        decreases es.len() - k,
    {
        assert(d.take(k + 1 - lo).drop_last() =~= d.take(k - lo));
        assert(d.take(k + 1 - lo).last() == (es[k as int].0, es[k as int].1@));
        push_str(&mut out, "    ");
        push_decimal(&mut out, es[k].0);
        push_str(&mut out, "  ");
        push_str(&mut out, es[k].1.as_str());
        out.push('\n');
        proof {
            reveal_strlit("    ");
            reveal_strlit("  ");
        }
        assert(out@ =~= history_lines(d.take(k + 1 - lo)));
        k = k + 1;
    }
    assert(d.take(es.len() - lo) =~= d);
    out
}

/// The output of `history`.
fn history_builtin(args: &Vec<String>, history: &CmdHistory) -> (r: BuiltinResult)
    requires
        history.wf(),
    ensures
        r@ == history_result(args.deep_view(), history@),
{
    let entries = history.entries();
    if args.len() > 0 {
        match parse_usize_str(args[0].as_str()) {
            Some(number) => {
                let lo = if number >= entries.len() { 0 } else { entries.len() - number };
                let out = history_lines_exec(&entries, lo);
                assert(entries.deep_view().skip(0) =~= entries.deep_view());
                BuiltinResult::Output(out)
            },
            None => {
                let t = trim(args[0].as_str());
                proof {
                    reveal_strlit("-r");
                }
                if str_eq(t.as_str(), "-r") {
                    if args.len() > 1 {
                        BuiltinResult::LoadHistory(args[1].clone())
                    } else {
                        BuiltinResult::Output(String::new())
                    }
                } else {
                    let out = history_lines_exec(&entries, 0);
                    assert(entries.deep_view().skip(0) =~= entries.deep_view());
                    BuiltinResult::Output(out)
                }
            },
        }
    } else {
        let out = history_lines_exec(&entries, 0);
        assert(entries.deep_view().skip(0) =~= entries.deep_view());
        BuiltinResult::Output(out)
    }
}


/// Text that goes to the redirection target when there is one, and is the
/// output otherwise, followed by `suffix`.
fn to_target_exec(text: String, suffix: &str, redirected: bool) -> (r: BuiltinResult)
    ensures
        r@ == to_target(text@, suffix@, redirected),
{
    if redirected {
        BuiltinResult::ToFile(text)
    } else {
        let mut out = text;
        push_str(&mut out, suffix);
        BuiltinResult::Output(out)
    }
}

/// The output of `type`.
fn type_builtin(args: &Vec<String>, redirected: bool, found: &Option<String>) -> (r: BuiltinResult)
    ensures
        r@ == type_result(args.deep_view(), redirected, match found {
            Some(f) => Some(f@),
            None => None,
        }),
{
    if args.len() == 0 {
        return BuiltinResult::Output("type: not enough arguments\n".to_string());
    }
    let name = args[0].as_str();
    assert(args.deep_view()[0] == name@);
    let kind = cmd_type(name, found.is_some());
    let mut text = args[0].clone();
    match kind {
        Type::BuiltIn => {
            push_str(&mut text, " is a shell builtin\n");
        },
        Type::PathExec => {
            push_str(&mut text, " is ");
            match found {
                Some(f) => push_str(&mut text, f.as_str()),
                None => {},
            }
            text.push('\n');
        },
        Type::Invalid => {
            push_str(&mut text, ": not found\n");
        },
    }
    if redirected {
        BuiltinResult::ToFile(text)
    } else {
        BuiltinResult::Output(text)
    }
}

/// The view of an optional string.
pub open spec fn opt_seq(o: Option<String>) -> Option<Seq<char>> {
    match o {
        Some(s) => Some(s@),
        None => None,
    }
}

/// Runs the built-in `cmd` with the arguments `args`: `echo` joins them
/// with spaces, `pwd` gives the working directory `cwd`, `type` says what
/// its argument is (`found` is the path at which it was found on the
/// search path, if it was), `history` lists the history; text that `echo`,
/// `pwd` and `type` produce goes to the redirection target when the output
/// is `redirected`.
pub fn run_builtin(cmd: &str, args: &Vec<String>, redirected: bool, history: &CmdHistory, cwd: &Option<String>, found: &Option<String>) -> (r: BuiltinResult)
    requires
        history.wf(),
        cmd@ == "pwd"@ ==> cwd is Some,
    ensures
        r@ == builtin_result(cmd@, args.deep_view(), redirected, history@, opt_seq(*cwd), opt_seq(*found)),
{
    if str_eq(cmd, "echo") {
        let output = join_all(args, " ");
        proof {
            reveal_strlit(" ");
        }
        assert(" "@ =~= seq![' ']);
        proof {
            reveal_strlit("\n");
        }
        to_target_exec(output, "\n", redirected)
    } else if str_eq(cmd, "pwd") {
        let mut output = match cwd {
            Some(d) => d.clone(),
            None => String::new(),
        };
        output.push('\n');
        proof {
            reveal_strlit("");
        }
        to_target_exec(output, "", redirected)
    } else if str_eq(cmd, "type") {
        type_builtin(args, redirected, found)
    } else if str_eq(cmd, "history") {
        history_builtin(args, history)
    } else {
        BuiltinResult::Output(String::new())
    }
}

/// `s` without the newlines at its end.
fn trim_newlines_exec(s: &str) -> (r: String)
    ensures
        r@ == trim_newlines(s@),
{
    let v = chars_of(s);
    let mut hi = v.len();
    assert(v@.take(v.len() as int) =~= v@);
    while hi > 0 && v[hi - 1] == '\n'
        invariant
            hi <= v.len(),
            v@ == s@,
            trim_newlines(s@) == trim_newlines(v@.take(hi as int)),
        decreases hi,
    {
        assert(v@.take(hi as int).drop_last() =~= v@.take(hi - 1));
        hi = hi - 1;
    }
    let r = crate::text::string_of(&v, 0, hi);
    assert(r@ =~= v@.take(hi as int));
    r
}

/// Runs the built-in `cmd` reading `stdin` from a pipe: as `run_builtin`,
/// except that `echo` without arguments echoes its input without the
/// newlines at its end, and `pwd` prints no newline.
pub fn run_builtin_stdin(cmd: &str, args: &Vec<String>, redirected: bool, stdin: &str, history: &CmdHistory, cwd: &Option<String>, found: &Option<String>) -> (r: BuiltinResult)
    requires
        history.wf(),
        cmd@ == "pwd"@ ==> cwd is Some,
    ensures
        r@ == builtin_stdin_result(cmd@, args.deep_view(), redirected, stdin@, history@, opt_seq(*cwd), opt_seq(*found)),
{
    proof {
        reveal_strlit("\n");
        reveal_strlit("");
    }
    if str_eq(cmd, "echo") {
        let output = if args.len() > 0 {
            let o = join_all(args, " ");
            proof {
                reveal_strlit(" ");
            }
            assert(" "@ =~= seq![' ']);
            o
        } else {
            trim_newlines_exec(stdin)
        };
        to_target_exec(output, "\n", redirected)
    } else if str_eq(cmd, "pwd") {
        let output = match cwd {
            Some(d) => d.clone(),
            None => String::new(),
        };
        to_target_exec(output, "", redirected)
    } else {
        run_builtin(cmd, args, redirected, history, cwd, found)
    }
}

/// What running a parsed command line comes to.
#[derive(Debug)]
pub enum Dispatch {
    /// Run it with `run_builtin` and print what it returns.
    Builtin,
    /// Change the working directory to this path.
    ChangeDir(String),
    /// Run the program found on the search path.
    Program,
    /// Print this text.
    Message(String),
}

/// How the command `command` of the kind `kind` is run: `echo`, `pwd`,
/// `type` and `history` by `run_builtin`; `cd` changes to its first
/// argument, or to `~` without one; another built-in is a mistake; a
/// program found on the search path is started; anything else is not
/// found.
pub fn dispatch(kind: Type, command: &str, args: &Vec<String>) -> (r: Dispatch)
    ensures
        match kind {
            Type::BuiltIn => if command@ == "echo"@ || command@ == "pwd"@ || command@ == "type"@
                || command@ == "history"@ {
                r is Builtin
            } else if command@ == "cd"@ {
                r matches Dispatch::ChangeDir(d) && d@ == (if args.len() == 0 {
                    "~"@
                } else {
                    args.deep_view()[0]
                })
            } else {
                r matches Dispatch::Message(m) && m@ == "Something went wrong!\n"@
            },
            Type::PathExec => r is Program,
            Type::Invalid => r matches Dispatch::Message(m) && m@ == command@ + ": command not found\n"@,
        },
{
    match kind {
        Type::BuiltIn => {
            if str_eq(command, "echo") || str_eq(command, "pwd") || str_eq(command, "type") || str_eq(
                command,
                "history",
            ) {
                Dispatch::Builtin
            } else if str_eq(command, "cd") {
                if args.len() == 0 {
                    Dispatch::ChangeDir("~".to_string())
                } else {
                    Dispatch::ChangeDir(args[0].clone())
                }
            } else {
                Dispatch::Message("Something went wrong!\n".to_string())
            }
        },
        Type::PathExec => Dispatch::Program,
        Type::Invalid => {
            let mut m = command.to_string();
            push_str(&mut m, ": command not found\n");
            Dispatch::Message(m)
        },
    }
}

} // verus!
