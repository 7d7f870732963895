//! A simpler command classifier, which looks at the first
//! word after the command (as `type` does) and knows three built-ins.

use vstd::prelude::*;
use vstd::string::StrSliceExecFns;
use crate::cmd::{find_char, index_of, lemma_index_of_from};
use crate::text::{chars_of, is_whitespace, is_ws, str_eq, trim_bounds, trimmed};

verus! {

/// What the first argument of a command line denotes.
#[derive(PartialEq, Eq, Structural, Debug, Clone, Copy)]
pub enum Type {
    BuiltIn,
    PathExec,
    PathNoExec,
    Invalid,
}

/// The built-ins that this classifier knows.
pub open spec fn is_builtin_name(s: Seq<char>) -> bool {
    s == "echo"@ || s == "exit"@ || s == "type"@
}

/// The command word and the rest of `s`, cut at its first space (`str::split_once(' ')`,
/// or all of `s` and nothing when it holds no space).
pub open spec fn split_first_space(s: Seq<char>) -> (Seq<char>, Seq<char>) {
    match index_of(s, ' ') {
        Some(p) => (s.take(p), s.skip(p + 1)),
        Option::None => (s, Seq::empty()),
    }
}

/// Splits `input` at its first space into the command and the rest.
pub fn cmd_split(input: &str) -> (r: (&str, String))
    ensures
        r.0@ == split_first_space(input@).0,
        r.1@ == split_first_space(input@).1,
{
    let v = chars_of(input);
    let mut k: usize = 0;
    proof {
        lemma_index_of_from(v@, ' ', 0);
    }
    while k < v.len()
        invariant
            k <= v.len(),
            v@ == input@,
            index_of(v@, ' ') == crate::cmd::index_of_from(v@, ' ', k as int),
        decreases v.len() - k,
    {
        if v[k] == ' ' {
            proof {
                lemma_index_of_from(v@, ' ', k as int);
            }
            let head = input.substring_char(0, k);
            let tail = input.substring_char(k + 1, v.len());
            let mut rest = String::new();
            crate::text::push_str(&mut rest, tail);
            assert(input@.subrange(0, k as int) =~= input@.take(k as int));
            assert(input@.subrange(k + 1, v.len() as int) =~= input@.skip(k + 1));
            return (head, rest);
        }
        k = k + 1;
    }
    proof {
        reveal_strlit("");
    }
    (input, String::new())
}

/// The first white-space separated word of `s`, if it has one
/// (`str::split_whitespace().next()`).
pub open spec fn first_word(s: Seq<char>) -> Option<Seq<char>> {
    let t = crate::text::trim_start(s);
    if t.len() == 0 {
        Option::None
    } else {
        Some(t.take(word_end(t, 0)))
    }
}

/// The end of the run of non-white-space characters of `t` that starts at `k`.
pub open spec fn word_end(t: Seq<char>, k: int) -> int
    decreases t.len() - k,
{
    if k < 0 || k >= t.len() || is_ws(t[k]) {
        if k < 0 { 0 } else if k > t.len() { t.len() as int } else { k }
    } else {
        word_end(t, k + 1)
    }
}

proof fn lemma_word_end(t: Seq<char>, k: int)
    requires
        0 <= k <= t.len(),
    ensures
        k <= word_end(t, k) <= t.len(),
    decreases t.len() - k,
{
    if k < t.len() && !is_ws(t[k]) {
        lemma_word_end(t, k + 1);
    }
}

proof fn lemma_trim_start_skip_ws(s: Seq<char>, i: int)
    requires
        0 <= i <= s.len(),
        forall|k: int| 0 <= k < i ==> is_ws(#[trigger] s[k]),
        i == s.len() || !is_ws(s[i]),
    ensures
        crate::text::trim_start(s) == s.skip(i),
    decreases i,
{
    if i > 0 {
        assert(s.drop_first().skip(i - 1) =~= s.skip(i));
        lemma_trim_start_skip_ws(s.drop_first(), i - 1);
    } else {
        assert(s.skip(0) =~= s);
    }
}

/// The bounds of the first white-space separated word of `v`.
fn first_word_bounds(v: &Vec<char>) -> (r: Option<(usize, usize)>)
    ensures
        r matches Some((lo, hi)) ==> lo <= hi <= v.len() && first_word(v@) == Some(
            v@.subrange(lo as int, hi as int),
        ),
        r is None ==> first_word(v@) is None,
{
    let mut lo: usize = 0;
    while lo < v.len() && is_whitespace(v[lo])
        invariant
            lo <= v.len(),
            forall|k: int| 0 <= k < lo ==> is_ws(#[trigger] v@[k]),
        decreases v.len() - lo,
    {
        lo = lo + 1;
    }
    proof {
        lemma_trim_start_skip_ws(v@, lo as int);
    }
    let ghost t = v@.skip(lo as int);
    if lo == v.len() {
        return None;
    }
    let mut hi = lo;
    while hi < v.len() && !is_whitespace(v[hi])
        invariant
            lo <= hi <= v.len(),
            t == v@.skip(lo as int),
            word_end(t, 0) == word_end(t, hi - lo),
        decreases v.len() - hi,
    {
        hi = hi + 1;
    }
    assert(word_end(t, (hi - lo) as int) == hi - lo);
    assert(t.take(hi - lo) =~= v@.subrange(lo as int, hi as int));
    Some((lo, hi))
}

/// What the first argument of the command line `input` denotes: one of the
/// built-ins, a program found on the search path (`on_path` says whether
/// one was), or a name not found; `Invalid` when there is no argument.
pub open spec fn first_arg_type(input: Seq<char>, on_path: bool) -> Type {
    match first_word(split_first_space(trimmed(input)).1) {
        Some(w) => if is_builtin_name(w) {
            Type::BuiltIn
        } else if on_path {
            Type::PathExec
        } else {
            Type::PathNoExec
        },
        Option::None => Type::Invalid,
    }
}

/// Classifies the command line `input`: the kind of its first argument
/// (see `first_arg_type`), that argument (empty when there is none) and the
/// text after the command word. `on_path` says whether the first argument
/// was found on the search path.
pub fn parse(input: &str, on_path: bool) -> (r: (Type, &str, &str))
    ensures
        r.0 == first_arg_type(input@, on_path),
        r.1@ == (match first_word(split_first_space(trimmed(input@)).1) {
            Some(w) => w,
            Option::None => Seq::empty(),
        }),
        r.2@ == split_first_space(trimmed(input@)).1,
{
    let v = chars_of(input);
    let (lo, hi) = trim_bounds(&v);
    let t = input.substring_char(lo, hi);
    let tv = chars_of(t);
    let rest = match find_char(&tv, ' ') {
        Some(p) => {
            let rest = t.substring_char(p + 1, tv.len());
            assert(rest@ =~= t@.skip(p + 1));
            rest
        },
        None => {
            let rest = t.substring_char(tv.len(), tv.len());
            assert(rest@ =~= Seq::<char>::empty());
            rest
        },
    };
    let rv = chars_of(rest);
    match first_word_bounds(&rv) {
        Some((a, b)) => {
            let w = rest.substring_char(a, b);
            let kind = if str_eq(w, "echo") || str_eq(w, "exit") || str_eq(w, "type") {
                Type::BuiltIn
            } else if on_path {
                Type::PathExec
            } else {
                Type::PathNoExec
            };
            (kind, w, rest)
        },
        None => (Type::Invalid, rest.substring_char(0, 0), rest),
    }
}

/// What the first argument of the command line `input` denotes (see
/// `first_arg_type`).
pub fn cmd_type(input: &str, on_path: bool) -> (r: Type)
    ensures
        r == first_arg_type(input@, on_path),
{
    parse(input, on_path).0
}

} // verus!
