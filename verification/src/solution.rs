//! A minimal evaluator for the shell, which knows `exit` and `echo`.

use vstd::prelude::*;
use crate::text::{chars_of, join, join_range, split_chars, split_on, str_eq};

verus! {

/// What the minimal shell does with a line.
#[derive(Debug)]
pub enum Action {
    Terminate,
    NoOp,
    Print(String),
}

/// The meaning of an `Action`.
#[verifier::ext_equal]
pub enum ActionSpec {
    Terminate,
    NoOp,
    Print(Seq<char>),
}

impl View for Action {
    type V = ActionSpec;

    open spec fn view(&self) -> ActionSpec {
        match self {
            Action::Terminate => ActionSpec::Terminate,
            Action::NoOp => ActionSpec::NoOp,
            Action::Print(s) => ActionSpec::Print(s@),
        }
    }
}

/// What the line `s` does: its words are the pieces between single
/// spaces; `exit` ends the shell, `echo` prints the other words joined by
/// spaces, anything else is not found.
pub open spec fn eval_spec(s: Seq<char>) -> ActionSpec {
    let words = split_on(s, ' ');
    let binary = words[0];
    if binary == "exit"@ {
        ActionSpec::Terminate
    } else if binary == "echo"@ {
        ActionSpec::Print(join(words.skip(1), seq![' ']))
    } else {
        ActionSpec::Print(binary + ": command not found"@)
    }
}

proof fn lemma_split_plain(p: Seq<char>, c: char)
    requires
        !p.contains(c),
    ensures
        split_on(p, c) == seq![p],
    decreases p.len(),
{
    if p.len() > 0 {
        let q = p.drop_last();
        assert(!q.contains(c)) by {
            if q.contains(c) {
                let j = choose|j: int| 0 <= j < q.len() && q[j] == c;
                assert(p[j] == c);
            }
        }
        lemma_split_plain(q, c);
        assert(p.last() != c) by {
            assert(p[p.len() - 1] == p.last());
        }
        assert(q.push(p.last()) =~= p);
    } else {
        assert(p =~= Seq::<char>::empty());
    }
}

proof fn lemma_split_first(p: Seq<char>, c: char, t: Seq<char>)
    requires
        !p.contains(c),
    ensures
        split_on(p.push(c) + t, c) == seq![p] + split_on(t, c),
    decreases t.len(),
{
    crate::text::lemma_split_on_nonempty(t, c);
    if t.len() == 0 {
        lemma_split_plain(p, c);
        assert(p.push(c) + t =~= p.push(c));
        assert(p.push(c).drop_last() =~= p);
        assert(split_on(t, c) =~= seq![Seq::<char>::empty()]);
        assert(seq![p] + split_on(t, c) =~= seq![p].push(Seq::empty()));
    } else {
        let t0 = t.drop_last();
        lemma_split_first(p, c, t0);
        crate::text::lemma_split_on_nonempty(t0, c);
        let whole = p.push(c) + t;
        assert(whole.drop_last() =~= p.push(c) + t0);
        assert(whole.last() == t.last());
        let r = split_on(t0, c);
        if t.last() == c {
            assert(seq![p] + r.push(Seq::empty()) =~= (seq![p] + r).push(Seq::empty()));
        } else {
            assert((seq![p] + r).update((seq![p] + r).len() - 1, (seq![p] + r).last().push(t.last()))
                =~= seq![p] + r.update(r.len() - 1, r.last().push(t.last())));
        }
    }
}

/// `echo` prints the rest of the line after the first space, exactly.
pub proof fn lemma_echo_prints_rest(t: Seq<char>)
    ensures
        eval_spec(seq!['e', 'c', 'h', 'o', ' '] + t) == ActionSpec::Print(t),
{
    let p = seq!['e', 'c', 'h', 'o'];
    assert(!p.contains(' ')) by {
        if p.contains(' ') {
            let j = choose|j: int| 0 <= j < p.len() && p[j] == ' ';
        }
    }
    assert(seq!['e', 'c', 'h', 'o', ' '] + t =~= p.push(' ') + t);
    lemma_split_first(p, ' ', t);
    let words = split_on(p.push(' ') + t, ' ');
    assert(words.skip(1) =~= split_on(t, ' '));
    crate::text::lemma_join_split(t, ' ');
    reveal_strlit("echo");
    reveal_strlit("exit");
    assert("echo"@ =~= p);
    assert(words[0] == p);
    assert(p != "exit"@) by {
        assert("exit"@[0] == 'e');
        assert("exit"@[1] == 'x');
    }
}

/// Evaluates a line.
pub fn eval_command(input: &str) -> (r: Action)
    ensures
        r@ == eval_spec(input@),
{
    let words = split_chars(&chars_of(input), ' ');
    proof {
        crate::text::lemma_split_on_nonempty(input@, ' ');
    }
    if words.len() == 0 {
        return Action::NoOp;
    }
    let binary = words[0].as_str();
    assert(words.deep_view()[0] == binary@);
    if str_eq(binary, "exit") {
        Action::Terminate
    } else if str_eq(binary, "echo") {
        let rest = join_range(&words, 1, words.len(), " ");
        proof {
            reveal_strlit(" ");
        }
        assert(" "@ =~= seq![' ']);
        assert(words.deep_view().subrange(1, words.len() as int) =~= words.deep_view().skip(1));
        Action::Print(rest)
    } else {
        let mut m = words[0].clone();
        crate::text::push_str(&mut m, ": command not found");
        Action::Print(m)
    }
}

} // verus!
