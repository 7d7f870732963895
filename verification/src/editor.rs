//! The line editor of the prompt: what each key does to the line being
//! typed, to the position in the history and to the screen, and what the
//! shell does next.

use vstd::prelude::*;
use crate::complete::{
    common_of, get_matches, is_walk, listed_in, longest_common_prefix, name_pieces,
    pieces_of_some, sort_strings,
    sorted_strings, with_prefix,
};
use crate::history::CmdHistory;
use crate::text::{
    byte_len, chars_of, erase, is_whitespace, is_ws, join, join_all, lemma_join_split, push_erase,
    push_str, split_on, str_eq, str_len, trim, trim_end, trimmed,
};

verus! {

/// A key pressed at the prompt. `CtrlJ` and `CtrlW` are the letters `j`
/// and `w` typed with Control; any other character, with or without a
/// modifier, is `Char`.
#[derive(PartialEq, Eq, Structural, Debug, Clone, Copy)]
pub enum Key {
    Esc,
    Tab,
    Enter,
    Backspace,
    Char(char),
    CtrlJ,
    CtrlW,
    Up,
    Down,
    Other,
}

/// What the shell does after a key.
#[derive(Debug)]
pub enum Action {
    /// Print this text (it may be empty) and go on reading keys.
    Echo(String),
    /// Look up the names that could complete the line and hand them to
    /// `Prompt::begin_completion`.
    Complete,
    /// Leave this prompt without running anything or printing.
    Discard,
    /// Print a newline and leave this prompt: the line is blank.
    NewLine,
    /// Record this line in the history, print a newline and end the shell.
    Exit(String),
    /// Print a newline, run this line and leave this prompt.
    Run(String),
}

/// The meaning of an `Action`.
#[verifier::ext_equal]
pub enum ActionSpec {
    Echo(Seq<char>),
    Complete,
    Discard,
    NewLine,
    Exit(Seq<char>),
    Run(Seq<char>),
}

impl View for Action {
    type V = ActionSpec;

    open spec fn view(&self) -> ActionSpec {
        match self {
            Action::Echo(s) => ActionSpec::Echo(s@),
            Action::Complete => ActionSpec::Complete,
            Action::Discard => ActionSpec::Discard,
            Action::NewLine => ActionSpec::NewLine,
            Action::Exit(s) => ActionSpec::Exit(s@),
            Action::Run(s) => ActionSpec::Run(s@),
        }
    }
}

/// The line being typed, the position reached in the history with Up and
/// Down, and, while a completion is shown, its candidates and how many
/// completion steps were taken.
pub struct Prompt {
    input: String,
    history_offset: usize,
    completion: Option<(Vec<String>, usize)>,
}

/// The state of the prompt: the line, the history position, and the
/// candidates and step count of the completion in progress.
pub type PromptView = (Seq<char>, usize, Option<(Seq<Seq<char>>, usize)>);

impl View for Prompt {
    type V = PromptView;

    closed spec fn view(&self) -> PromptView {
        (self.input@, self.history_offset, match self.completion {
            Some((m, c)) => Some((m.deep_view(), c)),
            Option::None => Option::None,
        })
    }
}

/// A line that holds only white space.
pub open spec fn is_blank(s: Seq<char>) -> bool {
    trimmed(s).len() == 0
}

/// The line `exit`, around white space.
pub open spec fn is_exit(s: Seq<char>) -> bool {
    trimmed(s) == seq!['e', 'x', 'i', 't']
}

/// The start of the last word of `t.take(k)`.
pub open spec fn word_start(t: Seq<char>, k: int) -> int
    decreases k,
{
    if k <= 0 {
        0
    } else if is_ws(t[k - 1]) {
        k
    } else {
        word_start(t, k - 1)
    }
}

/// Control-W on a line with something in it: the trailing white space is
/// removed, one character at a time, then as many characters as the last
/// word has bytes; each removed character is erased on the screen. Gives
/// the new line and the text printed.
pub open spec fn delete_word(input: Seq<char>) -> (Seq<char>, Seq<char>) {
    let t = trim_end(input);
    let word = t.skip(word_start(t, t.len() as int));
    let nb = str_len(word) as int;
    let kept = if nb >= t.len() { 0 } else { t.len() - nb };
    (t.take(kept), erase((input.len() - t.len()) as nat) + erase(nb as nat))
}

/// Up: the previous history entry (from the newest), trimmed, replaces the
/// line; past the oldest entry the line is emptied and the position goes
/// back to the start. Gives the new line, position and printed text.
pub open spec fn history_up(input: Seq<char>, offset: usize, es: Seq<(usize, Seq<char>)>) -> (Seq<char>, usize, Seq<char>) {
    if es.len() == 0 {
        (input, offset, Seq::empty())
    } else {
        let o = offset + 1;
        if o > es.len() {
            (Seq::empty(), 0, erase(str_len(input) as nat))
        } else {
            let line = trimmed(es[es.len() - o].1);
            (line, o as usize, erase(str_len(input) as nat) + line)
        }
    }
}

/// Down: the next history entry, trimmed, replaces the line; at the start
/// the line is emptied.
pub open spec fn history_down(input: Seq<char>, offset: usize, es: Seq<(usize, Seq<char>)>) -> (Seq<char>, usize, Seq<char>) {
    if es.len() == 0 {
        (input, offset, Seq::empty())
    } else if offset == 0 {
        (Seq::empty(), 0, erase(str_len(input) as nat))
    } else {
        let o = if offset > es.len() { es.len() as int } else { offset - 1 };
        let line = if o == 0 { Seq::empty() } else { trimmed(es[es.len() - o].1) };
        (line, o as usize, erase(str_len(input) as nat) + line)
    }
}

/// Down then Up at a position inside the history comes back to the same
/// position and the same line.
pub proof fn lemma_down_then_up(input: Seq<char>, offset: usize, es: Seq<(usize, Seq<char>)>)
    requires
        1 <= offset <= es.len(),
    ensures
        ({
            let (line1, o1, _) = history_down(input, offset, es);
            let (line2, o2, _) = history_up(line1, o1, es);
            o2 == offset && line2 == trimmed(es[es.len() - offset].1)
        }),
{
}

/// Typing a character and then Backspace gives the line back, and leaves
/// the history position alone.
pub proof fn lemma_type_then_backspace(st: PromptView, c: char, es: Seq<(usize, Seq<char>)>, common: Seq<Seq<char>>)
    requires
        st.2 is None,
    ensures
        key_step(key_step(st, Key::Char(c), es, common).0, Key::Backspace, es, common).0 == st,
{
    assert(st.0.push(c).drop_last() =~= st.0);
}

/// One completion step for the line `input` with the candidates `ms`, the
/// step count `count` and `common`, the pieces the candidates share: no
/// candidate rings the bell; one replaces the line (with a space); with
/// more, a single shared piece on the first step rings the bell, one shared
/// piece later lists the candidates and reprints the line (lengthened to
/// the shared piece if that is longer), several shared pieces replace the
/// line with them joined by underscores, and none reprints the line.
/// Gives the new line and the printed text.
pub open spec fn completion_step(input: Seq<char>, ms: Seq<Seq<char>>, count: usize, common: Seq<Seq<char>>) -> (Seq<char>, Seq<char>) {
    if ms.len() == 0 {
        (input, seq!['\u{7}'])
    } else if ms.len() == 1 {
        let line = ms[0].push(' ');
        (line, erase(str_len(input) as nat) + line)
    } else if common.len() == 1 && count == 0 {
        (input, seq!['\u{7}'])
    } else if common.len() >= 1 {
        let joined = join(common, seq!['_']);
        let k = str_len(input);
        let line = if k < str_len(joined) { joined } else { input };
        if common.len() == 1 {
            (line, seq!['\n'] + join(ms, seq![' ', ' ']) + seq!['\n', '$', ' '] + line)
        } else {
            (joined, erase(k as nat) + joined)
        }
    } else {
        (input, erase(str_len(input) as nat) + input)
    }
}

/// What a key does at the prompt `st`, with the history entries `es` and,
/// for a completion step, the shared pieces `common`: the new state and the
/// action.
pub open spec fn key_step(st: PromptView, key: Key, es: Seq<(usize, Seq<char>)>, common: Seq<Seq<char>>) -> (PromptView, ActionSpec) {
    let (input, offset, comp) = st;
    match comp {
        Option::None => match key {
            Key::Esc => (st, ActionSpec::Discard),
            Key::Tab => (st, ActionSpec::Complete),
            Key::Enter | Key::CtrlJ => if is_blank(input) {
                (st, ActionSpec::NewLine)
            } else if is_exit(input) {
                (st, ActionSpec::Exit(input))
            } else {
                (st, ActionSpec::Run(input))
            },
            Key::Backspace => if input.len() > 0 {
                ((input.drop_last(), offset, comp), ActionSpec::Echo(erase(1)))
            } else {
                (st, ActionSpec::Echo(Seq::empty()))
            },
            Key::Char(c) => ((input.push(c), offset, comp), ActionSpec::Echo(seq![c])),
            Key::CtrlW => if input.len() > 0 {
                let (line, text) = delete_word(input);
                ((line, offset, comp), ActionSpec::Echo(text))
            } else {
                (st, ActionSpec::Echo(seq!['\u{7}']))
            },
            Key::Up => {
                let (line, o, text) = history_up(input, offset, es);
                ((line, o, comp), ActionSpec::Echo(text))
            },
            Key::Down => {
                let (line, o, text) = history_down(input, offset, es);
                ((line, o, comp), ActionSpec::Echo(text))
            },
            Key::Other => (st, ActionSpec::Echo(Seq::empty())),
        },
        Some((ms, count)) => match key {
            Key::Tab => if ms.len() > 1 {
                let (line, text) = completion_step(input, ms, count, common);
                ((line, offset, Some((ms, (count + 1) as usize))), ActionSpec::Echo(text))
            } else {
                ((input, offset, Option::None), ActionSpec::Echo(Seq::empty()))
            },
            Key::Enter => if is_exit(input) {
                ((input, offset, Option::None), ActionSpec::Exit(input))
            } else {
                ((Seq::empty(), offset, Option::None), ActionSpec::Run(input))
            },
            Key::Backspace => (
                (if input.len() > 0 { input.drop_last() } else { input }, offset, Option::None),
                ActionSpec::Echo(erase(1)),
            ),
            Key::CtrlW => if input.len() > 0 {
                let (line, text) = delete_word(input);
                ((line, offset, comp), ActionSpec::Echo(text))
            } else {
                (st, ActionSpec::Echo(seq!['\u{7}']))
            },
            Key::Char(c) => ((input.push(c), offset, Option::None), ActionSpec::Echo(seq![c])),
            Key::CtrlJ => ((input.push('j'), offset, Option::None), ActionSpec::Echo(seq!['j'])),
            _ => ((input, offset, Option::None), ActionSpec::Echo(Seq::empty())),
        },
    }
}

/// Backspace on a line with something in it removes exactly its last
/// character and erases one character on the screen, whether or not a
/// completion is being shown; on an empty line the line stays as it is.
/// The history position never changes.
pub proof fn lemma_backspace_removes_last(st: PromptView, es: Seq<(usize, Seq<char>)>, common: Seq<Seq<char>>)
    ensures
        ({
            let (new, act) = key_step(st, Key::Backspace, es, common);
            &&& st.0.len() > 0 ==> new.0 == st.0.drop_last() && act == ActionSpec::Echo(erase(1))
            &&& st.0.len() == 0 ==> new.0 == st.0
            &&& new.1 == st.1
        }),
{
}

/// Pieces joined with `c`, none of which holds `c`, cut at `c` again give
/// the pieces back.
proof fn lemma_split_join(ps: Seq<Seq<char>>, c: char)
    requires
        ps.len() >= 1,
        forall|k: int| 0 <= k < ps.len() ==> !(#[trigger] ps[k]).contains(c),
    ensures
        split_on(join(ps, seq![c]), c) == ps,
    decreases ps.len(),
{
    if ps.len() == 1 {
        crate::history::lemma_split_append_plain(Seq::empty(), ps[0], c);
        assert(Seq::<char>::empty() + ps[0] =~= ps[0]);
        assert(split_on(Seq::<char>::empty(), c) =~= seq![Seq::<char>::empty()]);
        assert(seq![Seq::<char>::empty()].update(0, Seq::<char>::empty() + ps[0]) =~= ps);
    } else {
        let x = join(ps.drop_last(), seq![c]);
        let y = ps.last();
        lemma_split_join(ps.drop_last(), c);
        assert(!y.contains(c)) by {
            assert(y == ps[ps.len() - 1]);
        }
        assert(x.push(c).drop_last() =~= x);
        assert(split_on(x.push(c), c) == split_on(x, c).push(Seq::empty()));
        crate::history::lemma_split_append_plain(x.push(c), y, c);
        assert(join(ps, seq![c]) =~= x.push(c) + y);
        assert(Seq::<char>::empty() + y =~= y);
        assert(ps.drop_last().push(Seq::<char>::empty()).update(ps.len() - 1, Seq::<char>::empty() + y)
            =~= ps);
    }
}

/// The first `k` pieces joined with `c` begin the join of all the pieces.
proof fn lemma_join_take_prefix(ps: Seq<Seq<char>>, c: char, k: int)
    requires
        1 <= k <= ps.len(),
    ensures
        join(ps.take(k), seq![c]).len() <= join(ps, seq![c]).len(),
        join(ps, seq![c]).take(join(ps.take(k), seq![c]).len() as int) == join(ps.take(k), seq![c]),
    decreases ps.len(),
{
    if k == ps.len() {
        assert(ps.take(k) =~= ps);
        assert(join(ps, seq![c]).take(join(ps, seq![c]).len() as int) =~= join(ps, seq![c]));
    } else {
        let d = ps.drop_last();
        lemma_join_take_prefix(d, c, k);
        assert(d.take(k) =~= ps.take(k));
        let x = join(d, seq![c]);
        let t = join(ps.take(k), seq![c]);
        assert(join(ps, seq![c]) == x + seq![c] + ps.last());
        assert((x + seq![c] + ps.last()).take(t.len() as int) =~= x.take(t.len() as int));
    }
}

/// With several candidates sharing two or more underscore pieces, a
/// completion step replaces the line with those pieces joined by
/// underscores: cutting the new line at its underscores gives back exactly
/// the shared pieces, and when they are the leading pieces of a candidate,
/// the new line begins that candidate (trimmed).
pub proof fn lemma_completion_joins_pieces(input: Seq<char>, ms: Seq<Seq<char>>, count: usize, common: Seq<Seq<char>>)
    requires
        ms.len() > 1,
        common.len() >= 2,
        forall|k: int| 0 <= k < common.len() ==> !(#[trigger] common[k]).contains('_'),
    ensures
        split_on(completion_step(input, ms, count, common).0, '_') == common,
        forall|m: int|
            0 <= m < ms.len() && common.len() <= name_pieces(#[trigger] ms[m]).len()
                && name_pieces(ms[m]).take(common.len() as int) == common ==> {
                let line = completion_step(input, ms, count, common).0;
                &&& line.len() <= trimmed(ms[m]).len()
                &&& trimmed(ms[m]).take(line.len() as int) == line
            },
{
    lemma_split_join(common, '_');
    assert forall|m: int|
        0 <= m < ms.len() && common.len() <= name_pieces(#[trigger] ms[m]).len()
            && name_pieces(ms[m]).take(common.len() as int) == common implies {
            let line = completion_step(input, ms, count, common).0;
            &&& line.len() <= trimmed(ms[m]).len()
            &&& trimmed(ms[m]).take(line.len() as int) == line
        } by {
        let ps = name_pieces(ms[m]);
        lemma_join_split(trimmed(ms[m]), '_');
        lemma_join_take_prefix(ps, '_', common.len() as int);
    }
}

/// The completion step takes the shared pieces from a walk of the
/// candidates when there are several; otherwise any walk will do.
pub open spec fn walk_fits(st: PromptView, key: Key, w: Seq<Seq<Seq<char>>>) -> bool {
    match st.2 {
        Some((ms, _)) => key == Key::Tab && ms.len() > 1 ==> is_walk(w, ms),
        Option::None => true,
    }
}

/// `new` and `act` are what `key` does at the prompt `old`, with the
/// history entries `es`, for the walk `w` of the completion candidates.
pub open spec fn key_ok(old: PromptView, key: Key, es: Seq<(usize, Seq<char>)>, new: PromptView, act: ActionSpec, w: Seq<Seq<Seq<char>>>) -> bool {
    &&& walk_fits(old, key, w)
    &&& new == key_step(old, key, es, common_of(w)).0
    &&& act == key_step(old, key, es, common_of(w)).1
}

/// The key can be handled without failing: Control-W on a line that is not
/// empty needs a character that is not white space in it, the history
/// position and the step count must be able to grow, and the history must
/// be able to take one more entry.
pub open spec fn key_pre(st: PromptView, key: Key, es: Seq<(usize, Seq<char>)>) -> bool {
    &&& (key == Key::CtrlW && st.0.len() > 0 ==> trim_end(st.0).len() > 0)
    &&& st.1 < usize::MAX
    &&& es.len() < usize::MAX
    &&& (st.2 matches Some((_, c)) ==> c < usize::MAX)
}


/// Control-W on a line with something in it.
fn delete_word_exec(input: &String) -> (r: (String, String))
    requires
        trim_end(input@).len() > 0,
    ensures
        (r.0@, r.1@) == delete_word(input@),
{
    let v = chars_of(input.as_str());
    let mut hi = v.len();
    while hi > 0 && is_whitespace(v[hi - 1])
        invariant
            hi <= v.len(),
            v@ == input@,
            forall|k: int| hi <= k < v.len() ==> is_ws(#[trigger] v@[k]),
        decreases hi,
    {
        hi = hi - 1;
    }
    proof {
        crate::text::lemma_trim_end_take(v@, hi as int);
        if hi > 0 {
            assert(trim_end(v@.take(hi as int)) == v@.take(hi as int));
        } else {
            assert(v@.take(0) =~= Seq::<char>::empty());
        }
    }
    let ghost t = v@.take(hi as int);
    assert(trim_end(input@) == t);
    let mut p = hi;
    while p > 0 && !is_whitespace(v[p - 1])
        invariant
            p <= hi <= v.len(),
            v@ == input@,
            t == v@.take(hi as int),
            word_start(t, hi as int) == word_start(t, p as int),
        decreases p,
    {
        p = p - 1;
    }
    assert(word_start(t, p as int) == p);
    let word = crate::text::string_of(&v, p, hi);
    assert(word@ =~= t.skip(p as int));
    let nb = byte_len(word.as_str());
    let kept = if nb >= hi { 0 } else { hi - nb };
    let line = crate::text::string_of(&v, 0, kept);
    assert(line@ =~= t.take(kept as int));
    let mut text = String::new();
    push_erase(&mut text, v.len() - hi);
    push_erase(&mut text, nb);
    assert(text@ =~= erase((v.len() - hi) as nat) + erase(nb as nat));
    (line, text)
}

/// The trimmed command of entry `k`.
fn entry_line(history: &CmdHistory, k: usize) -> (r: String)
    requires
        history.wf(),
        k < history@.len(),
    ensures
        r@ == trimmed(history@[k as int].1),
{
    let es = history.entries();
    assert(es.deep_view()[k as int] == (es[k as int].0, es[k as int].1@));
    trim(es[k].1.as_str())
}

/// Up in the history.
fn history_up_exec(input: &String, offset: usize, history: &CmdHistory) -> (r: (String, usize, String))
    requires
        history.wf(),
        offset < usize::MAX,
    ensures
        (r.0@, r.1, r.2@) == history_up(input@, offset, history@),
{
    let len = history.length();
    if len == 0 {
        return (input.clone(), offset, String::new());
    }
    let mut text = String::new();
    push_erase(&mut text, byte_len(input.as_str()));
    let o = offset + 1;
    if o > len {
        assert(text@ =~= erase(str_len(input@) as nat));
        (String::new(), 0, text)
    } else {
        let line = entry_line(history, len - o);
        push_str(&mut text, line.as_str());
        (line, o, text)
    }
}

/// Down in the history.
fn history_down_exec(input: &String, offset: usize, history: &CmdHistory) -> (r: (String, usize, String))
    requires
        history.wf(),
    ensures
        (r.0@, r.1, r.2@) == history_down(input@, offset, history@),
{
    let len = history.length();
    if len == 0 {
        return (input.clone(), offset, String::new());
    }
    let mut text = String::new();
    push_erase(&mut text, byte_len(input.as_str()));
    if offset == 0 {
        assert(text@ =~= erase(str_len(input@) as nat));
        return (String::new(), 0, text);
    }
    let o = if offset > len { len } else { offset - 1 };
    let line = if o == 0 { String::new() } else { entry_line(history, len - o) };
    push_str(&mut text, line.as_str());
    (line, o, text)
}

/// The pieces of each name, in the order of the names.
pub open spec fn names_walk(dm: Seq<Seq<char>>) -> Seq<Seq<Seq<char>>> {
    Seq::new(dm.len(), |i: int| name_pieces(dm[i]))
}

proof fn lemma_names_walk(dm: Seq<Seq<char>>)
    ensures
        is_walk(names_walk(dm), dm),
{
    let w0 = names_walk(dm);
    assert forall|i: int| 0 <= i < w0.len() implies pieces_of_some(#[trigger] w0[i], dm) by {
        assert(w0[i] == name_pieces(dm[i]));
    }
    assert forall|k: int| 0 <= k < dm.len() implies listed_in(name_pieces(#[trigger] dm[k]), w0) by {
        assert(w0[k] == name_pieces(dm[k]));
    }
}

/// A completion step with at most one candidate.
fn completion_step_few(input: &String, ms: &Vec<String>, count: usize) -> (r: (String, String))
    requires
        ms.len() <= 1,
    ensures
        forall|common: Seq<Seq<char>>|
            (r.0@, r.1@) == #[trigger] completion_step(input@, ms.deep_view(), count, common),
{
    if ms.len() == 0 {
        let mut text = String::new();
        text.push('\u{7}');
        assert(text@ =~= seq!['\u{7}']);
        (input.clone(), text)
    } else {
        let mut line = ms[0].clone();
        line.push(' ');
        let mut text = String::new();
        push_erase(&mut text, byte_len(input.as_str()));
        push_str(&mut text, line.as_str());
        assert(ms.deep_view()[0] == ms[0]@);
        (line, text)
    }
}

/// A completion step with several candidates and the pieces `common` they
/// share.
fn completion_step_many(input: &String, ms: &Vec<String>, count: usize, common: &Vec<String>) -> (r: (String, String))
    requires
        ms.len() > 1,
    ensures
        (r.0@, r.1@) == completion_step(input@, ms.deep_view(), count, common.deep_view()),
{
    let ghost dm = ms.deep_view();
    if common.len() == 1 && count == 0 {
        let mut text = String::new();
        text.push('\u{7}');
        assert(text@ =~= seq!['\u{7}']);
        return (input.clone(), text);
    }
    if common.len() >= 1 {
        let joined = join_all(common, "_");
        proof {
            reveal_strlit("_");
        }
        assert("_"@ =~= seq!['_']);
        let k = byte_len(input.as_str());
        let line = if k < byte_len(joined.as_str()) { joined.clone() } else { input.clone() };
        if common.len() == 1 {
            let mut text = String::new();
            text.push('\n');
            let listed = join_all(ms, "  ");
            proof {
                reveal_strlit("  ");
            }
            assert("  "@ =~= seq![' ', ' ']);
            push_str(&mut text, listed.as_str());
            text.push('\n');
            text.push('$');
            text.push(' ');
            push_str(&mut text, line.as_str());
            assert(text@ =~= seq!['\n'] + join(dm, seq![' ', ' ']) + seq!['\n', '$', ' '] + line@);
            (line, text)
        } else {
            let mut text = String::new();
            push_erase(&mut text, k);
            push_str(&mut text, joined.as_str());
            (joined, text)
        }
    } else {
        let mut text = String::new();
        push_erase(&mut text, byte_len(input.as_str()));
        push_str(&mut text, input.as_str());
        (input.clone(), text)
    }
}

/// One completion step, with the shared pieces of the candidates found as
/// the shell finds them.
fn completion_step_exec(input: &String, ms: &Vec<String>, count: usize) -> (r: (String, String))
    ensures
        exists|w: Seq<Seq<Seq<char>>>|
            is_walk(w, ms.deep_view()) && (r.0@, r.1@) == completion_step(
                input@,
                ms.deep_view(),
                count,
                common_of(w),
            ),
{
    let ghost dm = ms.deep_view();
    if ms.len() <= 1 {
        let r = completion_step_few(input, ms, count);
        proof {
            let w0 = names_walk(dm);
            lemma_names_walk(dm);
            assert((r.0@, r.1@) == completion_step(input@, dm, count, common_of(w0)));
        }
        return r;
    }
    let common = longest_common_prefix(ms);
    let r = completion_step_many(input, ms, count, &common);
    proof {
        let w = choose|w: Seq<Seq<Seq<char>>>| is_walk(w, dm) && common.deep_view() == common_of(w);
        assert((r.0@, r.1@) == completion_step(input@, dm, count, common_of(w)));
    }
    r
}


/// What Tab does at the prompt once the names that could complete the
/// line are known: the candidates are those names that start with the
/// line, sorted (`ms`); with several, the bell rings; then a first
/// completion step is taken with the shared pieces `common`, and the
/// completion stays open when there are several candidates.
pub open spec fn begin_step(st: PromptView, ms: Seq<Seq<char>>, common: Seq<Seq<char>>) -> (PromptView, Seq<char>) {
    let bell = if ms.len() > 1 { seq!['\u{7}'] } else { Seq::empty() };
    let (line, text) = completion_step(st.0, ms, 0, common);
    let comp = if ms.len() > 1 { Some((ms, 1usize)) } else { Option::None };
    ((line, st.1, comp), bell + text)
}

/// `new` and `text` are what Tab does at the prompt `old` when `names` are
/// the names that could complete it: `ms` are the candidates, sorted, and
/// `w` the walk of them that gives the shared pieces.
pub open spec fn begin_ok(old: PromptView, names: Seq<Seq<char>>, new: PromptView, text: Seq<char>, ms: Seq<Seq<char>>, w: Seq<Seq<Seq<char>>>) -> bool {
    &&& ms.to_multiset() == with_prefix(names, old.0).to_multiset()
    &&& sorted_strings(ms)
    &&& (ms.len() > 1 ==> is_walk(w, ms))
    &&& new == begin_step(old, ms, common_of(w)).0
    &&& text == begin_step(old, ms, common_of(w)).1
}

impl Prompt {
    /// The prompt's state is usable: the history position can still grow.
    pub closed spec fn wf(&self) -> bool {
        self.history_offset < usize::MAX
    }

    /// A prompt with an empty line, at the start of the history.
    pub fn new() -> (r: Self)
        ensures
            r.wf(),
            r@ == (Seq::<char>::empty(), 0usize, Option::<(Seq<Seq<char>>, usize)>::None),
    {
        Prompt { input: String::new(), history_offset: 0, completion: None }
    }

    /// Starts a completion of the line, where `names` are the names that
    /// could complete it (the shell's own commands and the programs on the
    /// search path). Gives the text to print.
    pub fn begin_completion(&mut self, names: &Vec<String>) -> (r: String)
        requires
            old(self).wf(),
        ensures
            final(self).wf(),
            exists|ms: Seq<Seq<char>>, w: Seq<Seq<Seq<char>>>|
                #[trigger] begin_ok(old(self)@, names.deep_view(), final(self)@, r@, ms, w),
    {
        let ghost st = self@;
        let mut ms = get_matches(self.input.as_str(), names);
        sort_strings(&mut ms);
        let ghost dm = ms.deep_view();
        let mut text = String::new();
        if ms.len() > 1 {
            text.push('\u{7}');
        }
        let (line, step_text) = completion_step_exec(&self.input, &ms, 0);
        let ghost w = choose|w: Seq<Seq<Seq<char>>>|
            is_walk(w, dm) && (line@, step_text@) == completion_step(st.0, dm, 0, common_of(w));
        push_str(&mut text, step_text.as_str());
        self.input = line;
        if ms.len() > 1 {
            self.completion = Some((ms, 1));
        } else {
            self.completion = None;
        }
        assert(text@ =~= begin_step(st, dm, common_of(w)).1);
        assert(begin_ok(st, names.deep_view(), self@, text@, dm, w));
        text
    }

    /// The line typed so far.
    pub fn line(&self) -> (r: String)
        ensures
            r@ == self@.0,
    {
        self.input.clone()
    }

    /// Whether `handle_key` can take `key` (see `key_pre`); where it cannot,
    /// the shell fails.
    pub fn accepts(&self, key: Key, history: &CmdHistory) -> (b: bool)
        requires
            history.wf(),
        ensures
            b == key_pre(self@, key, history@),
    {
        let blank_line = match key {
            Key::CtrlW => {
                let v = chars_of(self.input.as_str());
                let t = trim(self.input.as_str());
                proof {
                    crate::text::lemma_trimmed_blank(self.input@);
                }
                v.len() > 0 && t.as_str().is_empty()
            },
            _ => false,
        };
        let count_ok = match &self.completion {
            Some((_, c)) => *c < usize::MAX,
            None => true,
        };
        !blank_line && self.history_offset < usize::MAX && history.length() < usize::MAX && count_ok
    }

    /// Handles one key, with the history `history` for Up and Down.
    pub fn handle_key(&mut self, key: Key, history: &CmdHistory) -> (r: Action)
        requires
            old(self).wf(),
            history.wf(),
            key_pre(old(self)@, key, history@),
        ensures
            final(self).wf(),
            exists|w: Seq<Seq<Seq<char>>>| #[trigger] key_ok(old(self)@, key, history@, final(self)@, r@, w),
    {
        let ghost st = self@;
        let ghost es = history@;
        let ghost w_any = Seq::<Seq<Seq<char>>>::empty();
        match self.completion {
            None => {
                let r = match key {
                    Key::Esc => Action::Discard,
                    Key::Tab => Action::Complete,
                    Key::Enter | Key::CtrlJ => {
                        let t = trim(self.input.as_str());
                        if t.as_str().is_empty() {
                            Action::NewLine
                        } else if str_eq(t.as_str(), "exit") {
                            proof {
                                reveal_strlit("exit");
                            }
                            assert("exit"@ =~= seq!['e', 'x', 'i', 't']);
                            Action::Exit(self.input.clone())
                        } else {
                            proof {
                                reveal_strlit("exit");
                            }
                            assert("exit"@ =~= seq!['e', 'x', 'i', 't']);
                            Action::Run(self.input.clone())
                        }
                    },
                    Key::Backspace => {
                        let v = chars_of(self.input.as_str());
                        if v.len() > 0 {
                            self.input = crate::text::string_of(&v, 0, v.len() - 1);
                            let mut text = String::new();
                            push_erase(&mut text, 1);
                            assert(self.input@ =~= st.0.drop_last());
                            Action::Echo(text)
                        } else {
                            Action::Echo(String::new())
                        }
                    },
                    Key::Char(c) => {
                        self.input.push(c);
                        let mut text = String::new();
                        text.push(c);
                        assert(text@ =~= seq![c]);
                        Action::Echo(text)
                    },
                    Key::CtrlW => {
                        if !self.input.as_str().is_empty() {
                            let (line, text) = delete_word_exec(&self.input);
                            self.input = line;
                            Action::Echo(text)
                        } else {
                            let mut text = String::new();
                            text.push('\u{7}');
                            assert(text@ =~= seq!['\u{7}']);
                            Action::Echo(text)
                        }
                    },
                    Key::Up => {
                        let (line, o, text) = history_up_exec(&self.input, self.history_offset, history);
                        self.input = line;
                        self.history_offset = o;
                        Action::Echo(text)
                    },
                    Key::Down => {
                        let (line, o, text) = history_down_exec(&self.input, self.history_offset, history);
                        self.input = line;
                        self.history_offset = o;
                        Action::Echo(text)
                    },
                    Key::Other => Action::Echo(String::new()),
                };
                assert(key_ok(st, key, es, self@, r@, w_any));
                r
            },
            Some(_) => self.handle_completion_key(key, Ghost(es)),
        }
    }

    /// Handles a key while a completion is shown.
    fn handle_completion_key(&mut self, key: Key, Ghost(es): Ghost<Seq<(usize, Seq<char>)>>) -> (r: Action)
        requires
            old(self).wf(),
            old(self)@.2 is Some,
            key_pre(old(self)@, key, es),
        ensures
            final(self).wf(),
            exists|w: Seq<Seq<Seq<char>>>| #[trigger] key_ok(old(self)@, key, es, final(self)@, r@, w),
    {
        let ghost st = self@;
        let ghost w_any = Seq::<Seq<Seq<char>>>::empty();
        let (ms, count) = match self.completion.take() {
            Some(p) => p,
            None => {
                return Action::Discard;
            },
        };
        let ghost dm = ms.deep_view();
        assert(st.2 == Some((dm, count)));
        let ghost mut wit = w_any;
        let r = match key {
            Key::Tab => {
                if ms.len() > 1 {
                    let (line, text) = completion_step_exec(&self.input, &ms, count);
                    let ghost w = choose|w: Seq<Seq<Seq<char>>>|
                        is_walk(w, dm) && (line@, text@) == completion_step(st.0, dm, count, common_of(w));
                    self.input = line;
                    self.completion = Some((ms, count + 1));
                    proof {
                        wit = w;
                    }
                    Action::Echo(text)
                } else {
                    assert(walk_fits(st, key, w_any));
                    Action::Echo(String::new())
                }
            },
            Key::Enter => {
                assert(walk_fits(st, key, w_any));
                let t = trim(self.input.as_str());
                proof {
                    reveal_strlit("exit");
                }
                assert("exit"@ =~= seq!['e', 'x', 'i', 't']);
                if str_eq(t.as_str(), "exit") {
                    Action::Exit(self.input.clone())
                } else {
                    let line = self.input.clone();
                    self.input = String::new();
                    Action::Run(line)
                }
            },
            Key::Backspace => {
                assert(walk_fits(st, key, w_any));
                let v = chars_of(self.input.as_str());
                if v.len() > 0 {
                    self.input = crate::text::string_of(&v, 0, v.len() - 1);
                    assert(self.input@ =~= st.0.drop_last());
                }
                let mut text = String::new();
                push_erase(&mut text, 1);
                Action::Echo(text)
            },
            Key::CtrlW => {
                assert(walk_fits(st, key, w_any));
                let text = if !self.input.as_str().is_empty() {
                    let (line, text) = delete_word_exec(&self.input);
                    self.input = line;
                    text
                } else {
                    let mut text = String::new();
                    text.push('\u{7}');
                    assert(text@ =~= seq!['\u{7}']);
                    text
                };
                self.completion = Some((ms, count));
                Action::Echo(text)
            },
            Key::Char(c) => {
                assert(walk_fits(st, key, w_any));
                self.input.push(c);
                let mut text = String::new();
                text.push(c);
                assert(text@ =~= seq![c]);
                Action::Echo(text)
            },
            Key::CtrlJ => {
                assert(walk_fits(st, key, w_any));
                self.input.push('j');
                let mut text = String::new();
                text.push('j');
                assert(text@ =~= seq!['j']);
                Action::Echo(text)
            },
            _ => {
                assert(walk_fits(st, key, w_any));
                Action::Echo(String::new())
            },
        };
        assert(key_ok(st, key, es, self@, r@, wit));
        r
    }
}

} // verus!
