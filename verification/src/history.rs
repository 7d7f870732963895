//! The command history: numbered entries, their text form, and the laws
//! that tie pushing, reading back and rendering together.

use vstd::prelude::*;
use crate::text::{
    chars_of, lemma_split_on_nonempty, push_str, split_chars, split_on, trim, trimmed,
};

verus! {

/// The commands entered so far, each with its number.
#[derive(Debug, Clone)]
pub struct CmdHistory {
    history: Vec<(usize, String)>,
    length: usize,
}

impl View for CmdHistory {
    type V = Seq<(usize, Seq<char>)>;

    closed spec fn view(&self) -> Seq<(usize, Seq<char>)> {
        self.history.deep_view()
    }
}

/// The entries numbered `1, 2, ...` for the commands `cs`.
pub open spec fn numbered(cs: Seq<Seq<char>>) -> Seq<(usize, Seq<char>)> {
    Seq::new(cs.len(), |k: int| ((k + 1) as usize, cs[k]))
}

/// The text of the entries: each command followed by a newline.
pub open spec fn render(es: Seq<(usize, Seq<char>)>) -> Seq<char>
    decreases es.len(),
{
    if es.len() == 0 {
        Seq::empty()
    } else {
        render(es.drop_last()) + es.last().1.push('\n')
    }
}

/// The non-empty pieces of `ps`, in order.
pub open spec fn non_empty(ps: Seq<Seq<char>>) -> Seq<Seq<char>>
    decreases ps.len(),
{
    if ps.len() == 0 {
        Seq::empty()
    } else if ps.last().len() > 0 {
        non_empty(ps.drop_last()).push(ps.last())
    } else {
        non_empty(ps.drop_last())
    }
}

/// The commands that a history text holds: its lines, trimmed, without the
/// empty ones.
pub open spec fn text_commands(s: Seq<char>) -> Seq<Seq<char>> {
    let ps = split_on(s, '\n');
    non_empty(Seq::new(ps.len(), |k: int| trimmed(ps[k])))
}

/// The history read from a text: the commands of its lines, numbered from
/// one, or nothing when it holds no command.
pub open spec fn parse_history(s: Seq<char>) -> Option<Seq<(usize, Seq<char>)>> {
    let cs = text_commands(s);
    if cs.len() > 0 {
        Some(numbered(cs))
    } else {
        Option::None
    }
}

impl CmdHistory {
    /// The length field counts the entries.
    pub closed spec fn wf(&self) -> bool {
        self.length == self.history.len()
    }

    /// Appends `string` as the next entry, numbered one more than the
    /// number of entries.
    pub fn push(&mut self, string: String)
        requires
            old(self).wf(),
            old(self)@.len() < usize::MAX,
        ensures
            final(self).wf(),
            final(self)@ == old(self)@.push(((old(self)@.len() + 1) as usize, string@)),
    {
        self.length = self.length + 1;
        let tuple = (self.length, string);
        self.history.push(tuple);
        assert(self.history.deep_view() =~= old(self)@.push(((old(self)@.len() + 1) as usize, string@)));
    }

    /// An empty history.
    pub fn new() -> (r: Self)
        ensures
            r.wf(),
            r@ == Seq::<(usize, Seq<char>)>::empty(),
    {
        let r = Self { history: Vec::new(), length: 0 };
        assert(r.history.deep_view() =~= Seq::<(usize, Seq<char>)>::empty());
        r
    }

    /// The last entry, or `(0, "")` when there is none.
    pub fn last_entry(&self) -> (r: (usize, String))
        requires
            self.wf(),
        ensures
            self@.len() == 0 ==> r.0 == 0 && r.1@ == Seq::<char>::empty(),
            self@.len() > 0 ==> r.0 == self@.last().0 && r.1@ == self@.last().1,
    {
        let n = self.history.len();
        if n > 1 {
            (self.history[n - 1].0, self.history[n - 1].1.clone())
        } else if n == 0 {
            (0, String::new())
        } else {
            (self.history[0].0, self.history[0].1.clone())
        }
    }

    /// A history holding the entries `vec` as they are.
    pub fn from_vec(vec: &Vec<(usize, String)>) -> (r: Self)
        ensures
            r.wf(),
            r@ == vec.deep_view(),
    {
        let history = copy_entries(vec);
        let length = history.len();
        Self { history, length }
    }

    /// The entries, as they are.
    pub fn entries(&self) -> (r: Vec<(usize, String)>)
        ensures
            r.deep_view() == self@,
    {
        copy_entries(&self.history)
    }

    /// The number of entries.
    pub fn length(&self) -> (r: usize)
        requires
            self.wf(),
        ensures
            r == self@.len(),
    {
        self.length
    }

    /// Whether there are no entries.
    pub fn is_empty(&self) -> (r: bool)
        ensures
            r == (self@.len() == 0),
    {
        self.history.len() == 0
    }

    /// The text that is saved to the history file: the text of the history
    /// followed by one more newline (so that reading it back with
    /// `from_str` gives the entries again, see `lemma_save_load_roundtrip`).
    pub fn saved_text(&self) -> (r: String)
        ensures
            r@ == render(self@).push('\n'),
    {
        let mut t = self.to_string();
        t.push('\n');
        t
    }

    /// The text of the history: each command followed by a newline.
    pub fn to_string(&self) -> (r: String)
        ensures
            r@ == render(self@),
    {
        let mut buf = String::new();
        let mut k: usize = 0;
        let ghost es = self@;
        assert(es.take(0) =~= Seq::<(usize, Seq<char>)>::empty());
        while k < self.history.len()
            invariant
                k <= self.history.len(),
                es == self@,
                es == self.history.deep_view(),
                buf@ == render(es.take(k as int)),
            decreases self.history.len() - k,
        {
            assert(es.take(k + 1).drop_last() =~= es.take(k as int));
            push_str(&mut buf, self.history[k].1.as_str());
            buf.push('\n');
            assert(buf@ =~= render(es.take(k + 1)));
            k = k + 1;
        }
        assert(es.take(k as int) =~= es);
        buf
    }

    /// Reads a history from its text: each non-blank line, trimmed, becomes
    /// an entry, numbered from one; a text without one is refused.
    pub fn from_str(s: &str) -> (r: Result<Self, ()>)
        ensures
            match r {
                Ok(h) => h.wf() && parse_history(s@) == Some(h@),
                Err(_) => parse_history(s@) is None,
            },
    {
        let v = chars_of(s);
        let lines = split_chars(&v, '\n');
        let ghost ps = split_on(s@, '\n');
        let ghost ts = Seq::new(ps.len(), |k: int| trimmed(ps[k]));
        let mut history = CmdHistory::new();
        let mut k: usize = 0;
        assert(ts.take(0) =~= Seq::<Seq<char>>::empty());
        while k < lines.len()
            invariant
                k <= lines.len(),
                lines.deep_view() == ps,
                ts == Seq::new(ps.len(), |k: int| trimmed(ps[k])),
                history.wf(),
                history@ == numbered(non_empty(ts.take(k as int))),
                non_empty(ts.take(k as int)).len() <= k,
            decreases lines.len() - k,
        {
            let part = trim(lines[k].as_str());
            assert(ts.take(k + 1).drop_last() =~= ts.take(k as int));
            assert(ts.take(k + 1).last() == part@);
            if !part.as_str().is_empty() {
                let ghost before = non_empty(ts.take(k as int));
                history.push(part);
                assert(history@ =~= numbered(before.push(ts[k as int])));
            }
            k = k + 1;
        }
        assert(ts.take(lines.len() as int) =~= ts);
        if !history.is_empty() {
            Ok(history)
        } else {
            Err(())
        }
    }
}

pub(crate) proof fn lemma_split_append_plain(x: Seq<char>, y: Seq<char>, sep: char)
    requires
        !y.contains(sep),
    ensures
        split_on(x + y, sep) == split_on(x, sep).update(
            split_on(x, sep).len() - 1,
            split_on(x, sep).last() + y,
        ),
    decreases y.len(),
{
    lemma_split_on_nonempty(x, sep);
    if y.len() == 0 {
        assert(x + y =~= x);
        assert(split_on(x, sep).last() + y =~= split_on(x, sep).last());
        assert(split_on(x, sep).update(split_on(x, sep).len() - 1, split_on(x, sep).last())
            =~= split_on(x, sep));
    } else {
        let y0 = y.drop_last();
        assert(!y0.contains(sep)) by {
            if y0.contains(sep) {
                let j = choose|j: int| 0 <= j < y0.len() && y0[j] == sep;
                assert(y[j] == sep);
            }
        }
        lemma_split_append_plain(x, y0, sep);
        assert((x + y).drop_last() =~= x + y0);
        assert((x + y).last() == y.last());
        assert(y.last() != sep) by {
            assert(y[y.len() - 1] == y.last());
        }
        lemma_split_on_nonempty(x + y0, sep);
        let xy = x + y;
        assert(xy.drop_last() == x + y0);
        assert(xy.len() > 0 && xy.last() != sep);
        let r = split_on(xy.drop_last(), sep);
        assert(split_on(xy, sep) == r.update(r.len() - 1, r.last().push(xy.last())));
        let big_r = split_on(x, sep);
        assert(r == big_r.update(big_r.len() - 1, big_r.last() + y0));
        assert(r.last() == big_r.last() + y0);
        assert(big_r.last() + y0 + seq![y.last()] =~= big_r.last() + y);
        assert(r.last().push(xy.last()) =~= big_r.last() + y);
        assert(split_on(xy, sep) =~= big_r.update(big_r.len() - 1, big_r.last() + y));
    }
}

/// The commands of the entries.
pub open spec fn commands(es: Seq<(usize, Seq<char>)>) -> Seq<Seq<char>> {
    Seq::new(es.len(), |k: int| es[k].1)
}

proof fn lemma_split_render(es: Seq<(usize, Seq<char>)>)
    requires
        forall|k: int| 0 <= k < es.len() ==> !(#[trigger] es[k].1).contains('\n'),
    ensures
        split_on(render(es), '\n') == commands(es).push(Seq::empty()),
    decreases es.len(),
{
    if es.len() == 0 {
        assert(split_on(render(es), '\n') =~= commands(es).push(Seq::empty()));
    } else {
        let e = es.drop_last();
        lemma_split_render(e);
        let c = es.last().1;
        assert(!c.contains('\n')) by {
            assert(es[es.len() - 1].1 == c);
        }
        lemma_split_append_plain(render(e), c, '\n');
        assert(render(es) == render(e) + c.push('\n'));
        assert((render(e) + c).push('\n') =~= render(es));
        assert(split_on(render(es), '\n') == split_on(render(e) + c, '\n').push(Seq::empty())) by {
            assert(render(es).drop_last() =~= render(e) + c);
        }
        assert(commands(es) =~= commands(e).push(c));
        assert(commands(e).push(Seq::empty()).update(commands(e).len() as int, Seq::empty() + c)
            =~= commands(e).push(c));
    }
}

proof fn lemma_non_empty_all(cs: Seq<Seq<char>>)
    requires
        forall|k: int| 0 <= k < cs.len() ==> (#[trigger] cs[k]).len() > 0,
    ensures
        non_empty(cs) == cs,
    decreases cs.len(),
{
    if cs.len() > 0 {
        lemma_non_empty_all(cs.drop_last());
        assert(cs.drop_last().push(cs.last()) =~= cs);
    }
}

/// Saving a history and reading it back gives the same entries, when they
/// are numbered from one and each command is non-empty, already trimmed and
/// free of line breaks. The saved text is the rendered history followed by
/// a newline.
pub proof fn lemma_save_load_roundtrip(es: Seq<(usize, Seq<char>)>)
    requires
        es.len() > 0,
        forall|k: int| 0 <= k < es.len() ==> (#[trigger] es[k]).0 == k + 1,
        forall|k: int|
            0 <= k < es.len() ==> (#[trigger] es[k]).1.len() > 0 && trimmed(es[k].1) == es[k].1
                && !es[k].1.contains('\n'),
    ensures
        parse_history(render(es).push('\n')) == Some(es),
{
    lemma_split_render(es);
    let cs = commands(es);
    let saved = render(es).push('\n');
    assert(split_on(saved, '\n') == split_on(render(es), '\n').push(Seq::empty())) by {
        assert(saved.drop_last() =~= render(es));
    }
    let ps = cs.push(Seq::empty()).push(Seq::empty());
    assert(split_on(saved, '\n') == ps);
    let ts = Seq::new(ps.len(), |k: int| trimmed(ps[k]));
    let e = Seq::<char>::empty();
    assert(trimmed(e) == e) by {
        assert(crate::text::trim_start(e) == e);
        assert(crate::text::trim_end(e) == e);
    }
    assert(ts =~= ps);
    assert(ps.drop_last() == cs.push(e));
    assert(ps.last().len() == 0);
    assert(non_empty(ps) == non_empty(cs.push(e)));
    assert(cs.push(e).drop_last() == cs);
    assert(cs.push(e).last().len() == 0);
    assert(non_empty(cs.push(e)) == non_empty(cs));
    lemma_non_empty_all(cs);
    assert(numbered(cs) =~= es);
}

/// Pushing a command onto entries numbered from one keeps them numbered
/// from one: the new entry gets the next number.
pub proof fn lemma_push_keeps_numbering(cs: Seq<Seq<char>>, c: Seq<char>)
    requires
        cs.len() < usize::MAX,
    ensures
        numbered(cs).push(((numbered(cs).len() + 1) as usize, c)) == numbered(cs.push(c)),
{
    assert(numbered(cs).push(((numbered(cs).len() + 1) as usize, c)) =~= numbered(cs.push(c)));
}

/// The commands `cs` as entries numbered from `base + 1`.
pub open spec fn numbered_from(base: nat, cs: Seq<Seq<char>>) -> Seq<(usize, Seq<char>)> {
    Seq::new(cs.len(), |k: int| ((base + k + 1) as usize, cs[k]))
}

/// Records the line `input` in the history, unless it is empty. Says
/// whether it did (the history is then to be saved).
pub fn add_to_history(input: String, history: &mut CmdHistory) -> (r: bool)
    requires
        old(history).wf(),
        old(history)@.len() < usize::MAX,
    ensures
        final(history).wf(),
        r == (input@.len() > 0),
        r ==> final(history)@ == old(history)@.push(((old(history)@.len() + 1) as usize, input@)),
        !r ==> final(history)@ == old(history)@,
{
    if input.as_str().is_empty() {
        false
    } else {
        history.push(input);
        true
    }
}

/// Adds the commands of `entries` (read from a history file) to the
/// history, numbered after its last entry.
pub fn add_history_entries(entries: &Vec<(usize, String)>, history: &mut CmdHistory)
    requires
        old(history).wf(),
        old(history)@.len() + entries.len() < usize::MAX,
    ensures
        final(history).wf(),
        final(history)@ == old(history)@ + numbered_from(
            old(history)@.len(),
            commands(entries.deep_view()),
        ),
{
    let ghost cs = commands(entries.deep_view());
    let ghost base = old(history)@;
    let mut k: usize = 0;
    assert(cs.take(0) =~= Seq::<Seq<char>>::empty());
    assert(base + numbered_from(base.len(), cs.take(0)) =~= base);
    while k < entries.len()
        invariant
            k <= entries.len(),
            base == old(history)@,
            base.len() + entries.len() < usize::MAX,
            cs == commands(entries.deep_view()),
            history.wf(),
            history@ == base + numbered_from(base.len(), cs.take(k as int)),
        decreases entries.len() - k,
    {
        assert(cs[k as int] == entries[k as int].1@);
        history.push(entries[k].1.clone());
        assert(history@ =~= base + numbered_from(base.len(), cs.take(k + 1)));
        k = k + 1;
    }
    assert(cs.take(k as int) =~= cs);
}

/// The entries of the history kept as the text `content` (`None` when the
/// history file cannot be read): the entries read from it, or none when it
/// holds no command.
pub fn get_history(content: Option<&str>) -> (r: Vec<(usize, String)>)
    ensures
        r.deep_view() == match content {
            Some(c) => match parse_history(c@) {
                Some(es) => es,
                None => Seq::empty(),
            },
            None => Seq::empty(),
        },
{
    let empty = CmdHistory::new().entries();
    match content {
        Some(c) => match CmdHistory::from_str(c) {
            Ok(h) => h.entries(),
            Err(_) => empty,
        },
        None => empty,
    }
}

/// A copy of the entries `vec`.
fn copy_entries(vec: &Vec<(usize, String)>) -> (r: Vec<(usize, String)>)
    ensures
        r.deep_view() == vec.deep_view(),
{
    let mut r: Vec<(usize, String)> = Vec::new();
    let mut k: usize = 0;
    while k < vec.len()
        invariant
            k <= vec.len(),
            r.deep_view() == vec.deep_view().take(k as int),
        decreases vec.len() - k,
    {
        let ghost prev = r.deep_view();
        let e = (vec[k].0, vec[k].1.clone());
        assert(e.deep_view() == vec.deep_view()[k as int]);
        r.push(e);
        assert(r.deep_view() =~= prev.push(vec.deep_view()[k as int]));
        assert(r.deep_view() =~= vec.deep_view().take(k + 1));
        k = k + 1;
    }
    assert(vec.deep_view().take(k as int) =~= vec.deep_view());
    r
}

} // verus!
