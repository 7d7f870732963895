//! Tab completion: the candidates for a word and the part that they share.

use vstd::prelude::*;
use std::collections::HashMap;
use vstd::std_specs::iter::IteratorSpec;
use crate::text::{chars_of, split_chars, split_on, trim, trimmed};

verus! {

broadcast use vstd::std_specs::hash::group_hash_axioms;

/// The pieces of `c` that are equal to the piece of `v` at the same
/// position, in order.
pub open spec fn keep_equal(c: Seq<Seq<char>>, v: Seq<Seq<char>>) -> Seq<Seq<char>>
    decreases c.len(),
{
    if c.len() == 0 {
        Seq::empty()
    } else {
        let r = keep_equal(c.drop_last(), v);
        let i = c.len() - 1;
        if i < v.len() && c[i] == v[i] {
            r.push(c[i])
        } else {
            r
        }
    }
}

/// `c` narrowed by each list of `ws` in turn with `keep_equal`.
pub open spec fn narrow(c: Seq<Seq<char>>, ws: Seq<Seq<Seq<char>>>) -> Seq<Seq<char>>
    decreases ws.len(),
{
    if ws.len() == 0 {
        c
    } else {
        keep_equal(narrow(c, ws.drop_last()), ws.last())
    }
}

/// What the lists `ws`, taken in this order, have in common: the first list
/// narrowed by every list, the first one included.
pub open spec fn common_of(ws: Seq<Seq<Seq<char>>>) -> Seq<Seq<char>> {
    if ws.len() == 0 {
        Seq::empty()
    } else {
        narrow(ws[0], ws)
    }
}

proof fn lemma_keep_equal_self(c: Seq<Seq<char>>, v: Seq<Seq<char>>, n: int)
    requires
        0 <= n <= c.len(),
        n <= v.len(),
        forall|i: int| 0 <= i < n ==> c[i] == v[i],
    ensures
        keep_equal(c.take(n), v) == c.take(n),
    decreases n,
{
    if n > 0 {
        assert(c.take(n).drop_last() =~= c.take(n - 1));
        lemma_keep_equal_self(c, v, n - 1);
        assert(c.take(n - 1).push(c[n - 1]) =~= c.take(n));
    }
}

/// A list narrowed by itself is unchanged.
pub proof fn lemma_keep_equal_idempotent(c: Seq<Seq<char>>)
    ensures
        keep_equal(c, c) == c,
{
    lemma_keep_equal_self(c, c, c.len() as int);
    assert(c.take(c.len() as int) =~= c);
}

proof fn lemma_narrow_same(c: Seq<Seq<char>>, ws: Seq<Seq<Seq<char>>>)
    requires
        forall|i: int| 0 <= i < ws.len() ==> ws[i] == c,
    ensures
        narrow(c, ws) == c,
    decreases ws.len(),
{
    if ws.len() > 0 {
        lemma_narrow_same(c, ws.drop_last());
        lemma_keep_equal_idempotent(c);
    }
}

/// Names that all cut into the same pieces share all of those pieces,
/// whatever order the map walks them in.
pub proof fn lemma_common_of_same(ws: Seq<Seq<Seq<char>>>, c: Seq<Seq<char>>)
    requires
        ws.len() > 0,
        forall|i: int| 0 <= i < ws.len() ==> ws[i] == c,
    ensures
        common_of(ws) == c,
{
    lemma_narrow_same(c, ws);
}

proof fn lemma_keep_equal_shorter(c: Seq<Seq<char>>, v: Seq<Seq<char>>)
    ensures
        keep_equal(c, v).len() <= c.len(),
    decreases c.len(),
{
    if c.len() > 0 {
        lemma_keep_equal_shorter(c.drop_last(), v);
    }
}

proof fn lemma_narrow_shorter(c: Seq<Seq<char>>, ws: Seq<Seq<Seq<char>>>)
    ensures
        narrow(c, ws).len() <= c.len(),
    decreases ws.len(),
{
    if ws.len() > 0 {
        lemma_narrow_shorter(c, ws.drop_last());
        lemma_keep_equal_shorter(narrow(c, ws.drop_last()), ws.last());
    }
}

/// The shared pieces are never more than the pieces of the first list
/// walked.
pub proof fn lemma_common_of_shorter(ws: Seq<Seq<Seq<char>>>)
    requires
        ws.len() > 0,
    ensures
        common_of(ws).len() <= ws[0].len(),
{
    lemma_narrow_shorter(ws[0], ws);
}

/// The pieces of `v` equal to the piece of `w` at the same position.
fn keep_equal_exec(v: Vec<String>, w: &Vec<String>) -> (r: Vec<String>)
    ensures
        r.deep_view() == keep_equal(v.deep_view(), w.deep_view()),
{
    let ghost c = v.deep_view();
    let mut r: Vec<String> = Vec::new();
    let mut i: usize = 0;
    assert(c.take(0) =~= Seq::<Seq<char>>::empty());
    while i < v.len()
        invariant
            i <= v.len(),
            c == v.deep_view(),
            r.deep_view() == keep_equal(c.take(i as int), w.deep_view()),
        decreases v.len() - i,
    {
        assert(c.take(i + 1).drop_last() =~= c.take(i as int));
        if i < w.len() && crate::text::str_eq(v[i].as_str(), w[i].as_str()) {
            let ghost prev = r.deep_view();
            r.push(v[i].clone());
            assert(r.deep_view() =~= prev.push(c[i as int]));
        }
        i = i + 1;
    }
    assert(c.take(v.len() as int) =~= c);
    r
}

/// A copy of the strings `v`.
pub fn copy_strings(v: &Vec<String>) -> (r: Vec<String>)
    ensures
        r.deep_view() == v.deep_view(),
{
    let mut r: Vec<String> = Vec::new();
    let mut i: usize = 0;
    while i < v.len()
        invariant
            i <= v.len(),
            r.deep_view() == v.deep_view().take(i as int),
        decreases v.len() - i,
    {
        let ghost prev = r.deep_view();
        r.push(v[i].clone());
        assert(r.deep_view() =~= prev.push(v[i as int]@));
        assert(r.deep_view() =~= v.deep_view().take(i + 1));
        i = i + 1;
    }
    assert(v.deep_view().take(i as int) =~= v.deep_view());
    r
}

/// What the lists in `map` have in common, walking its values in the order
/// in which the map yields them: the first value narrowed by every value.
pub fn common_strings(map: &HashMap<usize, Vec<String>>) -> (r: Vec<String>)
    ensures
        ({
            let w = vstd::std_specs::hash::spec_values_iter(map).remaining();
            r.deep_view() == common_of(Seq::new(w.len(), |i: int| w[i].deep_view()))
        }),
{
    let ghost w = vstd::std_specs::hash::spec_values_iter(map).remaining();
    let ghost ws = Seq::new(w.len(), |i: int| w[i].deep_view());
    let mut common: Option<Vec<String>> = None;
    for vec in it: map.values()
        invariant
            it.seq() == w,
            ws == Seq::new(w.len(), |i: int| w[i].deep_view()),
            it.index() == 0 <==> common is None,
            common matches Some(c) ==> c.deep_view() == narrow(ws[0], ws.take(it.index() as int)),
    {
        let ghost k = it.index();
        assert(vec == w[k as int]);
        assert(ws.take(k + 1).drop_last() =~= ws.take(k as int));
        assert(ws.take(k + 1).last() == vec.deep_view());
        let base = match common {
            Some(c) => c,
            None => {
                assert(ws.take(0) =~= Seq::<Seq<Seq<char>>>::empty());
                assert(vec.deep_view() == ws[0]);
                copy_strings(vec)
            },
        };
        assert(base.deep_view() == narrow(ws[0], ws.take(k as int)));
        let next = keep_equal_exec(base, vec);
        assert(narrow(ws[0], ws.take(k + 1)) == keep_equal(narrow(ws[0], ws.take(k as int)), vec.deep_view()));
        common = Some(next);
    }
    let common = match common {
        Some(c) => c,
        None => {
            return Vec::new();
        },
    };
    assert(ws.take(ws.len() as int) =~= ws);
    common
}


/// The pieces of a candidate name: the name, trimmed, cut at underscores.
pub open spec fn name_pieces(name: Seq<char>) -> Seq<Seq<char>> {
    split_on(trimmed(name), '_')
}

/// `w` lists the pieces of the names `ms` in some order, as a hash map
/// yields them: as many lists as names, each the pieces of some name, and
/// the pieces of each name among them.
pub open spec fn is_walk(w: Seq<Seq<Seq<char>>>, ms: Seq<Seq<char>>) -> bool {
    &&& w.len() == ms.len()
    &&& forall|i: int| 0 <= i < w.len() ==> pieces_of_some(#[trigger] w[i], ms)
    &&& forall|k: int| 0 <= k < ms.len() ==> listed_in(name_pieces(#[trigger] ms[k]), w)
}

/// `x` is the list of pieces of one of the names `ms`.
pub open spec fn pieces_of_some(x: Seq<Seq<char>>, ms: Seq<Seq<char>>) -> bool {
    exists|k: int| 0 <= k < ms.len() && x == name_pieces(#[trigger] ms[k])
}

/// `x` is one of the lists `w`.
pub open spec fn listed_in(x: Seq<Seq<char>>, w: Seq<Seq<Seq<char>>>) -> bool {
    exists|i: int| 0 <= i < w.len() && #[trigger] w[i] == x
}

/// The pieces, cut at underscores, that the names `matches` share at the
/// same positions, as the shell computes it: the names' pieces go into a
/// hash map keyed by position, and the first list that the map yields is
/// narrowed by every list in the order in which the map yields them.
pub fn longest_common_prefix(matches: &Vec<String>) -> (r: Vec<String>)
    ensures
        exists|w: Seq<Seq<Seq<char>>>| is_walk(w, matches.deep_view()) && r.deep_view() == common_of(w),
{
    let ghost ms = matches.deep_view();
    let mut prefixes: HashMap<usize, Vec<String>> = HashMap::new();
    let mut m: usize = 0;
    while m < matches.len()
        invariant
            m <= matches.len(),
            ms == matches.deep_view(),
            prefixes@.dom().finite(),
            prefixes@.dom().len() == m,
            forall|k: usize| #[trigger] prefixes@.dom().contains(k) <==> k < m,
            forall|k: usize| k < m ==> (#[trigger] prefixes@[k]).deep_view() == name_pieces(ms[k as int]),
        decreases matches.len() - m,
    {
        let t = trim(matches[m].as_str());
        let temp = split_chars(&chars_of(t.as_str()), '_');
        assert(ms[m as int] == matches[m as int]@);
        assert(!prefixes@.dom().contains(m));
        prefixes.insert(m, temp);
        m = m + 1;
    }
    let r = common_strings(&prefixes);
    let ghost wr = vstd::std_specs::hash::spec_values_iter(&prefixes).remaining();
    let ghost w = Seq::new(wr.len(), |i: int| wr[i].deep_view());
    proof {
        let vals = wr.unref().to_set();
        assert(vals == prefixes@.values());
        assert(wr.len() == matches.len());
        assert forall|i: int| 0 <= i < w.len() implies pieces_of_some(#[trigger] w[i], ms) by {
            assert(wr.unref()[i] == *wr[i]);
            assert(vals.contains(wr.unref()[i]));
            let k = choose|k: usize| #[trigger] prefixes@.dom().contains(k) && prefixes@[k] == wr.unref()[i];
            assert(w[i] == name_pieces(ms[k as int]));
        }
        assert forall|k: int| 0 <= k < ms.len() implies listed_in(name_pieces(#[trigger] ms[k]), w) by {
            let ku = k as usize;
            assert(prefixes@.dom().contains(ku));
            assert(prefixes@.values().contains(prefixes@[ku]));
            assert(vals.contains(prefixes@[ku]));
            let i = choose|i: int| 0 <= i < wr.unref().len() && wr.unref()[i] == prefixes@[ku];
            assert(w[i] == name_pieces(ms[k]));
        }
        assert(is_walk(w, ms));
    }
    r
}


/// `s` starts with `p`.
pub open spec fn starts_with(s: Seq<char>, p: Seq<char>) -> bool {
    p.len() <= s.len() && s.take(p.len() as int) == p
}

/// The names of `names` that start with `prefix`, in order.
pub open spec fn with_prefix(names: Seq<Seq<char>>, prefix: Seq<char>) -> Seq<Seq<char>>
    decreases names.len(),
{
    if names.len() == 0 {
        Seq::empty()
    } else if starts_with(names.last(), prefix) {
        with_prefix(names.drop_last(), prefix).push(names.last())
    } else {
        with_prefix(names.drop_last(), prefix)
    }
}

/// Whether `s` starts with `p`.
pub fn has_prefix(s: &str, p: &str) -> (b: bool)
    ensures
        b == starts_with(s@, p@),
{
    let x = chars_of(s);
    let y = chars_of(p);
    if y.len() > x.len() {
        return false;
    }
    let mut i: usize = 0;
    while i < y.len()
        invariant
            i <= y.len() <= x.len(),
            x@ == s@,
            y@ == p@,
            forall|k: int| 0 <= k < i ==> x@[k] == y@[k],
        decreases y.len() - i,
    {
        if x[i] != y[i] {
            assert(s@.take(p@.len() as int)[i as int] != p@[i as int]);
            return false;
        }
        i = i + 1;
    }
    assert(s@.take(p@.len() as int) =~= p@);
    true
}

/// The candidates among `names` for completing `input`: those that start
/// with it, in the order given.
pub fn get_matches(input: &str, names: &Vec<String>) -> (r: Vec<String>)
    ensures
        r.deep_view() == with_prefix(names.deep_view(), input@),
{
    let ghost ns = names.deep_view();
    let mut r: Vec<String> = Vec::new();
    let mut i: usize = 0;
    assert(ns.take(0) =~= Seq::<Seq<char>>::empty());
    while i < names.len()
        invariant
            i <= names.len(),
            ns == names.deep_view(),
            r.deep_view() == with_prefix(ns.take(i as int), input@),
        decreases names.len() - i,
    {
        assert(ns.take(i + 1).drop_last() =~= ns.take(i as int));
        assert(ns.take(i + 1).last() == names[i as int]@);
        if has_prefix(names[i].as_str(), input) {
            let ghost prev = r.deep_view();
            r.push(names[i].clone());
            assert(r.deep_view() =~= prev.push(names[i as int]@));
        }
        i = i + 1;
    }
    assert(ns.take(names.len() as int) =~= ns);
    r
}

/// `a` comes before `b`, or is equal to it, in the lexicographic order of
/// their bytes.
pub open spec fn bytes_le(a: Seq<u8>, b: Seq<u8>) -> bool
    decreases a.len(),
{
    if a.len() == 0 {
        true
    } else if b.len() == 0 {
        false
    } else if a[0] != b[0] {
        a[0] < b[0]
    } else {
        bytes_le(a.drop_first(), b.drop_first())
    }
}

/// The strings are in the order of `Ord` for `String`: by their UTF-8
/// bytes, lexicographically.
pub open spec fn sorted_strings(v: Seq<Seq<char>>) -> bool {
    forall|i: int, j: int|
        0 <= i < j < v.len() ==> bytes_le(
            vstd::utf8::encode_utf8(#[trigger] v[i]),
            vstd::utf8::encode_utf8(#[trigger] v[j]),
        )
}

/// `slice::sort` on strings. Its documentation says that it sorts the
/// slice in place, keeping its elements, in the order of `Ord`, which for
/// `String` compares the bytes lexicographically. Claimed here: the result
/// holds the same strings, as many times each, in that order.
#[verifier::external_body]
pub fn sort_strings(v: &mut Vec<String>)
    ensures
        final(v).deep_view().to_multiset() == old(v).deep_view().to_multiset(),
        sorted_strings(final(v).deep_view()),
{
    v.sort();
}

} // verus!
